//! Temperature readings.

use vstd::prelude::*;

verus! {

/// The unit a temperature is reported in.
#[derive(Clone, Debug)]
pub enum TemperatureType {
    Celsius,
    Kelvin,
    Fahrenheit,
}

impl Default for TemperatureType {
    fn default() -> (unit: Self)
        ensures
            unit is Celsius,
    {
        TemperatureType::Celsius
    }
}

} // verus!
