pub mod column;
pub mod filter;
pub mod forest;
pub mod fx;
pub mod group;
pub mod harvest;
pub mod labels;
pub mod laws;
pub mod row;
pub mod search;
pub mod sort;
pub mod table;
pub mod temperature;
pub mod tree;
pub mod visible;
pub mod widget;
