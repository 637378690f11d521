pub mod kilogram;
pub mod minute;
pub mod search;
