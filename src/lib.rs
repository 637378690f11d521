pub mod train_freight_system;
pub mod util;
pub mod command;
