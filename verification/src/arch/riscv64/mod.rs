pub mod memory;
pub mod sv39;
