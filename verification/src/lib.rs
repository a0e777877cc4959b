pub mod alias;
pub mod analysis;
pub mod driver;
pub mod mir;
pub mod optimisation;
