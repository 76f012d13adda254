pub mod style;
pub mod registry;
pub mod driver;
pub mod text;
