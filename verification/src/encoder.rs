pub mod custom;
pub mod traits;
