pub mod bup;
pub mod engine;
pub mod fastcdc;
pub mod gear;
pub mod gear_table;
pub mod masks;
pub mod seed_zero;
pub mod stream;

pub use crate::bup::Bup;
pub use crate::engine::{Engine, RollingState};
pub use crate::fastcdc::FastCDC;
pub use crate::gear::Gear;
