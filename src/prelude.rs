pub use crate::{Order, PriceLevel, Side, Trade};
