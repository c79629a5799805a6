//! A discrete-time double-auction market: goods, each with a pool of adaptive
//! buyers and sellers that clear once per simulated day into a rolling history.
pub mod history;
pub mod traders;
pub mod market;
pub mod economy;
mod random;

pub use history::{History, Statistics};
pub use traders::{Buyer, Seller};
pub use market::{Market, Strategy, Trade};
pub use economy::Economy;
