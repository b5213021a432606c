pub mod types;
pub mod levelinfos;
pub mod modifyorder;
pub mod order;
pub mod orderbook;
pub mod ordertypes;
pub mod side;
pub mod book_side;
pub mod trade;
pub mod bookview;
pub mod laws;

pub use levelinfos::{LevelInfo, OrderbookLevelInfos};
pub use modifyorder::OrderModify;
pub use order::Order;
pub use orderbook::OrderBook;
pub use ordertypes::OrderType;
pub use side::Side;
pub use trade::{Trade, TradeInfo};
pub use types::{OrderId, Price, Quantity, Volume, Trades};
