pub mod error;
pub mod msg;
pub mod state;
pub mod util;
pub mod contract;
