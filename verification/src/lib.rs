pub mod types;
pub mod attacking;
pub mod rays;
pub mod board;
pub mod search;
pub mod time_manager;
pub mod utils;
pub mod nnue;
pub mod uci;
