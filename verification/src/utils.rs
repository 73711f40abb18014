pub mod perft;
