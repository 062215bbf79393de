pub mod components;
pub mod hex;
pub mod state;
pub mod utils;
pub mod battle;
