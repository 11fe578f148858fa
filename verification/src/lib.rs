pub mod endian;
pub mod hex_text;
pub mod mempool;
pub mod messages;
pub mod oddsketch;
pub mod transaction;
