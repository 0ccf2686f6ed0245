pub mod bytes;
pub mod entries;
pub mod history;
pub mod sha;
pub mod certmap;
pub mod rng;
pub mod types;
pub mod codec;
pub mod cbor;
pub mod hexcode;
pub mod state;
