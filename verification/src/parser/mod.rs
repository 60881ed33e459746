//! The grammar, bottom-up: characters, numbers, values, key-value pairs,
//! blocks, document.

pub mod block;
pub mod key_value;
pub mod metadata;
pub mod number;
pub mod state;
pub mod text;
pub mod unknown;
pub mod values;
