//! Plain data types shared by every part of the library.

pub mod data_types;
pub mod table;
pub mod crypto_primitives;
pub mod validator_laws;
pub mod validator_set;
pub mod block;
pub mod update_sets;
