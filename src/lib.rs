//! Decoding of EVM event logs driven by a contract's ABI description.
pub mod hexcodec;
pub mod text;
pub mod abi_type;
pub mod value;
pub mod decoder;
pub mod event;
pub mod registry;
pub mod schema;
pub mod project;
