pub mod value;
pub mod text;
pub mod serialize;
pub mod parse;
pub mod format;
pub mod path;
pub mod registry;
pub mod arena;
pub mod roundtrip;
pub mod layout;
