pub mod types;
pub mod wire;
pub mod decode;
pub mod encode;
pub mod roundtrip;

pub use types::{BasicTypes, EntryModel, MsgPackEntry, MsgPackError, MsgPackValue, MsgValue, ValueModel};
pub use decode::{unpack};
pub use encode::{pack, write_value};
