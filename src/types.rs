use vstd::prelude::*;

verus! {

/// Coarse category of a value, for consumers that do not care about wire widths.
#[derive(Clone, Copy, Debug, PartialEq, Eq, Structural)]
pub enum BasicTypes {
    Null,
    Bool,
    Number,
    String,
    Bin,
    Array,
    Mapping,
}

/// One MessagePack value, with the exact wire format it was (or is to be) written in.
///
/// Floats are held as their IEEE-754 bit patterns.
#[derive(Debug, PartialEq)]
pub enum MsgPackValue {
    Null,
    Bool(bool),
    FixPos(u8),
    FixNeg(i8),
    U8(u8),
    U16(u16),
    U32(u32),
    U64(u64),
    I8(i8),
    I16(i16),
    I32(i32),
    I64(i64),
    F32(u32),
    F64(u64),
    FixStr(String),
    Str8(String),
    Str16(String),
    Str32(String),
    Bin8(Vec<u8>),
    Bin16(Vec<u8>),
    Bin32(Vec<u8>),
    FixArray(Vec<MsgPackEntry>),
    Array16(Vec<MsgPackEntry>),
    Array32(Vec<MsgPackEntry>),
    FixMap(Vec<(MsgPackEntry, MsgPackEntry)>),
    Map16(Vec<(MsgPackEntry, MsgPackEntry)>),
    Map32(Vec<(MsgPackEntry, MsgPackEntry)>),
}

/// A decoded value together with the marker byte it was read with and its category.
#[derive(Debug, PartialEq)]
pub struct MsgPackEntry {
    pub raw_marker: u8,
    pub basic_type: BasicTypes,
    pub data: MsgPackValue,
}

/// Why a buffer could not be decoded.
#[derive(Clone, Copy, Debug, PartialEq, Eq, Structural)]
pub enum MsgPackError {
    /// The buffer ended inside a marker, a length field or a payload.
    UnexpectedEof,
    /// A string payload is not valid UTF-8.
    InvalidUtf8,
    /// An extension-type marker, which this codec does not support.
    Unsupported(u8),
    /// The reserved marker byte, which no format uses.
    Reserved(u8),
}

impl MsgPackError {
    /// A human-readable description of the error.
    pub fn message(&self) -> (r: String)
        ensures
            r@ == (match *self {
                MsgPackError::UnexpectedEof => "IO error: unexpected end of input"@,
                MsgPackError::InvalidUtf8 => "Invalid UTF-8 in string payload"@,
                MsgPackError::Unsupported(_) => "Unsupported format: extension types"@,
                MsgPackError::Reserved(_) => "Malformed marker: reserved byte"@,
            }),
    {
        match self {
            MsgPackError::UnexpectedEof => "IO error: unexpected end of input".to_string(),
            MsgPackError::InvalidUtf8 => "Invalid UTF-8 in string payload".to_string(),
            MsgPackError::Unsupported(_) => "Unsupported format: extension types".to_string(),
            MsgPackError::Reserved(_) => "Malformed marker: reserved byte".to_string(),
        }
    }
}

/// Mathematical model of a value: children are sequences of entry models.
pub enum ValueModel {
    Null,
    Bool(bool),
    FixPos(u8),
    FixNeg(i8),
    U8(u8),
    U16(u16),
    U32(u32),
    U64(u64),
    I8(i8),
    I16(i16),
    I32(i32),
    I64(i64),
    F32(u32),
    F64(u64),
    FixStr(Seq<char>),
    Str8(Seq<char>),
    Str16(Seq<char>),
    Str32(Seq<char>),
    Bin8(Seq<u8>),
    Bin16(Seq<u8>),
    Bin32(Seq<u8>),
    FixArray(Seq<EntryModel>),
    Array16(Seq<EntryModel>),
    Array32(Seq<EntryModel>),
    FixMap(Seq<(EntryModel, EntryModel)>),
    Map16(Seq<(EntryModel, EntryModel)>),
    Map32(Seq<(EntryModel, EntryModel)>),
}

/// Mathematical model of an entry.
pub struct EntryModel {
    pub raw_marker: u8,
    pub basic_type: BasicTypes,
    pub data: ValueModel,
}

/// The category of each value family.
pub open spec fn kind_of(v: ValueModel) -> BasicTypes {
    match v {
        ValueModel::Null => BasicTypes::Null,
        ValueModel::Bool(_) => BasicTypes::Bool,
        ValueModel::FixPos(_) | ValueModel::FixNeg(_) | ValueModel::U8(_) | ValueModel::U16(_)
        | ValueModel::U32(_) | ValueModel::U64(_) | ValueModel::I8(_) | ValueModel::I16(_)
        | ValueModel::I32(_) | ValueModel::I64(_) | ValueModel::F32(_) | ValueModel::F64(
            _,
        ) => BasicTypes::Number,
        ValueModel::FixStr(_) | ValueModel::Str8(_) | ValueModel::Str16(_) | ValueModel::Str32(
            _,
        ) => BasicTypes::String,
        ValueModel::Bin8(_) | ValueModel::Bin16(_) | ValueModel::Bin32(_) => BasicTypes::Bin,
        ValueModel::FixArray(_) | ValueModel::Array16(_) | ValueModel::Array32(
            _,
        ) => BasicTypes::Array,
        ValueModel::FixMap(_) | ValueModel::Map16(_) | ValueModel::Map32(_) => BasicTypes::Mapping,
    }
}

/// The model of a value: strings as characters, binaries as bytes, children as models.
pub open spec fn value_model(v: MsgPackValue) -> ValueModel
    decreases v,
{
    match v {
        MsgPackValue::Null => ValueModel::Null,
        MsgPackValue::Bool(b) => ValueModel::Bool(b),
        MsgPackValue::FixPos(n) => ValueModel::FixPos(n),
        MsgPackValue::FixNeg(n) => ValueModel::FixNeg(n),
        MsgPackValue::U8(n) => ValueModel::U8(n),
        MsgPackValue::U16(n) => ValueModel::U16(n),
        MsgPackValue::U32(n) => ValueModel::U32(n),
        MsgPackValue::U64(n) => ValueModel::U64(n),
        MsgPackValue::I8(n) => ValueModel::I8(n),
        MsgPackValue::I16(n) => ValueModel::I16(n),
        MsgPackValue::I32(n) => ValueModel::I32(n),
        MsgPackValue::I64(n) => ValueModel::I64(n),
        MsgPackValue::F32(n) => ValueModel::F32(n),
        MsgPackValue::F64(n) => ValueModel::F64(n),
        MsgPackValue::FixStr(s) => ValueModel::FixStr(s@),
        MsgPackValue::Str8(s) => ValueModel::Str8(s@),
        MsgPackValue::Str16(s) => ValueModel::Str16(s@),
        MsgPackValue::Str32(s) => ValueModel::Str32(s@),
        MsgPackValue::Bin8(b) => ValueModel::Bin8(b@),
        MsgPackValue::Bin16(b) => ValueModel::Bin16(b@),
        MsgPackValue::Bin32(b) => ValueModel::Bin32(b@),
        MsgPackValue::FixArray(a) => ValueModel::FixArray(entries_model(a@)),
        MsgPackValue::Array16(a) => ValueModel::Array16(entries_model(a@)),
        MsgPackValue::Array32(a) => ValueModel::Array32(entries_model(a@)),
        MsgPackValue::FixMap(m) => ValueModel::FixMap(pairs_model(m@)),
        MsgPackValue::Map16(m) => ValueModel::Map16(pairs_model(m@)),
        MsgPackValue::Map32(m) => ValueModel::Map32(pairs_model(m@)),
    }
}

/// The model of an entry.
pub open spec fn entry_model(e: MsgPackEntry) -> EntryModel
    decreases e,
{
    EntryModel { raw_marker: e.raw_marker, basic_type: e.basic_type, data: value_model(e.data) }
}

/// The models of a sequence of entries, in order.
pub open spec fn entries_model(s: Seq<MsgPackEntry>) -> Seq<EntryModel>
    decreases s,
{
    if s.len() == 0 {
        Seq::empty()
    } else {
        entries_model(s.drop_last()).push(entry_model(s.last()))
    }
}

/// The models of a sequence of key/value pairs, in order.
pub open spec fn pairs_model(s: Seq<(MsgPackEntry, MsgPackEntry)>) -> Seq<(EntryModel, EntryModel)>
    decreases s,
{
    if s.len() == 0 {
        Seq::empty()
    } else {
        pairs_model(s.drop_last()).push((entry_model(s.last().0), entry_model(s.last().1)))
    }
}

impl View for MsgPackValue {
    type V = ValueModel;

    open spec fn view(&self) -> ValueModel {
        value_model(*self)
    }
}

impl View for MsgPackEntry {
    type V = EntryModel;

    open spec fn view(&self) -> EntryModel {
        entry_model(*self)
    }
}

/// Anything that holds a MessagePack value.
pub trait MsgValue {
    spec fn held_value(&self) -> MsgPackValue;

    fn get_value(&self) -> (r: &MsgPackValue)
        ensures
            *r == self.held_value(),
    ;
}

impl MsgValue for MsgPackEntry {
    open spec fn held_value(&self) -> MsgPackValue {
        self.data
    }

    fn get_value(&self) -> (r: &MsgPackValue) {
        &self.data
    }
}

impl MsgValue for MsgPackValue {
    open spec fn held_value(&self) -> MsgPackValue {
        *self
    }

    fn get_value(&self) -> (r: &MsgPackValue) {
        self
    }
}

impl MsgPackEntry {
    /// Wraps a value with its marker byte; the category is derived from the value.
    pub fn new(raw_marker: u8, value: MsgPackValue) -> (r: Self)
        ensures
            r.raw_marker == raw_marker,
            r.data == value,
            r.basic_type == kind_of(value@),
            r@ == (EntryModel { raw_marker, basic_type: kind_of(value@), data: value@ }),
    {
        let basic_type = value2type(&value);
        MsgPackEntry { raw_marker, basic_type, data: value }
    }
}

/// The category of a value.
pub fn value2type(value: &MsgPackValue) -> (r: BasicTypes)
    ensures
        r == kind_of(value@),
{
    match value {
        MsgPackValue::Null => BasicTypes::Null,
        MsgPackValue::Bool(_) => BasicTypes::Bool,
        MsgPackValue::FixPos(_) | MsgPackValue::FixNeg(_) | MsgPackValue::U8(_)
        | MsgPackValue::U16(_) | MsgPackValue::U32(_) | MsgPackValue::U64(_)
        | MsgPackValue::I8(_) | MsgPackValue::I16(_) | MsgPackValue::I32(_)
        | MsgPackValue::I64(_) | MsgPackValue::F32(_) | MsgPackValue::F64(
            _,
        ) => BasicTypes::Number,
        MsgPackValue::FixStr(_) | MsgPackValue::Str8(_) | MsgPackValue::Str16(_)
        | MsgPackValue::Str32(_) => BasicTypes::String,
        MsgPackValue::Bin8(_) | MsgPackValue::Bin16(_) | MsgPackValue::Bin32(
            _,
        ) => BasicTypes::Bin,
        MsgPackValue::FixArray(_) | MsgPackValue::Array16(_) | MsgPackValue::Array32(
            _,
        ) => BasicTypes::Array,
        MsgPackValue::FixMap(_) | MsgPackValue::Map16(_) | MsgPackValue::Map32(
            _,
        ) => BasicTypes::Mapping,
    }
}

} // verus!
