use vstd::prelude::*;
use vstd::utf8::*;
use crate::types::{kind_of, EntryModel, MsgPackError, ValueModel};

verus! {

/// 256 to the power `w`: one more than the largest number `w` bytes hold.
pub open spec fn pow256(w: nat) -> nat
    decreases w,
{
    if w == 0 {
        1
    } else {
        256 * pow256((w - 1) as nat)
    }
}

/// The `w` low-order bytes of `n`, most significant first.
pub open spec fn be_bytes(n: nat, w: nat) -> Seq<u8>
    decreases w,
{
    if w == 0 {
        Seq::empty()
    } else {
        be_bytes(n / 256, (w - 1) as nat).push((n % 256) as u8)
    }
}

/// The unsigned integer that a big-endian byte string denotes.
pub open spec fn be_value(s: Seq<u8>) -> nat
    decreases s.len(),
{
    if s.len() == 0 {
        0
    } else {
        (be_value(s.drop_last()) * 256 + s.last()) as nat
    }
}

/// Two's complement of `n` in `w` bytes, as an unsigned number.
pub open spec fn twos(n: int, w: nat) -> nat {
    if n < 0 {
        (n + pow256(w)) as nat
    } else {
        n as nat
    }
}

/// The signed number that the unsigned `w`-byte pattern `v` stands for.
pub open spec fn from_twos(v: nat, w: nat) -> int {
    if v >= pow256(w) / 2 {
        v - pow256(w)
    } else {
        v as int
    }
}

/// A length field of `w` bytes: the length, wrapped to the field's width.
pub open spec fn len_field(n: nat, w: nat) -> Seq<u8> {
    be_bytes(n % pow256(w), w)
}

/// The byte a negative fixed integer is written as: its low five bits under the 0xE0 prefix.
pub open spec fn fixneg_byte(n: i8) -> u8 {
    (0xE0 + (if n < 0 {
        n + 256
    } else {
        n as int
    }) % 32) as u8
}

/// The bytes that encode a value, in the exact wire format its variant names.
pub open spec fn value_bytes(v: ValueModel) -> Seq<u8>
    decreases v,
{
    match v {
        ValueModel::Null => seq![0xC0u8],
        ValueModel::Bool(b) => seq![if b { 0xC3u8 } else { 0xC2u8 }],
        ValueModel::FixPos(n) => seq![(n % 128) as u8],
        ValueModel::FixNeg(n) => seq![fixneg_byte(n)],
        ValueModel::U8(n) => seq![0xCCu8] + be_bytes(n as nat, 1),
        ValueModel::U16(n) => seq![0xCDu8] + be_bytes(n as nat, 2),
        ValueModel::U32(n) => seq![0xCEu8] + be_bytes(n as nat, 4),
        ValueModel::U64(n) => seq![0xCFu8] + be_bytes(n as nat, 8),
        ValueModel::I8(n) => seq![0xD0u8] + be_bytes(twos(n as int, 1), 1),
        ValueModel::I16(n) => seq![0xD1u8] + be_bytes(twos(n as int, 2), 2),
        ValueModel::I32(n) => seq![0xD2u8] + be_bytes(twos(n as int, 4), 4),
        ValueModel::I64(n) => seq![0xD3u8] + be_bytes(twos(n as int, 8), 8),
        ValueModel::F32(n) => seq![0xCAu8] + be_bytes(n as nat, 4),
        ValueModel::F64(n) => seq![0xCBu8] + be_bytes(n as nat, 8),
        ValueModel::FixStr(s) => seq![(0xA0 + encode_utf8(s).len() % 32) as u8] + encode_utf8(s),
        ValueModel::Str8(s) => seq![0xD9u8] + len_field(encode_utf8(s).len(), 1) + encode_utf8(s),
        ValueModel::Str16(s) => seq![0xDAu8] + len_field(encode_utf8(s).len(), 2) + encode_utf8(s),
        ValueModel::Str32(s) => seq![0xDBu8] + len_field(encode_utf8(s).len(), 4) + encode_utf8(s),
        ValueModel::Bin8(b) => seq![0xC4u8] + len_field(b.len(), 1) + b,
        ValueModel::Bin16(b) => seq![0xC5u8] + len_field(b.len(), 2) + b,
        ValueModel::Bin32(b) => seq![0xC6u8] + len_field(b.len(), 4) + b,
        ValueModel::FixArray(a) => seq![(0x90 + a.len() % 16) as u8] + entries_bytes(a),
        ValueModel::Array16(a) => seq![0xDCu8] + len_field(a.len(), 2) + entries_bytes(a),
        ValueModel::Array32(a) => seq![0xDDu8] + len_field(a.len(), 4) + entries_bytes(a),
        ValueModel::FixMap(m) => seq![(0x80 + m.len() % 16) as u8] + pairs_bytes(m),
        ValueModel::Map16(m) => seq![0xDEu8] + len_field(m.len(), 2) + pairs_bytes(m),
        ValueModel::Map32(m) => seq![0xDFu8] + len_field(m.len(), 4) + pairs_bytes(m),
    }
}

/// The entries' encodings, one after another, in order.
pub open spec fn entries_bytes(s: Seq<EntryModel>) -> Seq<u8>
    decreases s,
{
    if s.len() == 0 {
        Seq::empty()
    } else {
        value_bytes(s[0].data) + entries_bytes(s.drop_first())
    }
}

/// Each pair's key then value, pair after pair, in order.
pub open spec fn pairs_bytes(s: Seq<(EntryModel, EntryModel)>) -> Seq<u8>
    decreases s,
{
    if s.len() == 0 {
        Seq::empty()
    } else {
        value_bytes(s[0].0.data) + value_bytes(s[0].1.data) + pairs_bytes(s.drop_first())
    }
}

/// The format family a marker byte opens, with the width in bytes of what follows it
/// (the number, or the length field; 0 where the marker itself holds the length).
#[derive(Clone, Copy, Debug, PartialEq, Eq, Structural)]
pub enum Family {
    Nil,
    False,
    True,
    FixPos,
    FixNeg,
    UInt(u8),
    Int(u8),
    Float(u8),
    Str(u8),
    Bin(u8),
    Array(u8),
    Dict(u8),
    Ext,
    Reserved,
}

/// The MessagePack marker table.
pub open spec fn family_of(m: u8) -> Family {
    if m <= 0x7F {
        Family::FixPos
    } else if m <= 0x8F {
        Family::Dict(0)
    } else if m <= 0x9F {
        Family::Array(0)
    } else if m <= 0xBF {
        Family::Str(0)
    } else if m == 0xC0 {
        Family::Nil
    } else if m == 0xC1 {
        Family::Reserved
    } else if m == 0xC2 {
        Family::False
    } else if m == 0xC3 {
        Family::True
    } else if m == 0xC4 {
        Family::Bin(1)
    } else if m == 0xC5 {
        Family::Bin(2)
    } else if m == 0xC6 {
        Family::Bin(4)
    } else if m <= 0xC9 {
        Family::Ext
    } else if m == 0xCA {
        Family::Float(4)
    } else if m == 0xCB {
        Family::Float(8)
    } else if m == 0xCC {
        Family::UInt(1)
    } else if m == 0xCD {
        Family::UInt(2)
    } else if m == 0xCE {
        Family::UInt(4)
    } else if m == 0xCF {
        Family::UInt(8)
    } else if m == 0xD0 {
        Family::Int(1)
    } else if m == 0xD1 {
        Family::Int(2)
    } else if m == 0xD2 {
        Family::Int(4)
    } else if m == 0xD3 {
        Family::Int(8)
    } else if m <= 0xD8 {
        Family::Ext
    } else if m == 0xD9 {
        Family::Str(1)
    } else if m == 0xDA {
        Family::Str(2)
    } else if m == 0xDB {
        Family::Str(4)
    } else if m == 0xDC {
        Family::Array(2)
    } else if m == 0xDD {
        Family::Array(4)
    } else if m == 0xDE {
        Family::Dict(2)
    } else if m == 0xDF {
        Family::Dict(4)
    } else {
        Family::FixNeg
    }
}

/// The unsigned value of width `w` bytes that holds `n`.
pub open spec fn uint_value(w: u8, n: nat) -> ValueModel {
    if w == 1 {
        ValueModel::U8(n as u8)
    } else if w == 2 {
        ValueModel::U16(n as u16)
    } else if w == 4 {
        ValueModel::U32(n as u32)
    } else {
        ValueModel::U64(n as u64)
    }
}

/// The signed value of width `w` bytes that holds `n`.
pub open spec fn int_value(w: u8, n: int) -> ValueModel {
    if w == 1 {
        ValueModel::I8(n as i8)
    } else if w == 2 {
        ValueModel::I16(n as i16)
    } else if w == 4 {
        ValueModel::I32(n as i32)
    } else {
        ValueModel::I64(n as i64)
    }
}

/// The float of width `w` bytes whose bit pattern is `n`.
pub open spec fn float_value(w: u8, n: nat) -> ValueModel {
    if w == 4 {
        ValueModel::F32(n as u32)
    } else {
        ValueModel::F64(n as u64)
    }
}

/// The string value of width `w` (0 for the fixed form).
pub open spec fn str_value(w: u8, s: Seq<char>) -> ValueModel {
    if w == 0 {
        ValueModel::FixStr(s)
    } else if w == 1 {
        ValueModel::Str8(s)
    } else if w == 2 {
        ValueModel::Str16(s)
    } else {
        ValueModel::Str32(s)
    }
}

/// The binary value of width `w`.
pub open spec fn bin_value(w: u8, b: Seq<u8>) -> ValueModel {
    if w == 1 {
        ValueModel::Bin8(b)
    } else if w == 2 {
        ValueModel::Bin16(b)
    } else {
        ValueModel::Bin32(b)
    }
}

/// The array value of width `w` (0 for the fixed form).
pub open spec fn array_value(w: u8, a: Seq<EntryModel>) -> ValueModel {
    if w == 0 {
        ValueModel::FixArray(a)
    } else if w == 2 {
        ValueModel::Array16(a)
    } else {
        ValueModel::Array32(a)
    }
}

/// The map value of width `w` (0 for the fixed form).
pub open spec fn map_value(w: u8, m: Seq<(EntryModel, EntryModel)>) -> ValueModel {
    if w == 0 {
        ValueModel::FixMap(m)
    } else if w == 2 {
        ValueModel::Map16(m)
    } else {
        ValueModel::Map32(m)
    }
}

/// The big-endian number of `w` bytes at `p`, and the position after it.
pub open spec fn parse_number(b: Seq<u8>, p: int, w: nat) -> Result<(nat, int), MsgPackError> {
    if p < 0 || p + w > b.len() {
        Err(MsgPackError::UnexpectedEof)
    } else {
        Ok((be_value(b.subrange(p, p + w)), p + w))
    }
}

/// The length of a string, binary, array or map: from the marker's low bits when
/// `w` is 0, else from a `w`-byte field at `p`.
pub open spec fn parse_length(b: Seq<u8>, m: u8, p: int, w: u8, fixed: nat) -> Result<
    (nat, int),
    MsgPackError,
> {
    if w == 0 {
        Ok(((m as nat) % fixed, p))
    } else {
        parse_number(b, p, w as nat)
    }
}

/// The `n` raw bytes at `p`.
pub open spec fn parse_raw(b: Seq<u8>, p: int, n: nat) -> Result<(Seq<u8>, int), MsgPackError> {
    if p < 0 || p + n > b.len() {
        Err(MsgPackError::UnexpectedEof)
    } else {
        Ok((b.subrange(p, p + n), p + n))
    }
}

/// The text held by the `n` bytes at `p`, which must be UTF-8.
pub open spec fn parse_text(b: Seq<u8>, p: int, n: nat) -> Result<(Seq<char>, int), MsgPackError> {
    if p < 0 || p + n > b.len() {
        Err(MsgPackError::UnexpectedEof)
    } else if !valid_utf8(b.subrange(p, p + n)) {
        Err(MsgPackError::InvalidUtf8)
    } else {
        Ok((decode_utf8(b.subrange(p, p + n)), p + n))
    }
}

/// The complete value whose marker byte is at `pos`, and the position after it.
pub open spec fn parse_at(b: Seq<u8>, pos: int) -> Result<(EntryModel, int), MsgPackError>
    decreases b.len() - pos, 0int,
{
    if pos < 0 || pos >= b.len() {
        Err(MsgPackError::UnexpectedEof)
    } else {
        let m = b[pos];
        match parse_payload(b, m, pos + 1) {
            Ok((v, end)) => Ok((EntryModel { raw_marker: m, basic_type: kind_of(v), data: v }, end)),
            Err(e) => Err(e),
        }
    }
}

/// What follows the marker byte `m`, which stands just before `p`.
pub open spec fn parse_payload(b: Seq<u8>, m: u8, p: int) -> Result<(ValueModel, int), MsgPackError>
    decreases b.len() - p, 4int,
{
    if p < 0 || p > b.len() {
        Err(MsgPackError::UnexpectedEof)
    } else {
        match family_of(m) {
            Family::Nil => Ok((ValueModel::Null, p)),
            Family::False => Ok((ValueModel::Bool(false), p)),
            Family::True => Ok((ValueModel::Bool(true), p)),
            Family::FixPos => Ok((ValueModel::FixPos(m), p)),
            Family::FixNeg => Ok((ValueModel::FixNeg((m as int - 256) as i8), p)),
            Family::UInt(w) => match parse_number(b, p, w as nat) {
                Ok((n, q)) => Ok((uint_value(w, n), q)),
                Err(e) => Err(e),
            },
            Family::Int(w) => match parse_number(b, p, w as nat) {
                Ok((n, q)) => Ok((int_value(w, from_twos(n, w as nat)), q)),
                Err(e) => Err(e),
            },
            Family::Float(w) => match parse_number(b, p, w as nat) {
                Ok((n, q)) => Ok((float_value(w, n), q)),
                Err(e) => Err(e),
            },
            Family::Str(w) => parse_str(b, m, p, w),
            Family::Bin(w) => parse_bin(b, m, p, w),
            Family::Array(w) => parse_array(b, m, p, w),
            Family::Dict(w) => parse_map(b, m, p, w),
            Family::Ext => Err(MsgPackError::Unsupported(m)),
            Family::Reserved => Err(MsgPackError::Reserved(m)),
        }
    }
}

/// A string of width `w` whose marker `m` stands just before `p`.
pub open spec fn parse_str(b: Seq<u8>, m: u8, p: int, w: u8) -> Result<(ValueModel, int), MsgPackError> {
    match parse_length(b, m, p, w, 32) {
        Ok((n, q)) => match parse_text(b, q, n) {
            Ok((s, end)) => Ok((str_value(w, s), end)),
            Err(e) => Err(e),
        },
        Err(e) => Err(e),
    }
}

/// A binary of width `w` whose marker `m` stands just before `p`.
pub open spec fn parse_bin(b: Seq<u8>, m: u8, p: int, w: u8) -> Result<(ValueModel, int), MsgPackError> {
    match parse_length(b, m, p, w, 1) {
        Ok((n, q)) => match parse_raw(b, q, n) {
            Ok((s, end)) => Ok((bin_value(w, s), end)),
            Err(e) => Err(e),
        },
        Err(e) => Err(e),
    }
}

/// An array of width `w` whose marker `m` stands just before `p`.
pub open spec fn parse_array(b: Seq<u8>, m: u8, p: int, w: u8) -> Result<(ValueModel, int), MsgPackError>
    decreases b.len() - p, 2int,
{
    if p < 0 || p > b.len() {
        Err(MsgPackError::UnexpectedEof)
    } else {
        match parse_length(b, m, p, w, 16) {
            Ok((n, q)) => if q > b.len() {
                Err(MsgPackError::UnexpectedEof)
            } else {
                match parse_items(b, q, n) {
                    Ok((a, end)) => Ok((array_value(w, a), end)),
                    Err(e) => Err(e),
                }
            },
            Err(e) => Err(e),
        }
    }
}

/// A map of width `w` whose marker `m` stands just before `p`.
pub open spec fn parse_map(b: Seq<u8>, m: u8, p: int, w: u8) -> Result<(ValueModel, int), MsgPackError>
    decreases b.len() - p, 3int,
{
    if p < 0 || p > b.len() {
        Err(MsgPackError::UnexpectedEof)
    } else {
        match parse_length(b, m, p, w, 16) {
            Ok((n, q)) => if q > b.len() {
                Err(MsgPackError::UnexpectedEof)
            } else {
                match parse_pairs(b, q, n) {
                    Ok((a, end)) => Ok((map_value(w, a), end)),
                    Err(e) => Err(e),
                }
            },
            Err(e) => Err(e),
        }
    }
}

/// `n` complete values, one after another from `p`.
pub open spec fn parse_items(b: Seq<u8>, p: int, n: nat) -> Result<(Seq<EntryModel>, int), MsgPackError>
    decreases b.len() - p, 1int,
{
    if n == 0 {
        Ok((Seq::empty(), p))
    } else {
        match parse_at(b, p) {
            Ok((e, q)) => if q <= p || q > b.len() {
                Err(MsgPackError::UnexpectedEof)
            } else {
                match parse_items(b, q, (n - 1) as nat) {
                    Ok((rest, end)) => Ok((seq![e] + rest, end)),
                    Err(x) => Err(x),
                }
            },
            Err(x) => Err(x),
        }
    }
}

/// One key/value pair from `p`: the key, then the value.
pub open spec fn parse_pair(b: Seq<u8>, p: int) -> Result<((EntryModel, EntryModel), int), MsgPackError>
    decreases b.len() - p, 1int,
{
    match parse_at(b, p) {
        Ok((k, q)) => if q <= p || q > b.len() {
            Err(MsgPackError::UnexpectedEof)
        } else {
            match parse_at(b, q) {
                Ok((v, r)) => Ok(((k, v), r)),
                Err(x) => Err(x),
            }
        },
        Err(x) => Err(x),
    }
}

/// `n` key/value pairs, one after another from `p`.
pub open spec fn parse_pairs(b: Seq<u8>, p: int, n: nat) -> Result<
    (Seq<(EntryModel, EntryModel)>, int),
    MsgPackError,
>
    decreases b.len() - p, 2int,
{
    if n == 0 {
        Ok((Seq::empty(), p))
    } else {
        match parse_pair(b, p) {
            Ok((kv, r)) => if r <= p || r > b.len() {
                Err(MsgPackError::UnexpectedEof)
            } else {
                match parse_pairs(b, r, (n - 1) as nat) {
                    Ok((rest, end)) => Ok((seq![kv] + rest, end)),
                    Err(x) => Err(x),
                }
            },
            Err(x) => Err(x),
        }
    }
}

/// What decoding a whole buffer yields: the value at its start.
pub open spec fn decoded(b: Seq<u8>) -> Result<EntryModel, MsgPackError> {
    match parse_at(b, 0) {
        Ok((e, _)) => Ok(e),
        Err(x) => Err(x),
    }
}

} // verus!
