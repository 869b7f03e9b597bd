use vstd::prelude::*;
use vstd::utf8::*;
use crate::types::{entries_model, pairs_model, EntryModel, MsgPackEntry, MsgPackError, MsgPackValue, ValueModel};
use crate::wire::{decoded, family_of, parse_array, parse_at, parse_bin, parse_items, parse_length, parse_map, parse_number, parse_pair, parse_pairs, parse_payload, parse_raw, parse_str, pow256, be_value, Family};

verus! {

/// Relies on `String::from_utf8`: it succeeds exactly when the bytes are UTF-8, and the
/// string then holds the characters they encode.
#[verifier::external_body]
fn utf8_to_string(bytes: Vec<u8>) -> (r: Option<String>)
    ensures
        r is Some <==> valid_utf8(bytes@),
        r matches Some(s) ==> s@ == decode_utf8(bytes@),
{
    String::from_utf8(bytes).ok()
}

/// `r` is what the spec-level reader `s` gives, with values seen through their models.
pub open spec fn agrees(r: Result<(MsgPackValue, usize), MsgPackError>, s: Result<(ValueModel, int), MsgPackError>) -> bool {
    match s {
        Ok((v, end)) => r is Ok && r->Ok_0.0@ == v && r->Ok_0.1 as int == end,
        Err(k) => r is Err && r->Err_0 == k,
    }
}

/// The spec-level result of `r` with `done` put in front of what it read.
pub open spec fn prepend_items(done: Seq<EntryModel>, r: Result<(Seq<EntryModel>, int), MsgPackError>) -> Result<(Seq<EntryModel>, int), MsgPackError> {
    match r {
        Ok((rest, end)) => Ok((done + rest, end)),
        Err(k) => Err(k),
    }
}

/// The spec-level result of `r` with the pairs `done` put in front of what it read.
pub open spec fn prepend_pairs(
    done: Seq<(EntryModel, EntryModel)>,
    r: Result<(Seq<(EntryModel, EntryModel)>, int), MsgPackError>,
) -> Result<(Seq<(EntryModel, EntryModel)>, int), MsgPackError> {
    match r {
        Ok((rest, end)) => Ok((done + rest, end)),
        Err(k) => Err(k),
    }
}

proof fn lemma_pow256_grows(w: nat)
    ensures
        pow256(w) >= 1,
        pow256(w + 1) == 256 * pow256(w),
    decreases w,
{
    if w > 0 {
        lemma_pow256_grows((w - 1) as nat);
    }
}

proof fn lemma_pairs_step(
    b: Seq<u8>,
    cur: int,
    mid: int,
    next: int,
    c: nat,
    done: Seq<(EntryModel, EntryModel)>,
    km: EntryModel,
    vm: EntryModel,
)
    requires
        c > 0,
        parse_at(b, cur) == Ok::<(EntryModel, int), MsgPackError>((km, mid)),
        parse_at(b, mid) == Ok::<(EntryModel, int), MsgPackError>((vm, next)),
        cur < mid < next <= b.len(),
    ensures
        parse_pair(b, cur) == Ok::<((EntryModel, EntryModel), int), MsgPackError>(((km, vm), next)),
        prepend_pairs(done, parse_pairs(b, cur, c)) == prepend_pairs(
            done.push((km, vm)),
            parse_pairs(b, next, (c - 1) as nat),
        ),
{
    match parse_pairs(b, next, (c - 1) as nat) {
        Ok((s, end)) => {
            assert(done + (seq![(km, vm)] + s) =~= done.push((km, vm)) + s);
        },
        Err(_) => {},
    }
}

/// Decodes the first MessagePack value of a buffer; bytes after it are ignored.
pub fn unpack(data: &[u8]) -> (r: Result<MsgPackEntry, MsgPackError>)
    ensures
        match decoded(data@) {
            Ok(e) => r is Ok && r->Ok_0@ == e,
            Err(k) => r == Err::<MsgPackEntry, MsgPackError>(k),
        },
{
    match read_value(data, 0) {
        Ok((e, _)) => Ok(e),
        Err(k) => Err(k),
    }
}

/// The family that a marker byte opens.
pub fn classify(m: u8) -> (r: Family)
    ensures
        r == family_of(m),
{
    if m <= 0x7F {
        Family::FixPos
    } else if m <= 0x8F {
        Family::Dict(0)
    } else if m <= 0x9F {
        Family::Array(0)
    } else if m <= 0xBF {
        Family::Str(0)
    } else if m == 0xC0 {
        Family::Nil
    } else if m == 0xC1 {
        Family::Reserved
    } else if m == 0xC2 {
        Family::False
    } else if m == 0xC3 {
        Family::True
    } else if m == 0xC4 {
        Family::Bin(1)
    } else if m == 0xC5 {
        Family::Bin(2)
    } else if m == 0xC6 {
        Family::Bin(4)
    } else if m <= 0xC9 {
        Family::Ext
    } else if m == 0xCA {
        Family::Float(4)
    } else if m == 0xCB {
        Family::Float(8)
    } else if m == 0xCC {
        Family::UInt(1)
    } else if m == 0xCD {
        Family::UInt(2)
    } else if m == 0xCE {
        Family::UInt(4)
    } else if m == 0xCF {
        Family::UInt(8)
    } else if m == 0xD0 {
        Family::Int(1)
    } else if m == 0xD1 {
        Family::Int(2)
    } else if m == 0xD2 {
        Family::Int(4)
    } else if m == 0xD3 {
        Family::Int(8)
    } else if m <= 0xD8 {
        Family::Ext
    } else if m == 0xD9 {
        Family::Str(1)
    } else if m == 0xDA {
        Family::Str(2)
    } else if m == 0xDB {
        Family::Str(4)
    } else if m == 0xDC {
        Family::Array(2)
    } else if m == 0xDD {
        Family::Array(4)
    } else if m == 0xDE {
        Family::Dict(2)
    } else if m == 0xDF {
        Family::Dict(4)
    } else {
        Family::FixNeg
    }
}

/// Reads a big-endian number of `w` bytes at `p`.
fn read_number(data: &[u8], p: usize, w: u8) -> (r: Result<(u64, usize), MsgPackError>)
    requires
        w <= 8,
    ensures
        match parse_number(data@, p as int, w as nat) {
            Ok((n, q)) => r == Ok::<(u64, usize), MsgPackError>((n as u64, q as usize)) && n < pow256(
                w as nat,
            ) && q <= data.len(),
            Err(k) => r == Err::<(u64, usize), MsgPackError>(k),
        },
{
    if p > data.len() || w as usize > data.len() - p {
        return Err(MsgPackError::UnexpectedEof);
    }
    let mut v: u64 = 0;
    let mut i: usize = 0;
    proof {
        reveal_with_fuel(pow256, 9);
        assert(data@.subrange(p as int, p as int) =~= Seq::<u8>::empty());
    }
    while i < w as usize
        invariant
            i <= w <= 8,
            p + w <= data.len(),
            v as nat == be_value(data@.subrange(p as int, p + i)),
            v < pow256(i as nat),
        decreases w - i,
    {
        proof {
            lemma_pow256_grows(i as nat);
            reveal_with_fuel(pow256, 9);
            assert(pow256(i as nat) <= pow256(7));
            assert(data@.subrange(p as int, p + i + 1).drop_last() =~= data@.subrange(p as int, p + i));
            assert(v * 256 + 255 < 256 * pow256(i as nat)) by (nonlinear_arith)
                requires v < pow256(i as nat);
        }
        v = v * 256 + data[p + i] as u64;
        i = i + 1;
    }
    Ok((v, p + w as usize))
}

/// Reads a length: from the marker's low bits when `w` is 0, else from a `w`-byte field.
fn read_length(data: &[u8], m: u8, p: usize, w: u8, fixed: u8) -> (r: Result<(usize, usize), MsgPackError>)
    requires
        w == 0 || w == 1 || w == 2 || w == 4,
        fixed > 0,
        p <= data.len(),
    ensures
        match parse_length(data@, m, p as int, w, fixed as nat) {
            Ok((n, q)) => r == Ok::<(usize, usize), MsgPackError>((n as usize, q as usize)) && n < 0x1_0000_0000
                && p <= q <= data.len(),
            Err(k) => r == Err::<(usize, usize), MsgPackError>(k),
        },
{
    if w == 0 {
        Ok(((m % fixed) as usize, p))
    } else {
        proof {
            reveal_with_fuel(pow256, 5);
        }
        match read_number(data, p, w) {
            Ok((n, q)) => Ok((n as usize, q)),
            Err(k) => Err(k),
        }
    }
}

/// Copies the `n` bytes at `p`.
fn read_bytes(data: &[u8], p: usize, n: usize) -> (r: Result<(Vec<u8>, usize), MsgPackError>)
    ensures
        match parse_raw(data@, p as int, n as nat) {
            Ok((s, q)) => r is Ok && r->Ok_0.0@ == s && r->Ok_0.1 as int == q,
            Err(k) => r is Err && r->Err_0 == k,
        },
{
    if p > data.len() || n > data.len() - p {
        return Err(MsgPackError::UnexpectedEof);
    }
    let mut out: Vec<u8> = Vec::new();
    let mut i: usize = 0;
    while i < n
        invariant
            i <= n,
            p + n <= data.len(),
            out@ == data@.subrange(p as int, p + i),
        decreases n - i,
    {
        out.push(data[p + i]);
        i = i + 1;
        proof {
            assert(out@ =~= data@.subrange(p as int, p + i));
        }
    }
    Ok((out, p + n))
}

/// Reads a string of width `w` (0 for the fixed form) whose marker `m` stands before `p`.
fn read_str(data: &[u8], m: u8, p: usize, w: u8) -> (r: Result<(MsgPackValue, usize), MsgPackError>)
    requires
        w == 0 || w == 1 || w == 2 || w == 4,
        p <= data.len(),
    ensures
        agrees(r, parse_str(data@, m, p as int, w)),
        r is Ok ==> p <= r->Ok_0.1 <= data.len(),
{
    let (n, q) = match read_length(data, m, p, w, 32) {
        Ok(x) => x,
        Err(k) => return Err(k),
    };
    let (bytes, end) = match read_bytes(data, q, n) {
        Ok(x) => x,
        Err(k) => return Err(k),
    };
    match utf8_to_string(bytes) {
        Some(s) => {
            let v = if w == 0 {
                MsgPackValue::FixStr(s)
            } else if w == 1 {
                MsgPackValue::Str8(s)
            } else if w == 2 {
                MsgPackValue::Str16(s)
            } else {
                MsgPackValue::Str32(s)
            };
            Ok((v, end))
        },
        None => Err(MsgPackError::InvalidUtf8),
    }
}

/// Reads a binary of width `w` whose marker `m` stands before `p`.
fn read_bin(data: &[u8], m: u8, p: usize, w: u8) -> (r: Result<(MsgPackValue, usize), MsgPackError>)
    requires
        w == 1 || w == 2 || w == 4,
        p <= data.len(),
    ensures
        agrees(r, parse_bin(data@, m, p as int, w)),
        r is Ok ==> p <= r->Ok_0.1 <= data.len(),
{
    let (n, q) = match read_length(data, m, p, w, 1) {
        Ok(x) => x,
        Err(k) => return Err(k),
    };
    let (bytes, end) = match read_bytes(data, q, n) {
        Ok(x) => x,
        Err(k) => return Err(k),
    };
    let v = if w == 1 {
        MsgPackValue::Bin8(bytes)
    } else if w == 2 {
        MsgPackValue::Bin16(bytes)
    } else {
        MsgPackValue::Bin32(bytes)
    };
    Ok((v, end))
}

/// Reads one complete value, children included, whose marker byte is at `pos`.
pub fn read_value(data: &[u8], pos: usize) -> (r: Result<(MsgPackEntry, usize), MsgPackError>)
    ensures
        match parse_at(data@, pos as int) {
            Ok((e, end)) => r is Ok && r->Ok_0.0@ == e && r->Ok_0.1 as int == end,
            Err(k) => r is Err && r->Err_0 == k,
        },
        r is Ok ==> pos < r->Ok_0.1 <= data.len(),
    decreases data.len() - pos, 0int,
{
    if pos >= data.len() {
        return Err(MsgPackError::UnexpectedEof);
    }
    let m = data[pos];
    match read_payload(data, m, pos + 1) {
        Ok((v, end)) => Ok((MsgPackEntry::new(m, v), end)),
        Err(k) => Err(k),
    }
}

/// Reads what follows the marker byte `m`, which stands just before `p`.
fn read_payload(data: &[u8], m: u8, p: usize) -> (r: Result<(MsgPackValue, usize), MsgPackError>)
    requires
        p <= data.len(),
    ensures
        agrees(r, parse_payload(data@, m, p as int)),
        r is Ok ==> p <= r->Ok_0.1 <= data.len(),
    decreases data.len() - p, 4int,
{
    proof {
        reveal_with_fuel(pow256, 9);
    }
    match classify(m) {
        Family::Nil => Ok((MsgPackValue::Null, p)),
        Family::False => Ok((MsgPackValue::Bool(false), p)),
        Family::True => Ok((MsgPackValue::Bool(true), p)),
        Family::FixPos => Ok((MsgPackValue::FixPos(m), p)),
        Family::FixNeg => Ok((MsgPackValue::FixNeg((m as i16 - 256) as i8), p)),
        Family::UInt(w) => {
            let (n, q) = match read_number(data, p, w) {
                Ok(x) => x,
                Err(k) => return Err(k),
            };
            let v = if w == 1 {
                MsgPackValue::U8(n as u8)
            } else if w == 2 {
                MsgPackValue::U16(n as u16)
            } else if w == 4 {
                MsgPackValue::U32(n as u32)
            } else {
                MsgPackValue::U64(n)
            };
            Ok((v, q))
        },
        Family::Int(w) => {
            let (n, q) = match read_number(data, p, w) {
                Ok(x) => x,
                Err(k) => return Err(k),
            };
            let v = if w == 1 {
                MsgPackValue::I8(if n >= 0x80 { (n as i16 - 0x100) as i8 } else { n as i8 })
            } else if w == 2 {
                MsgPackValue::I16(if n >= 0x8000 { (n as i32 - 0x1_0000) as i16 } else { n as i16 })
            } else if w == 4 {
                MsgPackValue::I32(
                    if n >= 0x8000_0000 { (n as i64 - 0x1_0000_0000) as i32 } else { n as i32 },
                )
            } else {
                MsgPackValue::I64(
                    if n >= 0x8000_0000_0000_0000 {
                        (n - 0x8000_0000_0000_0000) as i64 - 0x7FFF_FFFF_FFFF_FFFF - 1
                    } else {
                        n as i64
                    },
                )
            };
            Ok((v, q))
        },
        Family::Float(w) => {
            let (n, q) = match read_number(data, p, w) {
                Ok(x) => x,
                Err(k) => return Err(k),
            };
            let v = if w == 4 {
                MsgPackValue::F32(n as u32)
            } else {
                MsgPackValue::F64(n)
            };
            Ok((v, q))
        },
        Family::Str(w) => read_str(data, m, p, w),
        Family::Bin(w) => read_bin(data, m, p, w),
        Family::Array(w) => read_array(data, m, p, w),
        Family::Dict(w) => read_map(data, m, p, w),
        Family::Ext => Err(MsgPackError::Unsupported(m)),
        Family::Reserved => Err(MsgPackError::Reserved(m)),
    }
}

/// Reads an array of width `w` (0 for the fixed form) whose marker `m` stands before `p`.
fn read_array(data: &[u8], m: u8, p: usize, w: u8) -> (r: Result<(MsgPackValue, usize), MsgPackError>)
    requires
        w == 0 || w == 2 || w == 4,
        p <= data.len(),
    ensures
        agrees(r, parse_array(data@, m, p as int, w)),
        r is Ok ==> p <= r->Ok_0.1 <= data.len(),
    decreases data.len() - p, 2int,
{
    let (n, q) = match read_length(data, m, p, w, 16) {
        Ok(x) => x,
        Err(k) => return Err(k),
    };
    let ghost b = data@;
    proof {
        assert(parse_length(b, m, p as int, w, 16) == Ok::<(nat, int), MsgPackError>((n as nat, q as int)));
    }
    let mut items: Vec<MsgPackEntry> = Vec::new();
    let mut cur: usize = q;
    let mut i: usize = 0;
    while i < n
        invariant
            p <= q <= cur <= data.len(),
            i <= n,
            b == data@,
            parse_length(b, m, p as int, w, 16) == Ok::<(nat, int), MsgPackError>((n as nat, q as int)),
            parse_items(b, q as int, n as nat) == prepend_items(
                entries_model(items@),
                parse_items(b, cur as int, (n - i) as nat),
            ),
        decreases n - i,
    {
        match read_value(data, cur) {
            Ok((e, next)) => {
                let ghost before = items@;
                items.push(e);
                proof {
                    assert(items@.drop_last() =~= before);
                    let rest = parse_items(b, next as int, (n - i - 1) as nat);
                    match rest {
                        Ok((s, end)) => {
                            assert(entries_model(before) + (seq![e@] + s) =~= entries_model(
                                items@,
                            ) + s);
                        },
                        Err(_) => {},
                    }
                }
                cur = next;
                i = i + 1;
            },
            Err(k) => {
                proof {
                    assert(parse_items(b, cur as int, (n - i) as nat) == Err::<
                        (Seq<EntryModel>, int),
                        MsgPackError,
                    >(k));
                    assert(parse_items(b, q as int, n as nat) == Err::<(Seq<EntryModel>, int), MsgPackError>(k));
                }
                return Err(k);
            },
        }
    }
    proof {
        assert(entries_model(items@) + Seq::<EntryModel>::empty() =~= entries_model(items@));
    }
    let v = if w == 0 {
        MsgPackValue::FixArray(items)
    } else if w == 2 {
        MsgPackValue::Array16(items)
    } else {
        MsgPackValue::Array32(items)
    };
    Ok((v, cur))
}

/// Reads a map of width `w` (0 for the fixed form) whose marker `m` stands before `p`.
fn read_map(data: &[u8], m: u8, p: usize, w: u8) -> (r: Result<(MsgPackValue, usize), MsgPackError>)
    requires
        w == 0 || w == 2 || w == 4,
        p <= data.len(),
    ensures
        agrees(r, parse_map(data@, m, p as int, w)),
        r is Ok ==> p <= r->Ok_0.1 <= data.len(),
    decreases data.len() - p, 3int,
{
    let (n, q) = match read_length(data, m, p, w, 16) {
        Ok(x) => x,
        Err(k) => return Err(k),
    };
    let ghost b = data@;
    proof {
        assert(parse_length(b, m, p as int, w, 16) == Ok::<(nat, int), MsgPackError>((n as nat, q as int)));
    }
    let mut pairs: Vec<(MsgPackEntry, MsgPackEntry)> = Vec::new();
    let mut cur: usize = q;
    let mut i: usize = 0;
    while i < n
        invariant
            p <= q <= cur <= data.len(),
            i <= n,
            b == data@,
            parse_length(b, m, p as int, w, 16) == Ok::<(nat, int), MsgPackError>((n as nat, q as int)),
            parse_pairs(b, q as int, n as nat) == prepend_pairs(
                pairs_model(pairs@),
                parse_pairs(b, cur as int, (n - i) as nat),
            ),
        decreases n - i,
    {
        let (k, mid) = match read_value(data, cur) {
            Ok(x) => x,
            Err(x) => {
                proof {
                    assert(parse_pair(b, cur as int) == Err::<((EntryModel, EntryModel), int), MsgPackError>(x));
                    assert(parse_pairs(b, cur as int, (n - i) as nat) == Err::<
                        (Seq<(EntryModel, EntryModel)>, int),
                        MsgPackError,
                    >(x));
                    assert(parse_pairs(b, q as int, n as nat) == Err::<(Seq<(EntryModel, EntryModel)>, int), MsgPackError>(x));
                }
                return Err(x);
            },
        };
        let (v, next) = match read_value(data, mid) {
            Ok(x) => x,
            Err(x) => {
                proof {
                    assert(parse_pair(b, cur as int) == Err::<((EntryModel, EntryModel), int), MsgPackError>(x));
                    assert(parse_pairs(b, cur as int, (n - i) as nat) == Err::<
                        (Seq<(EntryModel, EntryModel)>, int),
                        MsgPackError,
                    >(x));
                    assert(parse_pairs(b, q as int, n as nat) == Err::<(Seq<(EntryModel, EntryModel)>, int), MsgPackError>(x));
                }
                return Err(x);
            },
        };
        let ghost before = pairs@;
        proof {
            lemma_pairs_step(b, cur as int, mid as int, next as int, (n - i) as nat, pairs_model(before), k@, v@);
        }
        pairs.push((k, v));
        proof {
            assert(pairs@.drop_last() =~= before);
        }
        cur = next;
        i = i + 1;
    }
    proof {
        assert(pairs_model(pairs@) + Seq::<(EntryModel, EntryModel)>::empty() =~= pairs_model(
            pairs@,
        ));
    }
    let v = if w == 0 {
        MsgPackValue::FixMap(pairs)
    } else if w == 2 {
        MsgPackValue::Map16(pairs)
    } else {
        MsgPackValue::Map32(pairs)
    };
    Ok((v, cur))
}

} // verus!
