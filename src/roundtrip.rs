use vstd::prelude::*;
use vstd::arithmetic::div_mod::lemma_small_mod;
use vstd::utf8::{decode_utf8_encode_utf8, encode_utf8, encode_utf8_decode_utf8, encode_utf8_valid_utf8};
use crate::types::{kind_of, BasicTypes, EntryModel, MsgPackError, ValueModel};
use crate::encode::encoded;
use crate::wire::{
    be_bytes, be_value, entries_bytes, family_of, fixneg_byte, from_twos, len_field, pairs_bytes,
    parse_at, parse_items, parse_length, parse_number,
    parse_pair, parse_pairs, parse_payload, parse_raw, parse_text, pow256, twos, value_bytes,
    array_value, map_value, decoded, Family,
};

verus! {

/// A big-endian byte string denotes a number below 256 to the power of its length.
pub proof fn lemma_be_value_bound(s: Seq<u8>)
    ensures
        be_value(s) < pow256(s.len()),
    decreases s.len(),
{
    if s.len() > 0 {
        lemma_be_value_bound(s.drop_last());
        let a = be_value(s.drop_last());
        let p = pow256(s.drop_last().len());
        assert(pow256(s.len()) == 256 * p);
        assert(a * 256 + s.last() < 256 * p) by (nonlinear_arith)
            requires
                a < p,
                s.last() < 256,
        ;
    }
}

/// Writing back the number a byte string denotes, in as many bytes, gives that string.
pub proof fn lemma_be_bytes_of_value(s: Seq<u8>)
    ensures
        be_bytes(be_value(s), s.len()) == s,
    decreases s.len(),
{
    if s.len() > 0 {
        let a = be_value(s.drop_last());
        let c = s.last() as nat;
        lemma_be_bytes_of_value(s.drop_last());
        assert((a * 256 + c) / 256 == a && (a * 256 + c) % 256 == c) by (nonlinear_arith)
            requires
                c < 256,
        ;
        assert(be_bytes(be_value(s), s.len()) =~= s);
    }
}

/// A number that fits in `w` bytes reads back from its `w`-byte form.
pub proof fn lemma_be_value_of_bytes(n: nat, w: nat)
    requires
        n < pow256(w),
    ensures
        be_bytes(n, w).len() == w,
        be_value(be_bytes(n, w)) == n,
    decreases w,
{
    if w > 0 {
        let p = pow256((w - 1) as nat);
        assert(n / 256 < p) by (nonlinear_arith)
            requires
                n < 256 * p,
        ;
        lemma_be_value_of_bytes(n / 256, (w - 1) as nat);
        assert(be_bytes(n, w).drop_last() =~= be_bytes(n / 256, (w - 1) as nat));
        assert(n == (n / 256) * 256 + n % 256) by (nonlinear_arith);
    }
}

proof fn lemma_small_powers()
    ensures
        pow256(0) == 1,
        pow256(1) == 0x100,
        pow256(2) == 0x1_0000,
        pow256(4) == 0x1_0000_0000,
        pow256(8) == 0x1_0000_0000_0000_0000,
{
    reveal_with_fuel(pow256, 9);
}

proof fn lemma_twos_from_twos(n: nat, w: nat)
    requires
        w == 1 || w == 2 || w == 4 || w == 8,
        n < pow256(w),
    ensures
        twos(from_twos(n, w), w) == n,
{
    lemma_small_powers();
}

/// What the reader returns at `pos` is the exact encoding of what it read.
proof fn lemma_parse_at_bytes(b: Seq<u8>, pos: int)
    requires
        parse_at(b, pos) is Ok,
    ensures
        pos < parse_at(b, pos)->Ok_0.1 <= b.len(),
        value_bytes(parse_at(b, pos)->Ok_0.0.data) == b.subrange(pos, parse_at(b, pos)->Ok_0.1),
        parse_at(b, pos)->Ok_0.0.raw_marker == b[pos],
        parse_at(b, pos)->Ok_0.0.basic_type == kind_of(parse_at(b, pos)->Ok_0.0.data),
    decreases b.len() - pos, 0int,
{
    let m = b[pos];
    lemma_parse_payload_bytes(b, m, pos + 1);
    let end = parse_at(b, pos)->Ok_0.1;
    assert(seq![m] + b.subrange(pos + 1, end) =~= b.subrange(pos, end));
}

proof fn lemma_parse_payload_bytes(b: Seq<u8>, m: u8, p: int)
    requires
        parse_payload(b, m, p) is Ok,
    ensures
        p <= parse_payload(b, m, p)->Ok_0.1 <= b.len(),
        value_bytes(parse_payload(b, m, p)->Ok_0.0) == seq![m] + b.subrange(
            p,
            parse_payload(b, m, p)->Ok_0.1,
        ),
    decreases b.len() - p, 4int,
{
    match family_of(m) {
        Family::UInt(w) | Family::Int(w) | Family::Float(w) => lemma_number_bytes(b, m, p),
        Family::Str(w) => lemma_str_bytes(b, m, p, w),
        Family::Bin(w) => lemma_bin_bytes(b, m, p, w),
        Family::Array(w) => lemma_array_bytes(b, m, p, w),
        Family::Dict(w) => lemma_map_bytes(b, m, p, w),
        _ => {
            let (v, end) = parse_payload(b, m, p)->Ok_0;
            assert(value_bytes(v) =~= seq![m] + b.subrange(p, end));
        },
    }
}

proof fn lemma_number_bytes(b: Seq<u8>, m: u8, p: int)
    requires
        parse_payload(b, m, p) is Ok,
        family_of(m) is UInt || family_of(m) is Int || family_of(m) is Float,
    ensures
        p <= parse_payload(b, m, p)->Ok_0.1 <= b.len(),
        value_bytes(parse_payload(b, m, p)->Ok_0.0) == seq![m] + b.subrange(
            p,
            parse_payload(b, m, p)->Ok_0.1,
        ),
{
    lemma_small_powers();
    let w: u8 = match family_of(m) {
        Family::UInt(w) => w,
        Family::Int(w) => w,
        Family::Float(w) => w,
        _ => 0,
    };
    let (v, end) = parse_payload(b, m, p)->Ok_0;
    let s = b.subrange(p, p + w);
    lemma_be_value_bound(s);
    lemma_be_bytes_of_value(s);
    if family_of(m) is Int {
        lemma_twos_from_twos(be_value(s), w as nat);
    }
    assert(value_bytes(v) =~= seq![m] + b.subrange(p, end));
}

proof fn lemma_str_bytes(b: Seq<u8>, m: u8, p: int, w: u8)
    requires
        parse_payload(b, m, p) is Ok,
        family_of(m) == Family::Str(w),
    ensures
        p <= parse_payload(b, m, p)->Ok_0.1 <= b.len(),
        value_bytes(parse_payload(b, m, p)->Ok_0.0) == seq![m] + b.subrange(
            p,
            parse_payload(b, m, p)->Ok_0.1,
        ),
{
    let (v, end) = parse_payload(b, m, p)->Ok_0;
    lemma_length_bytes(b, m, p, w, 32);
    let (n, q) = parse_length(b, m, p, w, 32)->Ok_0;
    let s = b.subrange(q, q + n);
    decode_utf8_encode_utf8(s);
    assert(value_bytes(v) =~= seq![m] + b.subrange(p, end));
}

proof fn lemma_bin_bytes(b: Seq<u8>, m: u8, p: int, w: u8)
    requires
        parse_payload(b, m, p) is Ok,
        family_of(m) == Family::Bin(w),
    ensures
        p <= parse_payload(b, m, p)->Ok_0.1 <= b.len(),
        value_bytes(parse_payload(b, m, p)->Ok_0.0) == seq![m] + b.subrange(
            p,
            parse_payload(b, m, p)->Ok_0.1,
        ),
{
    let (v, end) = parse_payload(b, m, p)->Ok_0;
    lemma_length_bytes(b, m, p, w, 1);
    assert(value_bytes(v) =~= seq![m] + b.subrange(p, end));
}

proof fn lemma_array_bytes(b: Seq<u8>, m: u8, p: int, w: u8)
    requires
        parse_payload(b, m, p) is Ok,
        family_of(m) == Family::Array(w),
    ensures
        p <= parse_payload(b, m, p)->Ok_0.1 <= b.len(),
        value_bytes(parse_payload(b, m, p)->Ok_0.0) == seq![m] + b.subrange(
            p,
            parse_payload(b, m, p)->Ok_0.1,
        ),
    decreases b.len() - p, 2int,
{
    let (v, end) = parse_payload(b, m, p)->Ok_0;
    lemma_length_bytes(b, m, p, w, 16);
    let (n, q) = parse_length(b, m, p, w, 16)->Ok_0;
    lemma_parse_items_bytes(b, q, n);
    let (a, e2) = parse_items(b, q, n)->Ok_0;
    assert(v == array_value(w, a) && e2 == end);
    lemma_array_header(b, m, p, w, n, q, a, end);
}

proof fn lemma_array_header(b: Seq<u8>, m: u8, p: int, w: u8, n: nat, q: int, a: Seq<EntryModel>, end: int)
    requires
        family_of(m) == Family::Array(w),
        w == 0 ==> q == p && n == (m as nat) % 16,
        w != 0 ==> q == p + w && len_field(n, w as nat) == b.subrange(p, q),
        0 <= p <= q <= end <= b.len(),
        a.len() == n,
        entries_bytes(a) == b.subrange(q, end),
    ensures
        value_bytes(array_value(w, a)) == seq![m] + b.subrange(p, end),
{
    if w == 0 {
        assert(m % 16 + 0x90 == m);
    }
    assert(b.subrange(p, q) + b.subrange(q, end) =~= b.subrange(p, end));
    assert(value_bytes(array_value(w, a)) =~= seq![m] + b.subrange(p, end));
}

proof fn lemma_map_bytes(b: Seq<u8>, m: u8, p: int, w: u8)
    requires
        parse_payload(b, m, p) is Ok,
        family_of(m) == Family::Dict(w),
    ensures
        p <= parse_payload(b, m, p)->Ok_0.1 <= b.len(),
        value_bytes(parse_payload(b, m, p)->Ok_0.0) == seq![m] + b.subrange(
            p,
            parse_payload(b, m, p)->Ok_0.1,
        ),
    decreases b.len() - p, 3int,
{
    let (v, end) = parse_payload(b, m, p)->Ok_0;
    lemma_length_bytes(b, m, p, w, 16);
    let (n, q) = parse_length(b, m, p, w, 16)->Ok_0;
    lemma_parse_pairs_bytes(b, q, n);
    let (a, e2) = parse_pairs(b, q, n)->Ok_0;
    assert(v == map_value(w, a) && e2 == end);
    lemma_map_header(b, m, p, w, n, q, a, end);
}

proof fn lemma_map_header(
    b: Seq<u8>,
    m: u8,
    p: int,
    w: u8,
    n: nat,
    q: int,
    a: Seq<(EntryModel, EntryModel)>,
    end: int,
)
    requires
        family_of(m) == Family::Dict(w),
        w == 0 ==> q == p && n == (m as nat) % 16,
        w != 0 ==> q == p + w && len_field(n, w as nat) == b.subrange(p, q),
        0 <= p <= q <= end <= b.len(),
        a.len() == n,
        pairs_bytes(a) == b.subrange(q, end),
    ensures
        value_bytes(map_value(w, a)) == seq![m] + b.subrange(p, end),
{
    if w == 0 {
        assert(m % 16 + 0x80 == m);
    }
    assert(b.subrange(p, q) + b.subrange(q, end) =~= b.subrange(p, end));
    assert(value_bytes(map_value(w, a)) =~= seq![m] + b.subrange(p, end));
}

/// A length read from the marker or from a field is re-encoded as the same bytes.
proof fn lemma_length_bytes(b: Seq<u8>, m: u8, p: int, w: u8, fixed: nat)
    requires
        parse_length(b, m, p, w, fixed) is Ok,
        w == 0 || w == 1 || w == 2 || w == 4,
        w == 0 ==> (fixed == 16 || fixed == 32),
    ensures
        ({
            let (n, q) = parse_length(b, m, p, w, fixed)->Ok_0;
            &&& w == 0 ==> q == p && n == (m as nat) % fixed
            &&& w != 0 ==> q == p + w && q <= b.len() && len_field(n, w as nat) == b.subrange(p, q)
            &&& w != 0 ==> n < pow256(w as nat)
        }),
{
    lemma_small_powers();
    if w != 0 {
        let s = b.subrange(p, p + w);
        lemma_be_value_bound(s);
        lemma_be_bytes_of_value(s);
        lemma_small_mod(be_value(s), pow256(w as nat));
    }
}

proof fn lemma_parse_items_bytes(b: Seq<u8>, p: int, n: nat)
    requires
        parse_items(b, p, n) is Ok,
        0 <= p <= b.len(),
    ensures
        p <= parse_items(b, p, n)->Ok_0.1 <= b.len(),
        parse_items(b, p, n)->Ok_0.0.len() == n,
        entries_bytes(parse_items(b, p, n)->Ok_0.0) == b.subrange(p, parse_items(b, p, n)->Ok_0.1),
    decreases b.len() - p, 1int,
{
    if n == 0 {
        assert(b.subrange(p, p) =~= Seq::<u8>::empty());
    } else {
        let (e, q) = parse_at(b, p)->Ok_0;
        lemma_parse_at_bytes(b, p);
        lemma_parse_items_bytes(b, q, (n - 1) as nat);
        let (a, end) = parse_items(b, p, n)->Ok_0;
        assert(a.drop_first() =~= parse_items(b, q, (n - 1) as nat)->Ok_0.0);
        assert(b.subrange(p, q) + b.subrange(q, end) =~= b.subrange(p, end));
    }
}

proof fn lemma_parse_pair_bytes(b: Seq<u8>, p: int)
    requires
        parse_pair(b, p) is Ok,
    ensures
        ({
            let ((k, v), r) = parse_pair(b, p)->Ok_0;
            &&& p < r <= b.len()
            &&& value_bytes(k.data) + value_bytes(v.data) == b.subrange(p, r)
        }),
    decreases b.len() - p, 1int,
{
    let (k, q) = parse_at(b, p)->Ok_0;
    lemma_parse_at_bytes(b, p);
    let (v, r) = parse_at(b, q)->Ok_0;
    lemma_parse_at_bytes(b, q);
    assert(b.subrange(p, q) + b.subrange(q, r) =~= b.subrange(p, r));
}

proof fn lemma_parse_pairs_bytes(b: Seq<u8>, p: int, n: nat)
    requires
        parse_pairs(b, p, n) is Ok,
        0 <= p <= b.len(),
    ensures
        p <= parse_pairs(b, p, n)->Ok_0.1 <= b.len(),
        parse_pairs(b, p, n)->Ok_0.0.len() == n,
        pairs_bytes(parse_pairs(b, p, n)->Ok_0.0) == b.subrange(p, parse_pairs(b, p, n)->Ok_0.1),
    decreases b.len() - p, 2int,
{
    if n == 0 {
        assert(b.subrange(p, p) =~= Seq::<u8>::empty());
    } else {
        let (kv, r) = parse_pair(b, p)->Ok_0;
        lemma_parse_pair_bytes(b, p);
        let (rest, end) = parse_pairs(b, r, (n - 1) as nat)->Ok_0;
        lemma_parse_pairs_bytes(b, r, (n - 1) as nat);
        let a = seq![kv] + rest;
        assert(a[0] == kv);
        assert(a.drop_first() =~= rest);
        assert(b.subrange(p, r) + b.subrange(r, end) =~= b.subrange(p, end));
    }
}

/// Decoding then encoding gives back exactly the bytes that were read: whatever a buffer
/// starts with, once decoded, re-encodes to that same prefix.
pub proof fn lemma_reencode_exact(b: Seq<u8>)
    requires
        parse_at(b, 0) is Ok,
    ensures
        0 < parse_at(b, 0)->Ok_0.1 <= b.len(),
        encoded(parse_at(b, 0)->Ok_0.0) == b.subrange(0, parse_at(b, 0)->Ok_0.1),
{
    lemma_parse_at_bytes(b, 0);
}

/// Whether a value's number or length fits the width of its wire format.
pub open spec fn fits(v: ValueModel) -> bool {
    match v {
        ValueModel::FixPos(n) => n < 0x80,
        ValueModel::FixNeg(n) => -32 <= n < 0,
        ValueModel::FixStr(s) => encode_utf8(s).len() < 32,
        ValueModel::Str8(s) => encode_utf8(s).len() < 0x100,
        ValueModel::Str16(s) => encode_utf8(s).len() < 0x1_0000,
        ValueModel::Str32(s) => encode_utf8(s).len() < 0x1_0000_0000,
        ValueModel::Bin8(b) => b.len() < 0x100,
        ValueModel::Bin16(b) => b.len() < 0x1_0000,
        ValueModel::Bin32(b) => b.len() < 0x1_0000_0000,
        ValueModel::FixArray(a) => a.len() < 16,
        ValueModel::Array16(a) => a.len() < 0x1_0000,
        ValueModel::Array32(a) => a.len() < 0x1_0000_0000,
        ValueModel::FixMap(m) => m.len() < 16,
        ValueModel::Map16(m) => m.len() < 0x1_0000,
        ValueModel::Map32(m) => m.len() < 0x1_0000_0000,
        _ => true,
    }
}

/// An entry tree that encoding and decoding carry over unchanged: every number and length
/// fits its format, each marker is the one its value is written with, each category is
/// the one its value has.
pub open spec fn well_formed(e: EntryModel) -> bool
    decreases e,
{
    &&& fits(e.data)
    &&& e.basic_type == kind_of(e.data)
    &&& e.raw_marker == value_bytes(e.data)[0]
    &&& match e.data {
        ValueModel::FixArray(a) => all_well_formed(a),
        ValueModel::Array16(a) => all_well_formed(a),
        ValueModel::Array32(a) => all_well_formed(a),
        ValueModel::FixMap(m) => all_pairs_well_formed(m),
        ValueModel::Map16(m) => all_pairs_well_formed(m),
        ValueModel::Map32(m) => all_pairs_well_formed(m),
        _ => true,
    }
}

/// Every entry of the sequence is well formed.
pub open spec fn all_well_formed(s: Seq<EntryModel>) -> bool
    decreases s,
{
    s.len() == 0 || (well_formed(s[0]) && all_well_formed(s.drop_first()))
}

/// Every key and every value of the sequence is well formed.
pub open spec fn all_pairs_well_formed(s: Seq<(EntryModel, EntryModel)>) -> bool
    decreases s,
{
    s.len() == 0 || (well_formed(s[0].0) && well_formed(s[0].1) && all_pairs_well_formed(
        s.drop_first(),
    ))
}

proof fn lemma_split(b: Seq<u8>, pos: int, x: Seq<u8>, y: Seq<u8>)
    requires
        0 <= pos,
        pos + x.len() + y.len() <= b.len(),
        b.subrange(pos, pos + x.len() + y.len()) == x + y,
    ensures
        b.subrange(pos, pos + x.len()) == x,
        b.subrange(pos + x.len(), pos + x.len() + y.len()) == y,
{
    assert(b.subrange(pos, pos + x.len()) =~= (x + y).subrange(0, x.len() as int));
    assert(b.subrange(pos, pos + x.len()) =~= x);
    assert forall|i: int| 0 <= i < y.len() implies #[trigger] b.subrange(
        pos + x.len(),
        pos + x.len() + y.len(),
    )[i] == y[i] by {
        assert(b.subrange(pos, pos + x.len() + y.len())[x.len() + i] == (x + y)[x.len() + i]);
        assert((x + y)[x.len() + i] == y[i]);
        assert(b.subrange(pos, pos + x.len() + y.len())[x.len() + i] == b[pos + x.len() + i]);
    }
    assert(b.subrange(pos + x.len(), pos + x.len() + y.len()) =~= y);
}

proof fn lemma_value_bytes_nonempty(v: ValueModel)
    ensures
        value_bytes(v).len() >= 1,
{
    let b = value_bytes(v);
    assert(b.len() >= 1);
}

proof fn lemma_from_twos_twos(n: int, w: nat)
    requires
        w == 1 || w == 2 || w == 4 || w == 8,
        -(pow256(w) / 2) <= n < pow256(w) / 2,
    ensures
        twos(n, w) < pow256(w),
        from_twos(twos(n, w), w) == n,
{
}

/// A field that holds `n` in `w` bytes reads back as `n`.
proof fn lemma_number_parses(b: Seq<u8>, p: int, n: nat, w: nat)
    requires
        0 <= p,
        p + be_bytes(n, w).len() <= b.len(),
        n < pow256(w),
        b.subrange(p, p + be_bytes(n, w).len()) == be_bytes(n, w),
    ensures
        be_bytes(n, w).len() == w,
        parse_number(b, p, w) == Ok::<(nat, int), MsgPackError>((n, p + w)),
{
    lemma_be_value_of_bytes(n, w);
}

/// An encoded value whose marker `m` stands at `p - 1` reads back as that value.
proof fn lemma_payload_parses(v: ValueModel, b: Seq<u8>, p: int)
    requires
        fits(v),
        match v {
            ValueModel::FixArray(a) => all_well_formed(a),
            ValueModel::Array16(a) => all_well_formed(a),
            ValueModel::Array32(a) => all_well_formed(a),
            ValueModel::FixMap(m) => all_pairs_well_formed(m),
            ValueModel::Map16(m) => all_pairs_well_formed(m),
            ValueModel::Map32(m) => all_pairs_well_formed(m),
            _ => true,
        },
        1 <= p,
        p - 1 + value_bytes(v).len() <= b.len(),
        b.subrange(p - 1, p - 1 + value_bytes(v).len()) == value_bytes(v),
    ensures
        parse_payload(b, value_bytes(v)[0], p) == Ok::<(ValueModel, int), MsgPackError>(
            (v, p - 1 + value_bytes(v).len()),
        ),
    decreases v, 2int,
{
    lemma_small_powers();
    let vb = value_bytes(v);
    let m = vb[0];
    let rest = vb.subrange(1, vb.len() as int);
    assert(vb =~= seq![m] + rest);
    lemma_split(b, p - 1, seq![m], rest);
    match v {
        ValueModel::U8(n) => {
            assert(m == 0xCCu8);
            assert(rest =~= be_bytes(n as nat, 1));
            lemma_number_parses(b, p, n as nat, 1);
        },
        ValueModel::U16(n) => {
            assert(m == 0xCDu8);
            assert(rest =~= be_bytes(n as nat, 2));
            lemma_number_parses(b, p, n as nat, 2);
        },
        ValueModel::U32(n) => {
            assert(m == 0xCEu8);
            assert(rest =~= be_bytes(n as nat, 4));
            lemma_number_parses(b, p, n as nat, 4);
        },
        ValueModel::U64(n) => {
            assert(m == 0xCFu8);
            assert(rest =~= be_bytes(n as nat, 8));
            lemma_number_parses(b, p, n as nat, 8);
        },
        ValueModel::F32(n) => {
            assert(m == 0xCAu8);
            assert(rest =~= be_bytes(n as nat, 4));
            lemma_number_parses(b, p, n as nat, 4);
        },
        ValueModel::F64(n) => {
            assert(m == 0xCBu8);
            assert(rest =~= be_bytes(n as nat, 8));
            lemma_number_parses(b, p, n as nat, 8);
        },
        ValueModel::I8(n) => {
            assert(m == 0xD0u8);
            lemma_from_twos_twos(n as int, 1);
            assert(rest =~= be_bytes(twos(n as int, 1), 1));
            lemma_number_parses(b, p, twos(n as int, 1), 1);
        },
        ValueModel::I16(n) => {
            assert(m == 0xD1u8);
            lemma_from_twos_twos(n as int, 2);
            assert(rest =~= be_bytes(twos(n as int, 2), 2));
            lemma_number_parses(b, p, twos(n as int, 2), 2);
        },
        ValueModel::I32(n) => {
            assert(m == 0xD2u8);
            lemma_from_twos_twos(n as int, 4);
            assert(rest =~= be_bytes(twos(n as int, 4), 4));
            lemma_number_parses(b, p, twos(n as int, 4), 4);
        },
        ValueModel::I64(n) => {
            assert(m == 0xD3u8);
            lemma_from_twos_twos(n as int, 8);
            assert(rest =~= be_bytes(twos(n as int, 8), 8));
            lemma_number_parses(b, p, twos(n as int, 8), 8);
        },
        ValueModel::FixStr(t) => lemma_str_parses(v, b, p),
        ValueModel::Str8(t) => lemma_str_parses(v, b, p),
        ValueModel::Str16(t) => lemma_str_parses(v, b, p),
        ValueModel::Str32(t) => lemma_str_parses(v, b, p),
        ValueModel::Bin8(t) => lemma_bin_parses(v, b, p),
        ValueModel::Bin16(t) => lemma_bin_parses(v, b, p),
        ValueModel::Bin32(t) => lemma_bin_parses(v, b, p),
        ValueModel::FixArray(a) => lemma_array_parses(v, b, p),
        ValueModel::Array16(a) => lemma_array_parses(v, b, p),
        ValueModel::Array32(a) => lemma_array_parses(v, b, p),
        ValueModel::FixMap(a) => lemma_map_parses(v, b, p),
        ValueModel::Map16(a) => lemma_map_parses(v, b, p),
        ValueModel::Map32(a) => lemma_map_parses(v, b, p),
        _ => {},
    }
}

proof fn lemma_str_parses(v: ValueModel, b: Seq<u8>, p: int)
    requires
        v is FixStr || v is Str8 || v is Str16 || v is Str32,
        fits(v),
        1 <= p,
        p - 1 + value_bytes(v).len() <= b.len(),
        b.subrange(p - 1, p - 1 + value_bytes(v).len()) == value_bytes(v),
    ensures
        parse_payload(b, value_bytes(v)[0], p) == Ok::<(ValueModel, int), MsgPackError>(
            (v, p - 1 + value_bytes(v).len()),
        ),
{
    lemma_small_powers();
    let (t, w): (Seq<char>, nat) = match v {
        ValueModel::FixStr(t) => (t, 0),
        ValueModel::Str8(t) => (t, 1),
        ValueModel::Str16(t) => (t, 2),
        ValueModel::Str32(t) => (t, 4),
        _ => (Seq::empty(), 0),
    };
    let enc = encode_utf8(t);
    let l = enc.len();
    let m = value_bytes(v)[0];
    let field = if w == 0 { Seq::<u8>::empty() } else { len_field(l, w) };
    if w != 0 {
        lemma_small_mod(l, pow256(w));
        lemma_be_value_of_bytes(l, w);
    }
    assert(value_bytes(v) =~= seq![m] + field + enc);
    lemma_split(b, p - 1, seq![m] + field, enc);
    lemma_split(b, p - 1, seq![m], field);
    encode_utf8_valid_utf8(t);
    encode_utf8_decode_utf8(t);
    if w == 0 {
        assert(m % 32 == l);
    } else {
        lemma_number_parses(b, p, l, w);
    }
    assert(parse_text(b, p + w, l) == Ok::<(Seq<char>, int), MsgPackError>((t, p + w + l)));
}

proof fn lemma_bin_parses(v: ValueModel, b: Seq<u8>, p: int)
    requires
        v is Bin8 || v is Bin16 || v is Bin32,
        fits(v),
        1 <= p,
        p - 1 + value_bytes(v).len() <= b.len(),
        b.subrange(p - 1, p - 1 + value_bytes(v).len()) == value_bytes(v),
    ensures
        parse_payload(b, value_bytes(v)[0], p) == Ok::<(ValueModel, int), MsgPackError>(
            (v, p - 1 + value_bytes(v).len()),
        ),
{
    lemma_small_powers();
    let (t, w): (Seq<u8>, nat) = match v {
        ValueModel::Bin8(t) => (t, 1),
        ValueModel::Bin16(t) => (t, 2),
        ValueModel::Bin32(t) => (t, 4),
        _ => (Seq::empty(), 1),
    };
    let l = t.len();
    let m = value_bytes(v)[0];
    let field = len_field(l, w);
    if w != 0 {
        lemma_small_mod(l, pow256(w));
        lemma_be_value_of_bytes(l, w);
    }
    assert(value_bytes(v) =~= seq![m] + field + t);
    lemma_split(b, p - 1, seq![m] + field, t);
    lemma_split(b, p - 1, seq![m], field);
    lemma_number_parses(b, p, l, w);
    assert(parse_raw(b, p + w, l) == Ok::<(Seq<u8>, int), MsgPackError>((t, p + w + l)));
}

proof fn lemma_array_parses(v: ValueModel, b: Seq<u8>, p: int)
    requires
        v is FixArray || v is Array16 || v is Array32,
        fits(v),
        match v {
            ValueModel::FixArray(a) => all_well_formed(a),
            ValueModel::Array16(a) => all_well_formed(a),
            ValueModel::Array32(a) => all_well_formed(a),
            _ => true,
        },
        1 <= p,
        p - 1 + value_bytes(v).len() <= b.len(),
        b.subrange(p - 1, p - 1 + value_bytes(v).len()) == value_bytes(v),
    ensures
        parse_payload(b, value_bytes(v)[0], p) == Ok::<(ValueModel, int), MsgPackError>(
            (v, p - 1 + value_bytes(v).len()),
        ),
    decreases v, 1int,
{
    lemma_small_powers();
    let (a, w): (Seq<EntryModel>, nat) = match v {
        ValueModel::FixArray(a) => (a, 0),
        ValueModel::Array16(a) => (a, 2),
        ValueModel::Array32(a) => (a, 4),
        _ => (Seq::empty(), 0),
    };
    let enc = entries_bytes(a);
    let l = a.len();
    let m = value_bytes(v)[0];
    let field = if w == 0 { Seq::<u8>::empty() } else { len_field(l, w) };
    if w != 0 {
        lemma_small_mod(l, pow256(w));
        lemma_be_value_of_bytes(l, w);
    }
    assert(value_bytes(v) =~= seq![m] + field + enc);
    lemma_split(b, p - 1, seq![m] + field, enc);
    lemma_split(b, p - 1, seq![m], field);
    if w == 0 {
        assert(m % 16 == l);
    } else {
        lemma_number_parses(b, p, l, w);
    }
    lemma_items_parse(a, b, p + w);
}

proof fn lemma_map_parses(v: ValueModel, b: Seq<u8>, p: int)
    requires
        v is FixMap || v is Map16 || v is Map32,
        fits(v),
        match v {
            ValueModel::FixMap(a) => all_pairs_well_formed(a),
            ValueModel::Map16(a) => all_pairs_well_formed(a),
            ValueModel::Map32(a) => all_pairs_well_formed(a),
            _ => true,
        },
        1 <= p,
        p - 1 + value_bytes(v).len() <= b.len(),
        b.subrange(p - 1, p - 1 + value_bytes(v).len()) == value_bytes(v),
    ensures
        parse_payload(b, value_bytes(v)[0], p) == Ok::<(ValueModel, int), MsgPackError>(
            (v, p - 1 + value_bytes(v).len()),
        ),
    decreases v, 1int,
{
    lemma_small_powers();
    let (a, w): (Seq<(EntryModel, EntryModel)>, nat) = match v {
        ValueModel::FixMap(a) => (a, 0),
        ValueModel::Map16(a) => (a, 2),
        ValueModel::Map32(a) => (a, 4),
        _ => (Seq::empty(), 0),
    };
    let enc = pairs_bytes(a);
    let l = a.len();
    let m = value_bytes(v)[0];
    let field = if w == 0 { Seq::<u8>::empty() } else { len_field(l, w) };
    if w != 0 {
        lemma_small_mod(l, pow256(w));
        lemma_be_value_of_bytes(l, w);
    }
    assert(value_bytes(v) =~= seq![m] + field + enc);
    lemma_split(b, p - 1, seq![m] + field, enc);
    lemma_split(b, p - 1, seq![m], field);
    if w == 0 {
        assert(m % 16 == l);
    } else {
        lemma_number_parses(b, p, l, w);
    }
    lemma_pairs_parse(a, b, p + w);
}

/// An encoded well-formed entry at `pos` reads back as that entry.
proof fn lemma_entry_parses(e: EntryModel, b: Seq<u8>, pos: int)
    requires
        well_formed(e),
        0 <= pos,
        pos + value_bytes(e.data).len() <= b.len(),
        b.subrange(pos, pos + value_bytes(e.data).len()) == value_bytes(e.data),
    ensures
        parse_at(b, pos) == Ok::<(EntryModel, int), MsgPackError>(
            (e, pos + value_bytes(e.data).len()),
        ),
    decreases e, 3int,
{
    lemma_value_bytes_nonempty(e.data);
    assert(b[pos] == b.subrange(pos, pos + value_bytes(e.data).len())[0]);
    lemma_payload_parses(e.data, b, pos + 1);
}

proof fn lemma_items_parse(a: Seq<EntryModel>, b: Seq<u8>, p: int)
    requires
        all_well_formed(a),
        0 <= p,
        p + entries_bytes(a).len() <= b.len(),
        b.subrange(p, p + entries_bytes(a).len()) == entries_bytes(a),
    ensures
        parse_items(b, p, a.len()) == Ok::<(Seq<EntryModel>, int), MsgPackError>(
            (a, p + entries_bytes(a).len()),
        ),
    decreases a, 0int,
{
    if a.len() > 0 {
        let x = value_bytes(a[0].data);
        let y = entries_bytes(a.drop_first());
        lemma_split(b, p, x, y);
        lemma_value_bytes_nonempty(a[0].data);
        lemma_entry_parses(a[0], b, p);
        lemma_items_parse(a.drop_first(), b, p + x.len());
        assert(parse_at(b, p) == Ok::<(EntryModel, int), MsgPackError>((a[0], p + x.len())));
        assert(parse_items(b, p + x.len(), (a.len() - 1) as nat) == Ok::<(Seq<EntryModel>, int), MsgPackError>(
            (a.drop_first(), p + x.len() + y.len())));
        assert(entries_bytes(a) == x + y);
        assert(seq![a[0]] + a.drop_first() =~= a);
        assert(parse_items(b, p, a.len()) == Ok::<(Seq<EntryModel>, int), MsgPackError>(
            (seq![a[0]] + a.drop_first(), p + x.len() + y.len()),
        ));
    } else {
        assert(a =~= Seq::<EntryModel>::empty());
    }
}

proof fn lemma_pairs_parse(a: Seq<(EntryModel, EntryModel)>, b: Seq<u8>, p: int)
    requires
        all_pairs_well_formed(a),
        0 <= p,
        p + pairs_bytes(a).len() <= b.len(),
        b.subrange(p, p + pairs_bytes(a).len()) == pairs_bytes(a),
    ensures
        parse_pairs(b, p, a.len()) == Ok::<(Seq<(EntryModel, EntryModel)>, int), MsgPackError>(
            (a, p + pairs_bytes(a).len()),
        ),
    decreases a, 0int,
{
    if a.len() > 0 {
        let x = value_bytes(a[0].0.data);
        let z = value_bytes(a[0].1.data);
        let y = pairs_bytes(a.drop_first());
        lemma_split(b, p, x + z, y);
        lemma_split(b, p, x, z);
        lemma_value_bytes_nonempty(a[0].0.data);
        lemma_value_bytes_nonempty(a[0].1.data);
        lemma_entry_parses(a[0].0, b, p);
        lemma_entry_parses(a[0].1, b, p + x.len());
        assert(parse_pair(b, p) == Ok::<((EntryModel, EntryModel), int), MsgPackError>(
            (a[0], p + x.len() + z.len()),
        ));
        lemma_pairs_parse(a.drop_first(), b, p + x.len() + z.len());
        assert(pairs_bytes(a) == x + z + y);
        assert(seq![a[0]] + a.drop_first() =~= a);
        assert(parse_pairs(b, p, a.len()) == Ok::<(Seq<(EntryModel, EntryModel)>, int), MsgPackError>(
            (seq![a[0]] + a.drop_first(), p + x.len() + z.len() + y.len()),
        ));
    } else {
        assert(a =~= Seq::<(EntryModel, EntryModel)>::empty());
    }
}

/// Encoding a well-formed entry and decoding the result gives back the same entry, marker
/// and category included, whatever bytes follow the encoding.
pub proof fn lemma_round_trip(e: EntryModel, rest: Seq<u8>)
    requires
        well_formed(e),
    ensures
        parse_at(encoded(e) + rest, 0) == Ok::<(EntryModel, int), MsgPackError>(
            (e, encoded(e).len() as int),
        ),
        decoded(encoded(e)) == Ok::<EntryModel, MsgPackError>(e),
{
    let b = encoded(e) + rest;
    assert(b.subrange(0, encoded(e).len() as int) =~= encoded(e));
    lemma_entry_parses(e, b, 0);
    assert(encoded(e).subrange(0, encoded(e).len() as int) =~= encoded(e));
    lemma_entry_parses(e, encoded(e), 0);
}

/// Fixed integers keep their sign and value: a negative one in -32..-1 is the single byte
/// `n + 256` and reads back as itself, and a positive one in 0..127 is the single byte `u`
/// and reads back as itself.
pub proof fn lemma_fixint_round_trip(n: i8, u: u8)
    requires
        -32 <= n < 0,
        u < 0x80,
    ensures
        value_bytes(ValueModel::FixNeg(n)) == seq![(n + 256) as u8],
        decoded(seq![(n + 256) as u8]) == Ok::<EntryModel, MsgPackError>(
            EntryModel {
                raw_marker: (n + 256) as u8,
                basic_type: BasicTypes::Number,
                data: ValueModel::FixNeg(n),
            },
        ),
        value_bytes(ValueModel::FixPos(u)) == seq![u],
        decoded(seq![u]) == Ok::<EntryModel, MsgPackError>(
            EntryModel { raw_marker: u, basic_type: BasicTypes::Number, data: ValueModel::FixPos(u) },
        ),
{
    let neg = EntryModel {
        raw_marker: (n + 256) as u8,
        basic_type: BasicTypes::Number,
        data: ValueModel::FixNeg(n),
    };
    let pos = EntryModel { raw_marker: u, basic_type: BasicTypes::Number, data: ValueModel::FixPos(u) };
    assert(fixneg_byte(n) == (n + 256) as u8);
    lemma_round_trip(neg, Seq::empty());
    lemma_round_trip(pos, Seq::empty());
}

/// The number of children of an array or map value (0 for any other value).
pub open spec fn children_count(v: ValueModel) -> nat {
    match v {
        ValueModel::FixArray(a) => a.len(),
        ValueModel::Array16(a) => a.len(),
        ValueModel::Array32(a) => a.len(),
        ValueModel::FixMap(m) => m.len(),
        ValueModel::Map16(m) => m.len(),
        ValueModel::Map32(m) => m.len(),
        _ => 0,
    }
}

/// The width in bytes of the length field that follows an array or map marker.
pub open spec fn count_width(v: ValueModel) -> nat {
    match v {
        ValueModel::Array16(_) | ValueModel::Map16(_) => 2,
        ValueModel::Array32(_) | ValueModel::Map32(_) => 4,
        _ => 0,
    }
}

/// The length that an encoded array or map announces is exactly its number of children:
/// in the marker's low four bits for the fixed forms, else in the field after the marker.
pub proof fn lemma_length_fidelity(v: ValueModel)
    requires
        v is FixArray || v is Array16 || v is Array32 || v is FixMap || v is Map16 || v is Map32,
        fits(v),
    ensures
        value_bytes(v).len() >= 1 + count_width(v),
        count_width(v) == 0 ==> (value_bytes(v)[0] as nat) % 16 == children_count(v),
        count_width(v) > 0 ==> be_value(value_bytes(v).subrange(1, 1 + count_width(v) as int))
            == children_count(v),
{
    lemma_small_powers();
    let w = count_width(v);
    let l = children_count(v);
    let vb = value_bytes(v);
    if w > 0 {
        lemma_small_mod(l, pow256(w));
        lemma_be_value_of_bytes(l, w);
        let field = len_field(l, w);
        assert(vb.subrange(1, 1 + w as int) =~= field);
    }
}

} // verus!
