use vstd::prelude::*;
use crate::types::{entries_model, entry_model, pairs_model, EntryModel, MsgPackEntry, MsgPackValue, MsgValue};
use crate::wire::{be_bytes, entries_bytes, fixneg_byte, pairs_bytes, pow256, value_bytes};

verus! {

/// The bytes that encode an entry: those of its value (the stored marker is not consulted).
pub open spec fn encoded(e: EntryModel) -> Seq<u8> {
    value_bytes(e.data)
}

/// Appending an entry appends its encoding.
pub proof fn lemma_entries_bytes_push(s: Seq<EntryModel>, e: EntryModel)
    ensures
        entries_bytes(s.push(e)) == entries_bytes(s) + value_bytes(e.data),
    decreases s.len(),
{
    if s.len() == 0 {
        assert(s.push(e).drop_first() =~= Seq::<EntryModel>::empty());
        assert(s.push(e)[0] == e);
        assert(entries_bytes(s.push(e).drop_first()) == Seq::<u8>::empty());
        assert(entries_bytes(s) == Seq::<u8>::empty());
        assert(entries_bytes(s.push(e)) =~= entries_bytes(s) + value_bytes(e.data));
    } else {
        assert(s.push(e).drop_first() =~= s.drop_first().push(e));
        lemma_entries_bytes_push(s.drop_first(), e);
        assert(entries_bytes(s.push(e)) =~= entries_bytes(s) + value_bytes(e.data));
    }
}

/// Appending a pair appends its key's then its value's encoding.
pub proof fn lemma_pairs_bytes_push(s: Seq<(EntryModel, EntryModel)>, e: (EntryModel, EntryModel))
    ensures
        pairs_bytes(s.push(e)) == pairs_bytes(s) + value_bytes(e.0.data) + value_bytes(e.1.data),
    decreases s.len(),
{
    if s.len() == 0 {
        assert(s.push(e).drop_first() =~= Seq::<(EntryModel, EntryModel)>::empty());
        assert(s.push(e)[0] == e);
        assert(pairs_bytes(s.push(e).drop_first()) == Seq::<u8>::empty());
        assert(pairs_bytes(s) == Seq::<u8>::empty());
        assert(pairs_bytes(s.push(e)) =~= pairs_bytes(s) + value_bytes(e.0.data) + value_bytes(
            e.1.data,
        ));
    } else {
        assert(s.push(e).drop_first() =~= s.drop_first().push(e));
        lemma_pairs_bytes_push(s.drop_first(), e);
        assert(pairs_bytes(s.push(e)) =~= pairs_bytes(s) + value_bytes(e.0.data) + value_bytes(
            e.1.data,
        ));
    }
}

/// The model of a sequence of entries is, index by index, the model of each.
pub proof fn lemma_entries_model_index(s: Seq<MsgPackEntry>)
    ensures
        entries_model(s).len() == s.len(),
        forall|i: int| 0 <= i < s.len() ==> #[trigger] entries_model(s)[i] == entry_model(s[i]),
    decreases s.len(),
{
    if s.len() > 0 {
        lemma_entries_model_index(s.drop_last());
    }
}

/// The model of a sequence of pairs is, index by index, the model of each.
pub proof fn lemma_pairs_model_index(s: Seq<(MsgPackEntry, MsgPackEntry)>)
    ensures
        pairs_model(s).len() == s.len(),
        forall|i: int|
            0 <= i < s.len() ==> #[trigger] pairs_model(s)[i] == (
            entry_model(s[i].0),
            entry_model(s[i].1),
        ),
    decreases s.len(),
{
    if s.len() > 0 {
        lemma_pairs_model_index(s.drop_last());
    }
}

/// Appends the `w` low-order bytes of `n`, most significant first.
fn write_be(writer: &mut Vec<u8>, n: u64, w: usize)
    ensures
        final(writer)@ == old(writer)@ + be_bytes(n as nat, w as nat),
    decreases w,
{
    if w > 0 {
        write_be(writer, n / 256, w - 1);
        writer.push((n % 256) as u8);
        proof {
            assert(writer@ =~= old(writer)@ + be_bytes(n as nat, w as nat));
        }
    } else {
        proof {
            assert(writer@ =~= old(writer)@ + be_bytes(n as nat, w as nat));
        }
    }
}

/// Appends raw bytes.
fn write_bytes(writer: &mut Vec<u8>, bytes: &[u8])
    ensures
        final(writer)@ == old(writer)@ + bytes@,
{
    let mut i: usize = 0;
    while i < bytes.len()
        invariant
            i <= bytes.len(),
            writer@ == old(writer)@ + bytes@.subrange(0, i as int),
        decreases bytes.len() - i,
    {
        writer.push(bytes[i]);
        i = i + 1;
        proof {
            assert(writer@ =~= old(writer)@ + bytes@.subrange(0, i as int));
        }
    }
    proof {
        assert(bytes@.subrange(0, i as int) =~= bytes@);
    }
}

/// Encodes an entry.
pub fn pack(entry: &MsgPackEntry) -> (r: Vec<u8>)
    ensures
        r@ == encoded(entry@),
{
    let mut buffer: Vec<u8> = Vec::new();
    write_value(&mut buffer, entry);
    proof {
        assert(buffer@ =~= encoded(entry@));
    }
    buffer
}

/// Appends the encoding of whatever value `value` holds.
pub fn write_value<V: MsgValue>(writer: &mut Vec<u8>, value: &V)
    ensures
        final(writer)@ == old(writer)@ + value_bytes(value.held_value()@),
{
    write_data(writer, value.get_value());
}

/// Appends the entries' encodings in order.
fn write_entries(writer: &mut Vec<u8>, items: &Vec<MsgPackEntry>)
    ensures
        final(writer)@ == old(writer)@ + entries_bytes(entries_model(items@)),
    decreases items,
{
    let ghost model = entries_model(items@);
    proof {
        lemma_entries_model_index(items@);
        assert(model.take(0) =~= Seq::<EntryModel>::empty());
    }
    let mut i: usize = 0;
    while i < items.len()
        invariant
            i <= items.len(),
            model == entries_model(items@),
            model.len() == items.len(),
            forall|j: int| 0 <= j < items.len() ==> #[trigger] model[j] == entry_model(items@[j]),
            writer@ == old(writer)@ + entries_bytes(model.take(i as int)),
        decreases items.len() - i,
    {
        proof {
            assert(decreases_to!(items => items[i as int]));
        }
        write_data(writer, &items[i].data);
        proof {
            assert(model.take(i + 1) =~= model.take(i as int).push(model[i as int]));
            lemma_entries_bytes_push(model.take(i as int), model[i as int]);
            assert(writer@ =~= old(writer)@ + entries_bytes(model.take(i + 1)));
        }
        i = i + 1;
    }
    proof {
        assert(model.take(i as int) =~= model);
    }
}

/// Appends each pair's key then value, in order.
fn write_pairs(writer: &mut Vec<u8>, pairs: &Vec<(MsgPackEntry, MsgPackEntry)>)
    ensures
        final(writer)@ == old(writer)@ + pairs_bytes(pairs_model(pairs@)),
    decreases pairs,
{
    let ghost model = pairs_model(pairs@);
    proof {
        lemma_pairs_model_index(pairs@);
        assert(model.take(0) =~= Seq::<(EntryModel, EntryModel)>::empty());
    }
    let mut i: usize = 0;
    while i < pairs.len()
        invariant
            i <= pairs.len(),
            model == pairs_model(pairs@),
            model.len() == pairs.len(),
            forall|j: int|
                0 <= j < pairs.len() ==> #[trigger] model[j] == (
                entry_model(pairs@[j].0),
                entry_model(pairs@[j].1),
            ),
            writer@ == old(writer)@ + pairs_bytes(model.take(i as int)),
        decreases pairs.len() - i,
    {
        proof {
            assert(decreases_to!(pairs => pairs[i as int]));
        }
        let pair = &pairs[i];
        write_data(writer, &pair.0.data);
        write_data(writer, &pair.1.data);
        proof {
            assert(model.take(i + 1) =~= model.take(i as int).push(model[i as int]));
            lemma_pairs_bytes_push(model.take(i as int), model[i as int]);
            assert(writer@ =~= old(writer)@ + pairs_bytes(model.take(i + 1)));
        }
        i = i + 1;
    }
    proof {
        assert(model.take(i as int) =~= model);
    }
}

/// Appends a value's marker, its length or number if any, then its payload.
fn write_data(writer: &mut Vec<u8>, value: &MsgPackValue)
    ensures
        final(writer)@ == old(writer)@ + value_bytes(value@),
    decreases value,
{
    proof {
        reveal_with_fuel(pow256, 5);
    }
    match value {
        MsgPackValue::Null => {
            writer.push(0xC0);
        },
        MsgPackValue::Bool(b) => {
            writer.push(if *b { 0xC3 } else { 0xC2 });
        },
        MsgPackValue::FixPos(n) => {
            writer.push(*n % 128);
        },
        MsgPackValue::FixNeg(n) => {
            let u: u8 = if *n < 0 { (*n as i16 + 256) as u8 } else { *n as u8 };
            writer.push(0xE0 + u % 32);
            proof {
                assert(0xE0 + u % 32 == fixneg_byte(*n));
            }
        },
        MsgPackValue::U8(n) => {
            writer.push(0xCC);
            write_be(writer, *n as u64, 1);
        },
        MsgPackValue::U16(n) => {
            writer.push(0xCD);
            write_be(writer, *n as u64, 2);
        },
        MsgPackValue::U32(n) => {
            writer.push(0xCE);
            write_be(writer, *n as u64, 4);
        },
        MsgPackValue::U64(n) => {
            writer.push(0xCF);
            write_be(writer, *n, 8);
        },
        MsgPackValue::I8(n) => {
            writer.push(0xD0);
            let u: u64 = if *n < 0 { (*n as i16 + 0x100) as u64 } else { *n as u64 };
            write_be(writer, u, 1);
        },
        MsgPackValue::I16(n) => {
            writer.push(0xD1);
            let u: u64 = if *n < 0 { (*n as i32 + 0x1_0000) as u64 } else { *n as u64 };
            write_be(writer, u, 2);
        },
        MsgPackValue::I32(n) => {
            writer.push(0xD2);
            let u: u64 = if *n < 0 { (*n as i64 + 0x1_0000_0000) as u64 } else { *n as u64 };
            write_be(writer, u, 4);
        },
        MsgPackValue::I64(n) => {
            writer.push(0xD3);
            let u: u64 = if *n < 0 {
                (*n + 1 + 0x7FFF_FFFF_FFFF_FFFF) as u64 + 0x8000_0000_0000_0000
            } else {
                *n as u64
            };
            proof {
                reveal_with_fuel(pow256, 9);
            }
            write_be(writer, u, 8);
        },
        MsgPackValue::F32(n) => {
            writer.push(0xCA);
            write_be(writer, *n as u64, 4);
        },
        MsgPackValue::F64(n) => {
            writer.push(0xCB);
            write_be(writer, *n, 8);
        },
        MsgPackValue::FixStr(s) => {
            let bytes = s.as_str().as_bytes();
            writer.push((0xA0 + bytes.len() % 32) as u8);
            write_bytes(writer, bytes);
        },
        MsgPackValue::Str8(s) => {
            let bytes = s.as_str().as_bytes();
            writer.push(0xD9);
            write_be(writer, (bytes.len() % 0x100) as u64, 1);
            write_bytes(writer, bytes);
        },
        MsgPackValue::Str16(s) => {
            let bytes = s.as_str().as_bytes();
            writer.push(0xDA);
            write_be(writer, (bytes.len() % 0x1_0000) as u64, 2);
            write_bytes(writer, bytes);
        },
        MsgPackValue::Str32(s) => {
            let bytes = s.as_str().as_bytes();
            writer.push(0xDB);
            write_be(writer, (bytes.len() as u64 % 0x1_0000_0000) as u64, 4);
            write_bytes(writer, bytes);
        },
        MsgPackValue::Bin8(b) => {
            writer.push(0xC4);
            write_be(writer, (b.len() % 0x100) as u64, 1);
            write_bytes(writer, b.as_slice());
        },
        MsgPackValue::Bin16(b) => {
            writer.push(0xC5);
            write_be(writer, (b.len() % 0x1_0000) as u64, 2);
            write_bytes(writer, b.as_slice());
        },
        MsgPackValue::Bin32(b) => {
            writer.push(0xC6);
            write_be(writer, (b.len() as u64 % 0x1_0000_0000) as u64, 4);
            write_bytes(writer, b.as_slice());
        },
        MsgPackValue::FixArray(a) => {
            writer.push((0x90 + a.len() % 16) as u8);
            proof {
                lemma_entries_model_index(a@);
            }
            write_entries(writer, a);
        },
        MsgPackValue::Array16(a) => {
            writer.push(0xDC);
            proof {
                lemma_entries_model_index(a@);
            }
            write_be(writer, (a.len() % 0x1_0000) as u64, 2);
            write_entries(writer, a);
        },
        MsgPackValue::Array32(a) => {
            writer.push(0xDD);
            proof {
                lemma_entries_model_index(a@);
            }
            write_be(writer, (a.len() as u64 % 0x1_0000_0000) as u64, 4);
            write_entries(writer, a);
        },
        MsgPackValue::FixMap(m) => {
            writer.push((0x80 + m.len() % 16) as u8);
            proof {
                lemma_pairs_model_index(m@);
            }
            write_pairs(writer, m);
        },
        MsgPackValue::Map16(m) => {
            writer.push(0xDE);
            proof {
                lemma_pairs_model_index(m@);
            }
            write_be(writer, (m.len() % 0x1_0000) as u64, 2);
            write_pairs(writer, m);
        },
        MsgPackValue::Map32(m) => {
            writer.push(0xDF);
            proof {
                lemma_pairs_model_index(m@);
            }
            write_be(writer, (m.len() as u64 % 0x1_0000_0000) as u64, 4);
            write_pairs(writer, m);
        },
    }
    proof {
        assert(writer@ =~= old(writer)@ + value_bytes(value@));
    }
}

} // verus!
