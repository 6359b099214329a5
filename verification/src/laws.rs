//! What holds of the decoder on every index and every input of a given
//! shape.

use crate::code_to_text::{
    decode_from, decode_text, matched_entry, packed_words, placeholder_text, DecodeFailure,
};
use crate::decimal::decimal_text;
use crate::entry::{code_index, lemma_code_index_last, EntryView};
use crate::utf16::{is_surrogate, pair_char};
use vstd::prelude::*;

verus! {

/// The code unit of a record without flags decodes, alone, to the record's
/// label between brackets.
pub proof fn lemma_decode_plain_placeholder(index: Map<u16, EntryView>, code: u16)
    requires
        index.contains_key(code),
        index[code].flags == 0,
    ensures
        decode_text(index, seq![code]) == Ok::<Seq<char>, DecodeFailure>(
            placeholder_text(index[code].label, Seq::empty()),
        ),
{
    let units = seq![code];
    let text = placeholder_text(index[code].label, Seq::empty());
    assert(units[0] == code);
    assert(decode_from(index, units, 1, Seq::empty() + text) == Ok::<Seq<char>, DecodeFailure>(
        Seq::empty() + text,
    ));
    assert(Seq::<char>::empty() + text =~= text);
}

/// The code unit of a record of a table that has no flags, and after which
/// no record has the same code unit, decodes, alone, to the record's label
/// between brackets.
pub proof fn lemma_decode_table_entry(entries: Seq<EntryView>, i: int)
    requires
        0 <= i < entries.len(),
        entries[i].flags == 0,
        forall|j: int| i < j < entries.len() ==> entries[j].value != entries[i].value,
    ensures
        decode_text(code_index(entries), seq![entries[i].value]) == Ok::<Seq<char>, DecodeFailure>(
            placeholder_text(entries[i].label, Seq::empty()),
        ),
{
    lemma_code_index_last(entries, entries[i].value, i);
    lemma_decode_plain_placeholder(code_index(entries), entries[i].value);
}

/// Every code unit of the block of a record with flags and no further
/// words decodes, alone, to the record's label and the code unit's place in
/// the block, in decimal, between brackets. The block starts at a multiple
/// of 256, and no other record is filed under the code unit itself.
pub proof fn lemma_decode_inline_argument(index: Map<u16, EntryView>, base: u16, offset: u16)
    requires
        index.contains_key(base),
        index[base].flags != 0,
        index[base].lenght == 0,
        base & 0x00FF == 0,
        offset <= 255,
        offset == 0 || !index.contains_key(base | offset),
    ensures
        decode_text(index, seq![base | offset]) == Ok::<Seq<char>, DecodeFailure>(
            placeholder_text(index[base].label, decimal_text(offset as nat)),
        ),
{
    let unit: u16 = base | offset;
    let units = seq![unit];
    let text = placeholder_text(index[base].label, decimal_text(offset as nat));
    assert(unit & 0xFF00 == base && unit & 0x00FF == offset) by (bit_vector)
        requires
            unit == base | offset,
            base & 0x00FF == 0,
            offset <= 255,
    ;
    assert(offset == 0 ==> unit == base) by (bit_vector)
        requires
            unit == base | offset,
    ;
    assert(units[0] == unit);
    assert(matched_entry(index, unit) == Some((index[base], offset as u32)));
    assert(decode_from(index, units, 1, Seq::empty() + text) == Ok::<Seq<char>, DecodeFailure>(
        Seq::empty() + text,
    ));
    assert(Seq::<char>::empty() + text =~= text);
}

/// Code units that decode by themselves decode the same way with more code
/// units behind them: what follows is then decoded after their text.
pub proof fn lemma_decode_prefix(
    index: Map<u16, EntryView>,
    prefix: Seq<u16>,
    rest: Seq<u16>,
    pos: int,
    done: Seq<char>,
)
    requires
        0 <= pos <= prefix.len(),
        decode_from(index, prefix, pos, done) is Ok,
    ensures
        decode_from(index, prefix + rest, pos, done) == decode_from(
            index,
            prefix + rest,
            prefix.len() as int,
            decode_from(index, prefix, pos, done)->Ok_0,
        ),
    decreases prefix.len() - pos,
{
    let all = prefix + rest;
    if pos < prefix.len() {
        let unit = prefix[pos];
        assert(all[pos] == unit);
        match matched_entry(index, unit) {
            Some((entry, carried)) => {
                if entry.flags == 0 {
                    lemma_decode_prefix(
                        index,
                        prefix,
                        rest,
                        pos + 1,
                        done + placeholder_text(entry.label, Seq::empty()),
                    );
                } else if entry.lenght == 0 {
                    lemma_decode_prefix(
                        index,
                        prefix,
                        rest,
                        pos + 1,
                        done + placeholder_text(entry.label, decimal_text(carried as nat)),
                    );
                } else {
                    let next = pos + 1 + entry.lenght;
                    assert(all.subrange(pos + 1, next) =~= prefix.subrange(pos + 1, next));
                    lemma_decode_prefix(
                        index,
                        prefix,
                        rest,
                        next,
                        done + placeholder_text(
                            entry.label,
                            decimal_text(packed_words(prefix.subrange(pos + 1, next)) as nat),
                        ),
                    );
                }
            },
            None => {
                if unit == 0x5B {
                    lemma_decode_prefix(index, prefix, rest, pos + 1, done + seq!['\\', '[']);
                } else if unit == 0x5C {
                    lemma_decode_prefix(index, prefix, rest, pos + 1, done + seq!['\\', '\\']);
                } else if !is_surrogate(unit) {
                    lemma_decode_prefix(index, prefix, rest, pos + 1, done.push(unit as char));
                } else {
                    assert(all[pos + 1] == prefix[pos + 1]);
                    lemma_decode_prefix(
                        index,
                        prefix,
                        rest,
                        pos + 2,
                        done.push(pair_char(unit, prefix[pos + 1])),
                    );
                }
            },
        }
    }
}

/// After code units that decode by themselves, the code unit of a record
/// with flags, followed to the end of the input by fewer code units than
/// the record's further words, is turned down for want of data.
pub proof fn lemma_decode_incomplete_data(
    index: Map<u16, EntryView>,
    prefix: Seq<u16>,
    unit: u16,
    words: Seq<u16>,
)
    requires
        decode_text(index, prefix) is Ok,
        matched_entry(index, unit) matches Some((entry, _)) && entry.flags != 0 && words.len() < entry.lenght,
    ensures
        decode_text(index, prefix + (seq![unit] + words)) == Err::<Seq<char>, DecodeFailure>(
            DecodeFailure::FinalNotLongEnoughtForData,
        ),
{
    let rest = seq![unit] + words;
    lemma_decode_prefix(index, prefix, rest, 0, Seq::empty());
    assert((prefix + rest)[prefix.len() as int] == unit);
}

/// After code units that decode by themselves to some text, a surrogate
/// that stands for no record and ends the input is turned down, with that
/// text and the surrogate.
pub proof fn lemma_decode_trailing_surrogate(index: Map<u16, EntryView>, prefix: Seq<u16>, unit: u16)
    requires
        decode_text(index, prefix) is Ok,
        is_surrogate(unit),
        matched_entry(index, unit) is None,
    ensures
        decode_text(index, prefix.push(unit)) == Err::<Seq<char>, DecodeFailure>(
            DecodeFailure::FinalInvalid(decode_text(index, prefix)->Ok_0, unit),
        ),
{
    let rest = seq![unit];
    lemma_decode_prefix(index, prefix, rest, 0, Seq::empty());
    assert(prefix + rest =~= prefix.push(unit));
    assert(prefix.push(unit)[prefix.len() as int] == unit);
}

} // verus!
