//! From code units to annotated text.

use crate::decimal::{decimal_string, decimal_text};
use crate::entry::{CodeTableEntryFile, EntryView};
use crate::utf16::{is_high_surrogate, is_low_surrogate, is_surrogate, pair_char, pair_to_string};
use std::collections::BTreeMap;
use vstd::prelude::*;
use vstd::string::StringExecFns;

verus! {

/// Why a run of code units was turned down, over plain values.
pub enum DecodeFailure {
    /// The input ends in a surrogate that has no partner: the text decoded
    /// before it, and the surrogate.
    FinalInvalid(Seq<char>, u16),
    /// A surrogate and the code unit after it are no pair: the text decoded
    /// before them, and the two code units.
    CantDecodeUtf16(Seq<char>, u16, u16),
    /// The input ends before the code units that hold a placeholder's
    /// argument.
    FinalNotLongEnoughtForData,
}

/// An error that may occur while decoding code units with
/// [`CodeToText::decode`].
#[derive(Debug)]
pub enum CodeToTextError {
    /// The input ends in a surrogate that has no partner.
    FinalInvalid(String, u16),
    /// A surrogate and the code unit after it are no pair.
    CantDecodeUtf16(std::string::FromUtf16Error, String, u16, u16),
    /// The input ends before the code units that hold a placeholder's
    /// argument.
    FinalNotLongEnoughtForData,
}

impl View for CodeToTextError {
    type V = DecodeFailure;

    open spec fn view(&self) -> DecodeFailure {
        match self {
            CodeToTextError::FinalInvalid(text, unit) => DecodeFailure::FinalInvalid(text@, *unit),
            CodeToTextError::CantDecodeUtf16(_, text, first, second) => DecodeFailure::CantDecodeUtf16(
                text@,
                *first,
                *second,
            ),
            CodeToTextError::FinalNotLongEnoughtForData => DecodeFailure::FinalNotLongEnoughtForData,
        }
    }
}

/// The records of a map of borrowed records, as the codec reads them.
pub open spec fn entry_map(m: Map<u16, &CodeTableEntryFile>) -> Map<u16, EntryView> {
    Map::new(|code: u16| m.contains_key(code), |code: u16| m[code]@)
}

/// The record that a code unit stands for, with the argument that the code
/// unit itself carries: the record filed under the code unit, with argument
/// 0, or else the record filed under the code unit's block of 256, with the
/// code unit's low byte.
pub open spec fn matched_entry(index: Map<u16, EntryView>, unit: u16) -> Option<(EntryView, u32)> {
    if index.contains_key(unit) {
        Some((index[unit], 0u32))
    } else if index.contains_key(unit & 0xFF00) {
        Some((index[unit & 0xFF00], (unit & 0x00FF) as u32))
    } else {
        None
    }
}

/// One code unit in its place in a 32-bit number made of 16-bit words, the
/// low word first. Words past the second fall outside the 32 bits.
pub open spec fn word_in_place(word: u16, place: int) -> u32 {
    if place == 0 {
        word as u32
    } else if place == 1 {
        (word as u32) << 16
    } else {
        0
    }
}

/// The 32-bit number that a run of words holds: every word in its place,
/// all of them or-ed together.
pub open spec fn packed_words(words: Seq<u16>) -> u32
    decreases words.len(),
{
    if words.len() == 0 {
        0
    } else {
        packed_words(words.drop_last()) | word_in_place(words.last(), words.len() - 1)
    }
}

/// A placeholder as text: the label and the argument between brackets.
pub open spec fn placeholder_text(label: Seq<char>, argument: Seq<char>) -> Seq<char> {
    seq!['['] + label + argument + seq![']']
}

/// The text of the code units from `pos` on, after `done`, or why they are
/// turned down.
///
/// A code unit that stands for a record becomes a placeholder. Without
/// flags the placeholder has no argument; with flags and no further words
/// the argument is the one the code unit carries; with flags and `lenght`
/// further words it is the number packed in them. Any other code unit is
/// text: `[` and `\` are written behind a backslash, a code unit that is no
/// surrogate is its own character, and a surrogate takes the next code unit
/// as its partner.
pub open spec fn decode_from(index: Map<u16, EntryView>, units: Seq<u16>, pos: int, done: Seq<char>) -> Result<
    Seq<char>,
    DecodeFailure,
>
    decreases units.len() - pos,
{
    if pos < 0 || pos >= units.len() {
        Ok(done)
    } else {
        let unit = units[pos];
        match matched_entry(index, unit) {
            Some((entry, carried)) => {
                if entry.flags == 0 {
                    decode_from(index, units, pos + 1, done + placeholder_text(entry.label, Seq::empty()))
                } else if entry.lenght == 0 {
                    decode_from(
                        index,
                        units,
                        pos + 1,
                        done + placeholder_text(entry.label, decimal_text(carried as nat)),
                    )
                } else if pos + 1 + entry.lenght > units.len() {
                    Err(DecodeFailure::FinalNotLongEnoughtForData)
                } else {
                    let words = units.subrange(pos + 1, pos + 1 + entry.lenght);
                    decode_from(
                        index,
                        units,
                        pos + 1 + entry.lenght,
                        done + placeholder_text(entry.label, decimal_text(packed_words(words) as nat)),
                    )
                }
            },
            None => {
                if unit == 0x5B {
                    decode_from(index, units, pos + 1, done + seq!['\\', '['])
                } else if unit == 0x5C {
                    decode_from(index, units, pos + 1, done + seq!['\\', '\\'])
                } else if !is_surrogate(unit) {
                    decode_from(index, units, pos + 1, done.push(unit as char))
                } else if pos + 1 >= units.len() {
                    Err(DecodeFailure::FinalInvalid(done, unit))
                } else if is_high_surrogate(unit) && is_low_surrogate(units[pos + 1]) {
                    decode_from(index, units, pos + 2, done.push(pair_char(unit, units[pos + 1])))
                } else {
                    Err(DecodeFailure::CantDecodeUtf16(done, unit, units[pos + 1]))
                }
            },
        }
    }
}

/// The annotated text of a run of code units, or why it is turned down.
pub open spec fn decode_text(index: Map<u16, EntryView>, units: Seq<u16>) -> Result<Seq<char>, DecodeFailure> {
    decode_from(index, units, 0, Seq::empty())
}

/// The index of a code table by code unit.
pub struct CodeToText<'a> {
    pub(crate) code_to_text: BTreeMap<u16, &'a CodeTableEntryFile>,
}

impl<'a> View for CodeToText<'a> {
    type V = Map<u16, EntryView>;

    closed spec fn view(&self) -> Map<u16, EntryView> {
        entry_map(self.code_to_text@)
    }
}

impl<'a> CodeToText<'a> {
    /// The index that a map from code units to records makes.
    pub(crate) fn over(code_to_text: BTreeMap<u16, &'a CodeTableEntryFile>) -> (index: Self)
        ensures
            index@ == entry_map(code_to_text@),
    {
        CodeToText { code_to_text }
    }

    /// The record that `unit` stands for and the argument it carries.
    fn find(&self, unit: u16) -> (r: Option<(&'a CodeTableEntryFile, u32)>)
        ensures
            match r {
                Some((entry, carried)) => matched_entry(self@, unit) == Some((entry@, carried)),
                None => matched_entry(self@, unit) is None,
            },
    {
        match self.code_to_text.get(&unit) {
            Some(entry) => Some((*entry, 0)),
            None => {
                let base: u16 = unit & 0xFF00;
                let low: u16 = unit & 0x00FF;
                match self.code_to_text.get(&base) {
                    Some(entry) => Some((*entry, low as u32)),
                    None => None,
                }
            },
        }
    }

    /// Decodes a run of code units into annotated text.
    pub fn decode(&self, text: &[u16]) -> (r: Result<String, CodeToTextError>)
        ensures
            match r {
                Ok(s) => decode_text(self@, text@) == Ok::<Seq<char>, DecodeFailure>(s@),
                Err(e) => decode_text(self@, text@) == Err::<Seq<char>, DecodeFailure>(e@),
            },
    {
        let mut result = String::new();
        let mut pos: usize = 0;
        while pos < text.len()
            invariant
                pos <= text.len(),
                decode_from(self@, text@, pos as int, result@) == decode_text(self@, text@),
            decreases text.len() - pos,
        {
            let point: u16 = text[pos];
            match self.find(point) {
                Some((entry, carried)) => {
                    let mut argument = String::new();
                    let mut next: usize = pos + 1;
                    if entry.flags != 0 {
                        let mut value: u32 = carried;
                        if entry.lenght > 0 {
                            let count: usize = entry.lenght as usize;
                            if count > text.len() - next {
                                return Err(CodeToTextError::FinalNotLongEnoughtForData);
                            }
                            value = pack_words(text, next, count);
                            next = next + count;
                        }
                        argument = decimal_string(value);
                    }
                    let ghost before = result@;
                    result.push('[');
                    result.append(entry.string.as_str());
                    result.append(argument.as_str());
                    result.push(']');
                    assert(result@ =~= before + placeholder_text(entry@.label, argument@));
                    pos = next;
                },
                None => {
                    if point == 0x5B {
                        let ghost before = result@;
                        result.push('\\');
                        result.push('[');
                        assert(result@ =~= before + seq!['\\', '[']);
                        pos += 1;
                    } else if point == 0x5C {
                        let ghost before = result@;
                        result.push('\\');
                        result.push('\\');
                        assert(result@ =~= before + seq!['\\', '\\']);
                        pos += 1;
                    } else {
                        match char::from_u32(point as u32) {
                            Some(c) => {
                                assert(c == point as char);
                                result.push(c);
                                pos += 1;
                            },
                            None => {
                                if pos + 1 < text.len() {
                                    let second: u16 = text[pos + 1];
                                    match pair_to_string(point, second) {
                                        Ok(pair) => {
                                            let ghost before = result@;
                                            result.append(pair.as_str());
                                            assert(result@ =~= before.push(pair_char(point, second)));
                                            pos += 2;
                                        },
                                        Err(e) => {
                                            return Err(CodeToTextError::CantDecodeUtf16(e, result, point, second));
                                        },
                                    }
                                } else {
                                    return Err(CodeToTextError::FinalInvalid(result, point));
                                }
                            },
                        }
                    }
                },
            }
        }
        Ok(result)
    }
}

/// Packs the `count` words of `text` from `from` on into one number.
fn pack_words(text: &[u16], from: usize, count: usize) -> (value: u32)
    requires
        from + count <= text.len(),
    ensures
        value == packed_words(text@.subrange(from as int, from + count)),
{
    let mut value: u32 = 0;
    let mut j: usize = 0;
    while j < count
        invariant
            j <= count,
            from + count <= text.len(),
            value == packed_words(text@.subrange(from as int, from + j)),
        decreases count - j,
    {
        let word: u16 = text[from + j];
        proof {
            let now = text@.subrange(from as int, from + j + 1);
            assert(now.drop_last() =~= text@.subrange(from as int, from + j));
            assert(now.last() == word);
        }
        if j == 0 {
            value = value | (word as u32);
        } else if j == 1 {
            value = value | ((word as u32) << 16);
        } else {
            assert(value | 0u32 == value) by (bit_vector);
        }
        j += 1;
    }
    value
}

} // verus!
