//! From annotated text to code units.

use crate::decimal::{parse_decimal, parsed_u32};
use crate::entry::{
    entry_views, label_index, lemma_label_index_absent, lemma_label_index_last, CodeTableEntryFile, EntryView,
};
use crate::utf16::{char_units, push_char_units};
use vstd::prelude::*;
use vstd::std_specs::iter::IteratorSpec;
use vstd::string::{StrSliceExecFns, StringExecFns};

verus! {

/// Why an annotated text was turned down, over plain values.
pub enum EncodeFailure {
    /// A backslash stands before this character, which needs none.
    UselessEscape(char),
    /// The text ends in a backslash.
    UnfinishedEscape,
    /// A `[` has no `]` after it.
    UnclosedPlaceholder,
    /// Nothing stands between `[` and `]`.
    EmptyPlaceholder,
    /// A placeholder has more than two parts: the parts.
    PlaceholderTooMuchPart(Seq<Seq<char>>),
    /// No record has this label.
    UnknownPlaceholder(Seq<char>),
    /// The value is no 32-bit decimal number: the value, and the label.
    InvalidValue(Seq<char>, Seq<char>),
    /// The value is past 255 for a placeholder that holds it in one byte:
    /// the value, and the label of the record.
    CantEncodedParameterEmbeddedData(u32, Seq<char>),
}

/// An error that may occur while encoding text with [`TextToCode::encode`].
#[derive(Debug)]
pub enum TextToCodeError {
    /// A backslash stands before this character, which needs none.
    UselessEscape(char),
    /// The text ends in a backslash.
    UnfinishedEscape,
    /// A `[` has no `]` after it.
    UnclosedPlaceholder,
    /// Nothing stands between `[` and `]`.
    EmptyPlaceholder,
    /// A placeholder has more than two parts.
    PlaceholderTooMuchPart(Vec<String>),
    /// No record has this label.
    UnknownPlaceholder(String),
    /// The value is no 32-bit decimal number.
    InvalidValue(core::num::ParseIntError, String, String),
    /// The value is past 255 for a placeholder that holds it in one byte.
    CantEncodedParameterEmbeddedData(u32, String),
}

/// The texts of a list of strings.
pub open spec fn texts(list: Seq<String>) -> Seq<Seq<char>> {
    Seq::new(list.len(), |i: int| list[i]@)
}

impl View for TextToCodeError {
    type V = EncodeFailure;

    open spec fn view(&self) -> EncodeFailure {
        match self {
            TextToCodeError::UselessEscape(c) => EncodeFailure::UselessEscape(*c),
            TextToCodeError::UnfinishedEscape => EncodeFailure::UnfinishedEscape,
            TextToCodeError::UnclosedPlaceholder => EncodeFailure::UnclosedPlaceholder,
            TextToCodeError::EmptyPlaceholder => EncodeFailure::EmptyPlaceholder,
            TextToCodeError::PlaceholderTooMuchPart(parts) => EncodeFailure::PlaceholderTooMuchPart(
                texts(parts@),
            ),
            TextToCodeError::UnknownPlaceholder(label) => EncodeFailure::UnknownPlaceholder(label@),
            TextToCodeError::InvalidValue(_, value, label) => EncodeFailure::InvalidValue(value@, label@),
            TextToCodeError::CantEncodedParameterEmbeddedData(value, label) => {
                EncodeFailure::CantEncodedParameterEmbeddedData(*value, label@)
            },
        }
    }
}

/// The number of characters from `from` on that stand before the first `]`.
pub open spec fn run_before_close(text: Seq<char>, from: int) -> nat
    decreases text.len() - from,
{
    if from < 0 || from >= text.len() || text[from] == ']' {
        0
    } else {
        1 + run_before_close(text, from + 1)
    }
}

/// The parts of `body` from the part that starts at `from` on, `at` being
/// how far that part has been read: a part ends behind each `:`, which it
/// keeps, and the last part ends with the body.
pub open spec fn parts_from(body: Seq<char>, from: int, at: int) -> Seq<Seq<char>>
    decreases body.len() - at,
{
    if at < 0 || at >= body.len() {
        seq![body.subrange(from, body.len() as int)]
    } else if body[at] == ':' {
        seq![body.subrange(from, at + 1)] + parts_from(body, at + 1, at + 1)
    } else {
        parts_from(body, from, at + 1)
    }
}

/// The parts of what stands between `[` and `]`.
pub open spec fn parts_of(body: Seq<char>) -> Seq<Seq<char>> {
    parts_from(body, 0, 0)
}

/// The low byte of `value`, less one, and 0 where the low byte is 0.
pub open spec fn biased_low_byte(value: u32) -> u16 {
    if value % 256 == 0 {
        0u16
    } else {
        (value % 256 - 1) as u16
    }
}

/// The 16-bit words that hold `value`, the low word first: none for 0, one
/// below 0x10000, two from there on.
pub open spec fn argument_words(value: u32) -> Seq<u16> {
    if value == 0 {
        Seq::empty()
    } else if value < 0x10000 {
        seq![value as u16]
    } else {
        seq![(value % 0x10000) as u16, (value / 0x10000) as u16]
    }
}

/// The code units of a placeholder of `entry` with the argument `value`.
///
/// A record without further words takes an argument up to 255 and adds it
/// to its code unit. A record with further words adds the biased low byte
/// of the argument to its code unit, and the words of the argument follow.
/// Either sum wraps at 16 bits.
pub open spec fn argument_units(entry: EntryView, value: u32) -> Result<Seq<u16>, EncodeFailure> {
    if entry.lenght == 0 {
        if value > 255 {
            Err(EncodeFailure::CantEncodedParameterEmbeddedData(value, entry.label))
        } else {
            Ok(seq![entry.value.wrapping_add(value as u16)])
        }
    } else {
        Ok(seq![entry.value.wrapping_add(biased_low_byte(value))] + argument_words(value))
    }
}

/// The code units of the placeholder with `body` between its brackets.
///
/// The body as a whole is looked up first, and the record found gives its
/// code unit as it is. Failing that, a body of two parts is a label and a
/// decimal value.
pub open spec fn placeholder_units(labels: Map<Seq<char>, EntryView>, body: Seq<char>) -> Result<
    Seq<u16>,
    EncodeFailure,
> {
    let parts = parts_of(body);
    let complete = if parts.len() == 2 {
        parts[0] + parts[1]
    } else {
        parts[0]
    };
    if body.len() == 0 {
        Err(EncodeFailure::EmptyPlaceholder)
    } else if parts.len() > 2 {
        Err(EncodeFailure::PlaceholderTooMuchPart(parts))
    } else if labels.contains_key(complete) {
        Ok(seq![labels[complete].value])
    } else if parts.len() != 2 {
        Err(EncodeFailure::UnknownPlaceholder(complete))
    } else if !labels.contains_key(parts[0]) {
        Err(EncodeFailure::UnknownPlaceholder(parts[0]))
    } else {
        match parsed_u32(parts[1]) {
            None => Err(EncodeFailure::InvalidValue(parts[1], parts[0])),
            Some(value) => argument_units(labels[parts[0]], value),
        }
    }
}

/// The code units of the text from `pos` on, after `done`, or why the text
/// is turned down.
///
/// A backslash gives the code unit of the `[` or `\` behind it; a `[` opens
/// a placeholder that runs to the next `]`; any other character gives its
/// own code units.
pub open spec fn encode_from(labels: Map<Seq<char>, EntryView>, text: Seq<char>, pos: int, done: Seq<u16>) -> Result<
    Seq<u16>,
    EncodeFailure,
>
    decreases text.len() - pos,
{
    if pos < 0 || pos >= text.len() {
        Ok(done)
    } else if text[pos] == '\\' {
        if pos + 1 >= text.len() {
            Err(EncodeFailure::UnfinishedEscape)
        } else if text[pos + 1] == '[' || text[pos + 1] == '\\' {
            encode_from(labels, text, pos + 2, done + char_units(text[pos + 1]))
        } else {
            Err(EncodeFailure::UselessEscape(text[pos + 1]))
        }
    } else if text[pos] == '[' {
        let close = pos + 1 + run_before_close(text, pos + 1);
        if close >= text.len() {
            Err(EncodeFailure::UnclosedPlaceholder)
        } else {
            match placeholder_units(labels, text.subrange(pos + 1, close)) {
                Ok(units) => encode_from(labels, text, close + 1, done + units),
                Err(failure) => Err(failure),
            }
        }
    } else {
        encode_from(labels, text, pos + 1, done + char_units(text[pos]))
    }
}

/// The code units of an annotated text, or why it is turned down.
pub open spec fn encode_text(labels: Map<Seq<char>, EntryView>, text: Seq<char>) -> Result<Seq<u16>, EncodeFailure> {
    encode_from(labels, text, 0, Seq::empty())
}

/// The characters of a string, one by one.
fn chars_of(text: &str) -> (chars: Vec<char>)
    ensures
        chars@ == text@,
{
    let count: usize = text.unicode_len();
    let mut chars: Vec<char> = Vec::new();
    let mut rest = text.chars();
    proof {
        vstd::string::axiom_spec_iter(text);
        assert(text@.skip(0) =~= text@);
    }
    let mut i: usize = 0;
    while i < count
        invariant
            count == text@.len(),
            i <= count,
            rest.obeys_prophetic_iter_laws(),
            rest.remaining() == text@.skip(i as int),
            chars@ == text@.take(i as int),
        decreases count - i,
    {
        let ghost before = rest;
        let next = rest.next();
        proof {
            vstd::string::next_postcondition(&before, &rest, next);
            assert(text@.skip(i as int).drop_first() =~= text@.skip(i + 1));
        }
        match next {
            Some(c) => {
                chars.push(c);
                i += 1;
                assert(chars@ =~= text@.take(i as int));
            },
            None => {
                // Below `count` the iterator still holds a character.
                assert(false);
                i = count;
            },
        }
    }
    assert(chars@ =~= text@);
    chars
}

/// The place of the first `]` from `from` on, or the length of the text.
fn closing(chars: &Vec<char>, from: usize) -> (close: usize)
    requires
        from <= chars.len(),
    ensures
        close == from + run_before_close(chars@, from as int),
        close <= chars.len(),
{
    let mut at: usize = from;
    while at < chars.len() && chars[at] != ']'
        invariant
            from <= at <= chars.len(),
            from + run_before_close(chars@, from as int) == at + run_before_close(chars@, at as int),
        decreases chars.len() - at,
    {
        at += 1;
    }
    at
}

/// The parts of the characters from `start` up to `end`.
fn split_parts(chars: &Vec<char>, start: usize, end: usize) -> (parts: Vec<String>)
    requires
        start <= end <= chars.len(),
    ensures
        texts(parts@) == parts_of(chars@.subrange(start as int, end as int)),
        parts.len() >= 1,
{
    let ghost body = chars@.subrange(start as int, end as int);
    let mut parts: Vec<String> = Vec::new();
    let mut current = String::new();
    let mut at: usize = start;
    let ghost mut from: int = 0;
    assert(current@ =~= body.subrange(0, 0));
    assert(texts(parts@) + parts_from(body, 0, 0) =~= parts_of(body));
    while at < end
        invariant
            start <= at <= end <= chars.len(),
            body == chars@.subrange(start as int, end as int),
            0 <= from <= at - start,
            current@ == body.subrange(from, at - start),
            texts(parts@) + parts_from(body, from, at - start) == parts_of(body),
        decreases end - at,
    {
        let c: char = chars[at];
        assert(body[at - start] == c);
        let ghost before = texts(parts@);
        current.push(c);
        assert(current@ =~= body.subrange(from, at - start + 1));
        if c == ':' {
            parts.push(current);
            current = String::new();
            proof {
                assert(texts(parts@) =~= before + seq![body.subrange(from, at - start + 1)]);
                assert(texts(parts@) + parts_from(body, at - start + 1, at - start + 1) =~= before + parts_from(
                    body,
                    from,
                    at - start,
                ));
                from = at - start + 1;
                assert(current@ =~= body.subrange(from, from));
            }
        }
        at += 1;
    }
    proof {
        assert(parts_from(body, from, at - start) =~= seq![body.subrange(from, body.len() as int)]);
    }
    let ghost before = texts(parts@);
    parts.push(current);
    assert(texts(parts@) =~= before + seq![body.subrange(from, body.len() as int)]);
    parts
}

/// The 16-bit words that hold `value`, appended to `out`.
fn push_argument_words(out: &mut Vec<u16>, value: u32)
    ensures
        final(out)@ == old(out)@ + argument_words(value),
{
    if value == 0 {
        assert(out@ =~= old(out)@ + argument_words(value));
    } else if value < 0x10000 {
        out.push(value as u16);
        assert(out@ =~= old(out)@ + argument_words(value));
    } else {
        out.push((value % 0x10000) as u16);
        out.push((value / 0x10000) as u16);
        assert(out@ =~= old(out)@ + argument_words(value));
    }
}

/// The index of a code table by label.
pub struct TextToCode<'a> {
    pub(crate) text_to_code: &'a Vec<CodeTableEntryFile>,
}

impl<'a> View for TextToCode<'a> {
    type V = Map<Seq<char>, EntryView>;

    closed spec fn view(&self) -> Map<Seq<char>, EntryView> {
        label_index(entry_views(self.text_to_code@))
    }
}

impl<'a> TextToCode<'a> {
    /// The index that a list of records makes.
    pub(crate) fn over(entries: &'a Vec<CodeTableEntryFile>) -> (index: Self)
        ensures
            index@ == label_index(entry_views(entries@)),
    {
        TextToCode { text_to_code: entries }
    }

    /// The record filed under `label`.
    fn find(&self, label: &String) -> (r: Option<&'a CodeTableEntryFile>)
        ensures
            match r {
                Some(entry) => self@.contains_key(label@) && self@[label@] == entry@,
                None => !self@.contains_key(label@),
            },
    {
        let ghost views = entry_views(self.text_to_code@);
        let mut i: usize = self.text_to_code.len();
        while i > 0
            invariant
                i <= self.text_to_code.len(),
                views == entry_views(self.text_to_code@),
                forall|j: int| i <= j < views.len() ==> views[j].label != label@,
            decreases i,
        {
            i -= 1;
            let entry = &self.text_to_code[i];
            if entry.string == *label {
                proof {
                    lemma_label_index_last(views, label@, i as int);
                }
                return Some(entry);
            }
        }
        proof {
            lemma_label_index_absent(views, label@);
        }
        None
    }

    /// Appends to `out` the code units of a placeholder of `entry` with the
    /// argument `value`.
    fn push_argument_units(out: &mut Vec<u16>, entry: &CodeTableEntryFile, value: u32) -> (r: Result<
        (),
        TextToCodeError,
    >)
        ensures
            match r {
                Ok(_) => argument_units(entry@, value) is Ok && final(out)@ == old(out)@ + argument_units(
                    entry@,
                    value,
                )->Ok_0,
                Err(e) => argument_units(entry@, value) == Err::<Seq<u16>, EncodeFailure>(e@),
            },
    {
        if entry.lenght == 0 {
            if value > 255 {
                return Err(TextToCodeError::CantEncodedParameterEmbeddedData(value, entry.string.clone()));
            }
            out.push(entry.value.wrapping_add(value as u16));
            assert(out@ =~= old(out)@ + argument_units(entry@, value)->Ok_0);
        } else {
            let low: u32 = value % 256;
            let biased: u16 = if low == 0 {
                0
            } else {
                (low - 1) as u16
            };
            out.push(entry.value.wrapping_add(biased));
            push_argument_words(out, value);
            assert(out@ =~= old(out)@ + argument_units(entry@, value)->Ok_0);
        }
        Ok(())
    }

    /// Appends to `out` the code units of the placeholder whose body is the
    /// characters from `start` up to `end`.
    fn push_placeholder(&self, out: &mut Vec<u16>, chars: &Vec<char>, start: usize, end: usize) -> (r: Result<
        (),
        TextToCodeError,
    >)
        requires
            start <= end <= chars.len(),
        ensures
            match r {
                Ok(_) => {
                    let units = placeholder_units(self@, chars@.subrange(start as int, end as int));
                    units is Ok && final(out)@ == old(out)@ + units->Ok_0
                },
                Err(e) => placeholder_units(self@, chars@.subrange(start as int, end as int)) == Err::<
                    Seq<u16>,
                    EncodeFailure,
                >(e@),
            },
    {
        if start == end {
            return Err(TextToCodeError::EmptyPlaceholder);
        }
        let parts = split_parts(chars, start, end);
        assert(forall|i: int| 0 <= i < parts.len() ==> texts(parts@)[i] == parts@[i]@);
        if parts.len() > 2 {
            return Err(TextToCodeError::PlaceholderTooMuchPart(parts));
        }
        let directive: String = parts[0].clone();
        let complete: String = if parts.len() == 2 {
            directive.clone().concat(parts[1].as_str())
        } else {
            directive.clone()
        };
        match self.find(&complete) {
            Some(entry) => {
                out.push(entry.value);
                assert(out@ =~= old(out)@ + seq![entry@.value]);
                Ok(())
            },
            None => {
                if parts.len() == 2 {
                    let value: String = parts[1].clone();
                    match self.find(&directive) {
                        None => Err(TextToCodeError::UnknownPlaceholder(directive)),
                        Some(entry) => match parse_decimal(&value) {
                            Err(e) => Err(TextToCodeError::InvalidValue(e, value, directive)),
                            Ok(number) => Self::push_argument_units(out, entry, number),
                        },
                    }
                } else {
                    Err(TextToCodeError::UnknownPlaceholder(complete))
                }
            },
        }
    }

    /// Encodes annotated text into code units.
    ///
    /// A placeholder is first looked up as a whole, colon and value
    /// included. A placeholder with a value that is not found so is looked
    /// up under its first part, which keeps the colon: the label of a
    /// record that takes a value ends in `:`.
    pub fn encode(&self, text: &str) -> (r: Result<Vec<u16>, TextToCodeError>)
        ensures
            match r {
                Ok(units) => encode_text(self@, text@) == Ok::<Seq<u16>, EncodeFailure>(units@),
                Err(e) => encode_text(self@, text@) == Err::<Seq<u16>, EncodeFailure>(e@),
            },
    {
        let chars = chars_of(text);
        let mut result: Vec<u16> = Vec::new();
        let mut pos: usize = 0;
        while pos < chars.len()
            invariant
                chars@ == text@,
                pos <= chars.len(),
                encode_from(self@, chars@, pos as int, result@) == encode_text(self@, text@),
            decreases chars.len() - pos,
        {
            let c: char = chars[pos];
            if c == '\\' {
                if pos + 1 >= chars.len() {
                    return Err(TextToCodeError::UnfinishedEscape);
                }
                let escaped: char = chars[pos + 1];
                if escaped == '[' || escaped == '\\' {
                    push_char_units(&mut result, escaped);
                    pos += 2;
                } else {
                    return Err(TextToCodeError::UselessEscape(escaped));
                }
            } else if c == '[' {
                let close: usize = closing(&chars, pos + 1);
                if close >= chars.len() {
                    return Err(TextToCodeError::UnclosedPlaceholder);
                }
                match self.push_placeholder(&mut result, &chars, pos + 1, close) {
                    Ok(_) => {
                        pos = close + 1;
                    },
                    Err(e) => {
                        return Err(e);
                    },
                }
            } else {
                push_char_units(&mut result, c);
                pos += 1;
            }
        }
        Ok(result)
    }
}

} // verus!
