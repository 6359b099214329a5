//! The records of a code table and the table that owns them.

use crate::code_to_text::{entry_map, CodeToText};
use crate::text_to_code::TextToCode;
use std::collections::BTreeMap;
use vstd::prelude::*;

verus! {

/// What the codec reads of one record: the label as a sequence of characters
/// and the four 16-bit fields.
pub struct EntryView {
    pub label: Seq<char>,
    pub value: u16,
    pub flags: u16,
    pub lenght: u16,
    pub unk: u16,
}

/// A single pair of a code unit and the placeholder text it stands for.
#[derive(Debug)]
pub struct CodeTableEntryFile {
    /// The canonical name of the placeholder.
    pub string: String,
    /// The code unit of the placeholder, or the base of its block of 256.
    pub value: u16,
    /// Nonzero where the placeholder carries a numeric argument.
    pub flags: u16,
    /// The number of further code units that hold the argument; with 0 the
    /// argument sits in the low byte of the code unit itself.
    pub lenght: u16,
    /// Not read by the codec.
    pub unk: u16,
}

impl View for CodeTableEntryFile {
    type V = EntryView;

    open spec fn view(&self) -> EntryView {
        EntryView {
            label: self.string@,
            value: self.value,
            flags: self.flags,
            lenght: self.lenght,
            unk: self.unk,
        }
    }
}

/// The records of a table as the codec reads them, in table order.
pub open spec fn entry_views(entries: Seq<CodeTableEntryFile>) -> Seq<EntryView> {
    Seq::new(entries.len(), |i: int| entries[i]@)
}

/// A record whose argument sits in the low byte of the code unit starts its
/// block at a multiple of 256.
pub open spec fn block_aligned(entry: EntryView) -> bool {
    entry.flags != 0 && entry.lenght == 0 ==> entry.value & 0x00FF == 0
}

/// Every record of the table is block-aligned.
pub open spec fn blocks_aligned(entries: Seq<EntryView>) -> bool {
    forall|i: int| 0 <= i < entries.len() ==> block_aligned(#[trigger] entries[i])
}

/// The index by code unit: each record filed under its `value`, a later
/// record replacing an earlier one with the same value.
pub open spec fn code_index(entries: Seq<EntryView>) -> Map<u16, EntryView>
    decreases entries.len(),
{
    if entries.len() == 0 {
        Map::empty()
    } else {
        code_index(entries.drop_last()).insert(entries.last().value, entries.last())
    }
}

/// The index by label: each record filed under its `label`, a later record
/// replacing an earlier one with the same label.
pub open spec fn label_index(entries: Seq<EntryView>) -> Map<Seq<char>, EntryView>
    decreases entries.len(),
{
    if entries.len() == 0 {
        Map::empty()
    } else {
        label_index(entries.drop_last()).insert(entries.last().label, entries.last())
    }
}

/// A code unit that some record carries is filed in the index by code unit,
/// under the last such record.
pub proof fn lemma_code_index_last(entries: Seq<EntryView>, code: u16, i: int)
    requires
        0 <= i < entries.len(),
        entries[i].value == code,
        forall|j: int| i < j < entries.len() ==> entries[j].value != code,
    ensures
        code_index(entries).contains_key(code),
        code_index(entries)[code] == entries[i],
    decreases entries.len(),
{
    if i < entries.len() - 1 {
        lemma_code_index_last(entries.drop_last(), code, i);
    }
}

/// A code unit that no record carries is not filed in the index by code
/// unit.
pub proof fn lemma_code_index_absent(entries: Seq<EntryView>, code: u16)
    requires
        forall|j: int| 0 <= j < entries.len() ==> entries[j].value != code,
    ensures
        !code_index(entries).contains_key(code),
    decreases entries.len(),
{
    if entries.len() > 0 {
        lemma_code_index_absent(entries.drop_last(), code);
    }
}

/// A label that some record carries is filed in the index, under the last
/// such record.
pub proof fn lemma_label_index_last(entries: Seq<EntryView>, label: Seq<char>, i: int)
    requires
        0 <= i < entries.len(),
        entries[i].label == label,
        forall|j: int| i < j < entries.len() ==> entries[j].label != label,
    ensures
        label_index(entries).contains_key(label),
        label_index(entries)[label] == entries[i],
    decreases entries.len(),
{
    if i < entries.len() - 1 {
        lemma_label_index_last(entries.drop_last(), label, i);
    }
}

/// A label that no record carries is not filed in the index.
pub proof fn lemma_label_index_absent(entries: Seq<EntryView>, label: Seq<char>)
    requires
        forall|j: int| 0 <= j < entries.len() ==> entries[j].label != label,
    ensures
        !label_index(entries).contains_key(label),
    decreases entries.len(),
{
    if entries.len() > 0 {
        lemma_label_index_absent(entries.drop_last(), label);
    }
}

/// Why the list of record positions of a container was turned down.
#[derive(Debug)]
pub enum CodeTableDecodeError {
    /// The container lists fewer than five positions; the count is given.
    NotEnoughtPointer(usize),
    /// The position with this number is absent.
    CantGetOffsetForPointer(usize),
}

/// A complete code table: its records in the order of the file.
pub struct CodeTable {
    entries: Vec<CodeTableEntryFile>,
}

impl View for CodeTable {
    type V = Seq<EntryView>;

    closed spec fn view(&self) -> Seq<EntryView> {
        entry_views(self.entries@)
    }
}

impl Default for CodeTable {
    fn default() -> (table: Self)
        ensures
            table@ == Seq::<EntryView>::empty(),
    {
        let table = CodeTable { entries: Vec::new() };
        assert(table@ =~= Seq::<EntryView>::empty());
        table
    }
}

impl CodeTable {
    /// A table of the given records, in the given order.
    pub fn from_entries(entries: Vec<CodeTableEntryFile>) -> (table: Self)
        ensures
            table@ == entry_views(entries@),
    {
        CodeTable { entries }
    }

    /// The positions of the records among those that a container lists: all
    /// but the first three and the last two, in order. Fewer than five
    /// positions are turned down with their count, and otherwise the first
    /// absent position among those of the records with its number.
    pub fn entry_offsets(offsets: &Vec<Option<u64>>) -> (r: Result<Vec<u64>, CodeTableDecodeError>)
        ensures
            match r {
                Ok(list) => {
                    &&& offsets.len() >= 5
                    &&& list.len() == offsets.len() - 5
                    &&& forall|i: int| 0 <= i < list.len() ==> offsets[i + 3] == Some(#[trigger] list[i])
                },
                Err(CodeTableDecodeError::NotEnoughtPointer(count)) => {
                    &&& offsets.len() < 5
                    &&& count == offsets.len()
                },
                Err(CodeTableDecodeError::CantGetOffsetForPointer(number)) => {
                    &&& offsets.len() >= 5
                    &&& 3 <= number < offsets.len() - 2
                    &&& offsets[number as int] is None
                    &&& forall|i: int| 3 <= i < number ==> #[trigger] offsets[i] is Some
                },
            },
    {
        let count: usize = offsets.len();
        if count < 5 {
            return Err(CodeTableDecodeError::NotEnoughtPointer(count));
        }
        let mut list: Vec<u64> = Vec::new();
        let mut number: usize = 3;
        while number < count - 2
            invariant
                count == offsets.len(),
                count >= 5,
                3 <= number <= count - 2,
                list.len() == number - 3,
                forall|i: int| 0 <= i < list.len() ==> offsets[i + 3] == Some(#[trigger] list[i]),
                forall|i: int| 3 <= i < number ==> #[trigger] offsets[i] is Some,
            decreases count - number,
        {
            match offsets[number] {
                Some(offset) => list.push(offset),
                None => {
                    return Err(CodeTableDecodeError::CantGetOffsetForPointer(number));
                },
            }
            number += 1;
        }
        Ok(list)
    }

    /// The index by code unit, for decoding.
    pub fn generate_code_to_text(&self) -> (index: CodeToText<'_>)
        ensures
            index@ == code_index(self@),
    {
        let mut code_to_text: BTreeMap<u16, &CodeTableEntryFile> = BTreeMap::new();
        let mut i: usize = 0;
        while i < self.entries.len()
            invariant
                i <= self.entries.len(),
                entry_map(code_to_text@) == code_index(entry_views(self.entries@).take(i as int)),
            decreases self.entries.len() - i,
        {
            let entry = &self.entries[i];
            code_to_text.insert(entry.value, entry);
            i += 1;
            proof {
                let views = entry_views(self.entries@);
                assert(views.take(i as int).drop_last() =~= views.take(i - 1));
                assert(entry_map(code_to_text@) =~= code_index(views.take(i as int)));
            }
        }
        proof {
            let views = entry_views(self.entries@);
            assert(views.take(i as int) =~= views);
        }
        CodeToText::over(code_to_text)
    }

    /// The index by label, for encoding.
    pub fn generate_text_to_code(&self) -> (index: TextToCode<'_>)
        ensures
            index@ == label_index(self@),
    {
        TextToCode::over(&self.entries)
    }

    /// Whether every record that holds its argument in the low byte of the
    /// code unit starts its block at a multiple of 256. Only on such a table
    /// does each code unit of a block decode to its record.
    pub fn is_block_aligned(&self) -> (aligned: bool)
        ensures
            aligned == blocks_aligned(self@),
    {
        let mut i: usize = 0;
        while i < self.entries.len()
            invariant
                i <= self.entries.len(),
                forall|j: int| 0 <= j < i ==> block_aligned(#[trigger] entry_views(self.entries@)[j]),
            decreases self.entries.len() - i,
        {
            let entry = &self.entries[i];
            if entry.flags != 0 && entry.lenght == 0 && entry.value & 0x00FF != 0 {
                assert(!block_aligned(entry_views(self.entries@)[i as int]));
                return false;
            }
            i += 1;
        }
        true
    }

    /// The records, in the order of the file.
    pub fn entries(&self) -> (entries: &Vec<CodeTableEntryFile>)
        ensures
            entry_views(entries@) == self@,
    {
        &self.entries
    }
}

} // verus!
