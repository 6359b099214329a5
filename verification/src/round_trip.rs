//! Text that survives encoding, decoding and encoding again.

use crate::code_to_text::{decode_from, decode_text, matched_entry, placeholder_text, DecodeFailure};
use crate::entry::EntryView;
use crate::text_to_code::{
    encode_from, encode_text, parts_from, parts_of, placeholder_units, run_before_close, EncodeFailure,
};
use crate::utf16::{char_units, is_high_surrogate, is_low_surrogate, is_surrogate, pair_char};
use vstd::prelude::*;

verus! {

/// One piece of an annotated text.
pub enum Piece {
    /// A character that stands for itself.
    Literal(char),
    /// A `[` or a `\` behind a backslash.
    Escaped(char),
    /// A placeholder whose body, as a whole, is the label of a record.
    Label(Seq<char>),
}

/// A piece as it is written.
pub open spec fn piece_text(piece: Piece) -> Seq<char> {
    match piece {
        Piece::Literal(c) => seq![c],
        Piece::Escaped(c) => seq!['\\', c],
        Piece::Label(body) => seq!['['] + body + seq![']'],
    }
}

/// The text that a list of pieces makes.
pub open spec fn written(pieces: Seq<Piece>) -> Seq<char>
    decreases pieces.len(),
{
    if pieces.len() == 0 {
        Seq::empty()
    } else {
        piece_text(pieces[0]) + written(pieces.drop_first())
    }
}

/// The code units of a piece.
pub open spec fn piece_units(labels: Map<Seq<char>, EntryView>, piece: Piece) -> Seq<u16> {
    match piece {
        Piece::Literal(c) => char_units(c),
        Piece::Escaped(c) => char_units(c),
        Piece::Label(body) => seq![labels[body].value],
    }
}

/// The code units of a list of pieces.
pub open spec fn pieces_units(labels: Map<Seq<char>, EntryView>, pieces: Seq<Piece>) -> Seq<u16>
    decreases pieces.len(),
{
    if pieces.len() == 0 {
        Seq::empty()
    } else {
        piece_units(labels, pieces[0]) + pieces_units(labels, pieces.drop_first())
    }
}

/// A body that can stand between brackets as one label: not empty, without
/// `]`, and with at most one `:`.
pub open spec fn whole_label(body: Seq<char>) -> bool {
    &&& body.len() > 0
    &&& forall|i: int| 0 <= i < body.len() ==> body[i] != ']'
    &&& forall|i: int, j: int| 0 <= i < j < body.len() ==> !(body[i] == ':' && body[j] == ':')
}

/// The encoder takes the piece: a literal is neither `[` nor `\`, an escaped
/// character is one of the two, and a label is whole and filed in the index
/// by label.
pub open spec fn piece_encodes(labels: Map<Seq<char>, EntryView>, piece: Piece) -> bool {
    match piece {
        Piece::Literal(c) => c != '[' && c != '\\',
        Piece::Escaped(c) => c == '[' || c == '\\',
        Piece::Label(body) => whole_label(body) && labels.contains_key(body),
    }
}

/// The piece that the decoder writes for the code units of a piece.
pub open spec fn read_back(labels: Map<Seq<char>, EntryView>, index: Map<u16, EntryView>, piece: Piece) -> Piece {
    match piece {
        Piece::Label(body) => Piece::Label(index[labels[body].value].label),
        _ => piece,
    }
}

/// The pieces that the decoder writes for the code units of a list of
/// pieces.
pub open spec fn all_read_back(
    labels: Map<Seq<char>, EntryView>,
    index: Map<u16, EntryView>,
    pieces: Seq<Piece>,
) -> Seq<Piece> {
    Seq::new(pieces.len(), |i: int| read_back(labels, index, pieces[i]))
}

/// The decoder takes the code units of the piece for what they are: the
/// first code unit of a character stands for no record, and the code unit
/// of a label is filed in the index by code unit, under a record without
/// flags.
pub open spec fn piece_decodes(labels: Map<Seq<char>, EntryView>, index: Map<u16, EntryView>, piece: Piece) -> bool {
    match piece {
        Piece::Literal(c) => matched_entry(index, char_units(c)[0]) is None,
        Piece::Escaped(c) => matched_entry(index, char_units(c)[0]) is None,
        Piece::Label(body) => index.contains_key(labels[body].value) && index[labels[body].value].flags == 0,
    }
}

/// The piece goes round: both directions take it, and what the decoder
/// writes for it is encoded to the same code units.
pub open spec fn piece_goes_round(
    labels: Map<Seq<char>, EntryView>,
    index: Map<u16, EntryView>,
    piece: Piece,
) -> bool {
    &&& piece_encodes(labels, piece)
    &&& piece_decodes(labels, index, piece)
    &&& piece_encodes(labels, read_back(labels, index, piece))
    &&& piece_units(labels, read_back(labels, index, piece)) == piece_units(labels, piece)
}

/// The code units of a character, and how the decoder reads them.
pub proof fn lemma_char_units(c: char)
    ensures
        (c as u32) < 0x10000 ==> {
            &&& char_units(c) == seq![c as u16]
            &&& !is_surrogate(c as u16)
            &&& (c as u16) as char == c
            &&& (c == '[' <==> c as u16 == 0x5B)
            &&& (c == '\\' <==> c as u16 == 0x5C)
        },
        (c as u32) >= 0x10000 ==> {
            &&& char_units(c).len() == 2
            &&& is_high_surrogate(char_units(c)[0])
            &&& is_low_surrogate(char_units(c)[1])
            &&& pair_char(char_units(c)[0], char_units(c)[1]) == c
        },
{
    if (c as u32) >= 0x10000 {
        let rest = (c as u32 - 0x10000) as int;
        assert(0 <= rest < 0x100000);
        let high = 0xD800 + rest / 0x400;
        let low = 0xDC00 + rest % 0x400;
        assert(0xD800 <= high <= 0xDBFF);
        assert(0xDC00 <= low <= 0xDFFF);
        assert(char_units(c)[0] == high as u16);
        assert(char_units(c)[1] == low as u16);
        assert(0x10000 + (high - 0xD800) * 0x400 + (low - 0xDC00) == c as int);
    }
}

/// Where no `]` stands among the next `count` characters and one follows
/// them, the run before the closing bracket is `count` long.
pub proof fn lemma_run_before_close(text: Seq<char>, from: int, count: nat)
    requires
        0 <= from,
        from + count < text.len(),
        forall|i: int| from <= i < from + count ==> text[i] != ']',
        text[from + count] == ']',
    ensures
        run_before_close(text, from) == count,
    decreases count,
{
    if count > 0 {
        lemma_run_before_close(text, from + 1, (count - 1) as nat);
    }
}

/// Where no `:` stands from `at` on, the part that is being read is the
/// last one.
pub proof fn lemma_last_part(body: Seq<char>, from: int, at: int)
    requires
        0 <= from <= at <= body.len(),
        forall|i: int| at <= i < body.len() ==> body[i] != ':',
    ensures
        parts_from(body, from, at) == seq![body.subrange(from, body.len() as int)],
    decreases body.len() - at,
{
    if at < body.len() {
        lemma_last_part(body, from, at + 1);
    }
}

/// A body with at most one `:` has one part or two, and its parts put
/// together are the body.
pub proof fn lemma_parts_of_whole_label(body: Seq<char>, at: int)
    requires
        0 <= at <= body.len(),
        forall|i: int| 0 <= i < at ==> body[i] != ':',
        forall|i: int, j: int| 0 <= i < j < body.len() ==> !(body[i] == ':' && body[j] == ':'),
    ensures
        ({
            let parts = parts_from(body, 0, at);
            ||| parts.len() == 1 && parts[0] == body
            ||| parts.len() == 2 && parts[0] + parts[1] == body
        }),
    decreases body.len() - at,
{
    if at >= body.len() {
        assert(body.subrange(0, body.len() as int) =~= body);
    } else if body[at] == ':' {
        lemma_last_part(body, at + 1, at + 1);
        let parts = parts_from(body, 0, at);
        assert(parts =~= seq![body.subrange(0, at + 1), body.subrange(at + 1, body.len() as int)]);
        assert(parts[0] + parts[1] =~= body);
    } else {
        lemma_parts_of_whole_label(body, at + 1);
    }
}

/// A whole label that is filed in the index by label is encoded to the
/// code unit of its record.
pub proof fn lemma_label_units(labels: Map<Seq<char>, EntryView>, body: Seq<char>)
    requires
        whole_label(body),
        labels.contains_key(body),
    ensures
        placeholder_units(labels, body) == Ok::<Seq<u16>, EncodeFailure>(seq![labels[body].value]),
{
    lemma_parts_of_whole_label(body, 0);
    assert(parts_of(body) == parts_from(body, 0, 0));
}

/// Pieces that the encoder takes are encoded, one after the other, to
/// their code units.
pub proof fn lemma_encode_written(
    labels: Map<Seq<char>, EntryView>,
    pieces: Seq<Piece>,
    text: Seq<char>,
    pos: int,
    done: Seq<u16>,
)
    requires
        0 <= pos <= text.len(),
        text.skip(pos) == written(pieces),
        forall|i: int| 0 <= i < pieces.len() ==> piece_encodes(labels, #[trigger] pieces[i]),
    ensures
        encode_from(labels, text, pos, done) == Ok::<Seq<u16>, EncodeFailure>(done + pieces_units(labels, pieces)),
    decreases pieces.len(),
{
    if pieces.len() == 0 {
        assert(text.skip(pos).len() == 0);
        assert(done + pieces_units(labels, pieces) =~= done);
    } else {
        let piece = pieces[0];
        let rest = pieces.drop_first();
        let here = piece_text(piece);
        let after = pos + here.len();
        assert(piece_encodes(labels, piece));
        assert(written(pieces) == here + written(rest));
        assert(text.skip(pos).len() == text.len() - pos);
        assert(forall|k: int| 0 <= k < here.len() ==> text[pos + k] == here[k]) by {
            assert forall|k: int| 0 <= k < here.len() implies text[pos + k] == here[k] by {
                assert(text.skip(pos)[k] == written(pieces)[k]);
            }
        }
        assert(text.skip(pos).len() == here.len() + written(rest).len());
        assert(text.skip(after) =~= written(rest)) by {
            assert forall|k: int| 0 <= k < written(rest).len() implies text.skip(after)[k] == written(rest)[k] by {
                assert(text.skip(pos)[here.len() + k] == written(pieces)[here.len() + k]);
            }
        }
        assert forall|i: int| 0 <= i < rest.len() implies piece_encodes(labels, #[trigger] rest[i]) by {
            assert(rest[i] == pieces[i + 1]);
        }
        let next = done + piece_units(labels, piece);
        lemma_encode_written(labels, rest, text, after, next);
        assert(next + pieces_units(labels, rest) =~= done + pieces_units(labels, pieces));
        match piece {
            Piece::Literal(c) => {
                assert(text[pos + 0] == here[0]);
            },
            Piece::Escaped(c) => {
                assert(text[pos + 0] == here[0]);
                assert(text[pos + 1] == here[1]);
            },
            Piece::Label(body) => {
                assert(text[pos + 0] == here[0]);
                assert(forall|k: int| 0 <= k < body.len() ==> text[pos + 1 + k] == body[k]) by {
                    assert forall|k: int| 0 <= k < body.len() implies text[pos + 1 + k] == body[k] by {
                        assert(text[pos + (1 + k)] == here[1 + k]);
                    }
                }
                assert(text[pos + (1 + body.len())] == here[1 + body.len() as int]);
                assert forall|i: int| pos + 1 <= i < pos + 1 + body.len() implies text[i] != ']' by {
                    assert(text[pos + 1 + (i - pos - 1)] == body[i - pos - 1]);
                }
                lemma_run_before_close(text, pos + 1, body.len());
                let close = pos + 1 + body.len();
                assert(text.subrange(pos + 1, close) =~= body);
                lemma_label_units(labels, body);
            },
        }
    }
}

/// The code units of pieces that the decoder takes for what they are are
/// decoded, one piece after the other, to what it writes for each.
pub proof fn lemma_decode_units(
    labels: Map<Seq<char>, EntryView>,
    index: Map<u16, EntryView>,
    pieces: Seq<Piece>,
    units: Seq<u16>,
    pos: int,
    done: Seq<char>,
)
    requires
        0 <= pos <= units.len(),
        units.skip(pos) == pieces_units(labels, pieces),
        forall|i: int|
            0 <= i < pieces.len() ==> piece_encodes(labels, #[trigger] pieces[i]) && piece_decodes(
                labels,
                index,
                pieces[i],
            ),
    ensures
        decode_from(index, units, pos, done) == Ok::<Seq<char>, DecodeFailure>(
            done + written(all_read_back(labels, index, pieces)),
        ),
    decreases pieces.len(),
{
    let back = all_read_back(labels, index, pieces);
    if pieces.len() == 0 {
        assert(units.skip(pos).len() == 0);
        assert(done + written(back) =~= done);
    } else {
        let piece = pieces[0];
        let rest = pieces.drop_first();
        let here = piece_units(labels, piece);
        let after = pos + here.len();
        assert(piece_encodes(labels, piece) && piece_decodes(labels, index, piece));
        assert(pieces_units(labels, pieces) == here + pieces_units(labels, rest));
        assert(units.skip(pos).len() == units.len() - pos);
        assert(forall|k: int| 0 <= k < here.len() ==> units[pos + k] == here[k]) by {
            assert forall|k: int| 0 <= k < here.len() implies units[pos + k] == here[k] by {
                assert(units.skip(pos)[k] == pieces_units(labels, pieces)[k]);
            }
        }
        assert(units.skip(pos).len() == here.len() + pieces_units(labels, rest).len());
        assert(units.skip(after) =~= pieces_units(labels, rest)) by {
            assert forall|k: int| 0 <= k < pieces_units(labels, rest).len() implies units.skip(after)[k]
                == pieces_units(labels, rest)[k] by {
                assert(units.skip(pos)[here.len() + k] == pieces_units(labels, pieces)[here.len() + k]);
            }
        }
        assert forall|i: int| 0 <= i < rest.len() implies piece_encodes(labels, #[trigger] rest[i])
            && piece_decodes(labels, index, rest[i]) by {
            assert(rest[i] == pieces[i + 1]);
        }
        let next = done + piece_text(read_back(labels, index, piece));
        lemma_decode_units(labels, index, rest, units, after, next);
        assert(back.drop_first() =~= all_read_back(labels, index, rest));
        assert(back[0] == read_back(labels, index, piece));
        assert(next + written(all_read_back(labels, index, rest)) =~= done + written(back));
        match piece {
            Piece::Literal(c) => {
                lemma_char_units(c);
                assert(units[pos + 0] == here[0]);
                if (c as u32) >= 0x10000 {
                    assert(units[pos + 1] == here[1]);
                }
                assert(next =~= done.push(c));
            },
            Piece::Escaped(c) => {
                lemma_char_units(c);
                assert(units[pos + 0] == here[0]);
                assert(next =~= done + seq!['\\', c]);
            },
            Piece::Label(body) => {
                assert(units[pos + 0] == here[0]);
                let label = index[labels[body].value].label;
                assert(placeholder_text(label, Seq::empty()) =~= piece_text(Piece::Label(label)));
            },
        }
    }
}

/// What the decoder writes for pieces that go round has the code units of
/// the pieces.
pub proof fn lemma_read_back_units(
    labels: Map<Seq<char>, EntryView>,
    index: Map<u16, EntryView>,
    pieces: Seq<Piece>,
)
    requires
        forall|i: int| 0 <= i < pieces.len() ==> piece_goes_round(labels, index, #[trigger] pieces[i]),
    ensures
        pieces_units(labels, all_read_back(labels, index, pieces)) == pieces_units(labels, pieces),
    decreases pieces.len(),
{
    if pieces.len() > 0 {
        let rest = pieces.drop_first();
        assert forall|i: int| 0 <= i < rest.len() implies piece_goes_round(labels, index, #[trigger] rest[i]) by {
            assert(rest[i] == pieces[i + 1]);
        }
        lemma_read_back_units(labels, index, rest);
        assert(piece_goes_round(labels, index, pieces[0]));
        assert(all_read_back(labels, index, pieces).drop_first() =~= all_read_back(labels, index, rest));
    }
}

/// A text made of pieces that go round is encoded to code units that are
/// decoded to a text that is encoded to the same code units.
pub proof fn lemma_round_trip(labels: Map<Seq<char>, EntryView>, index: Map<u16, EntryView>, pieces: Seq<Piece>)
    requires
        forall|i: int| 0 <= i < pieces.len() ==> piece_goes_round(labels, index, #[trigger] pieces[i]),
    ensures
        encode_text(labels, written(pieces)) is Ok,
        decode_text(index, encode_text(labels, written(pieces))->Ok_0) is Ok,
        encode_text(labels, decode_text(index, encode_text(labels, written(pieces))->Ok_0)->Ok_0) == encode_text(
            labels,
            written(pieces),
        ),
{
    let text = written(pieces);
    let units = pieces_units(labels, pieces);
    let back = all_read_back(labels, index, pieces);
    assert(text.skip(0) =~= text);
    assert(units.skip(0) =~= units);
    assert forall|i: int| 0 <= i < pieces.len() implies piece_encodes(labels, #[trigger] pieces[i])
        && piece_decodes(labels, index, pieces[i]) by {
        assert(piece_goes_round(labels, index, pieces[i]));
    }
    lemma_encode_written(labels, pieces, text, 0, Seq::empty());
    assert(Seq::<u16>::empty() + units =~= units);
    lemma_decode_units(labels, index, pieces, units, 0, Seq::empty());
    assert(Seq::<char>::empty() + written(back) =~= written(back));
    assert forall|i: int| 0 <= i < back.len() implies piece_encodes(labels, #[trigger] back[i]) by {
        assert(piece_goes_round(labels, index, pieces[i]));
    }
    assert(written(back).skip(0) =~= written(back));
    lemma_encode_written(labels, back, written(back), 0, Seq::empty());
    lemma_read_back_units(labels, index, pieces);
    assert(Seq::<u16>::empty() + pieces_units(labels, back) =~= pieces_units(labels, back));
}

} // verus!
