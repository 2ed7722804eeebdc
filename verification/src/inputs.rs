//! The public inputs of a proof, as the prover writes them: a list of four
//! field elements, each in decimal between double quotes, such as
//! `["1", "2", "3", "4"]`.
//!
//! The text is cut at every double quote, so that every second piece stood
//! between quotes. There must be exactly four such pieces, and each must be
//! a field element in decimal. Before the first stands an opening bracket,
//! between two of them a comma, after the last a closing bracket, each with
//! nothing but white space around it. Every other text is refused.

use crate::field::{parse_field_value, Field};
use vstd::prelude::*;
use vstd::string::StrSliceExecFns;

verus! {

/// The index of the first double quote in a text, or the length of the text
/// if there is none.
pub open spec fn first_quote(text: Seq<char>) -> int
    decreases text.len(),
{
    if text.len() == 0 {
        0
    } else if text[0] == '"' {
        0
    } else {
        1 + first_quote(text.drop_first())
    }
}

/// The pieces into which the double quotes cut a text: one more than there
/// are quotes.
pub open spec fn split_on_quotes(text: Seq<char>) -> Seq<Seq<char>>
    decreases text.len(),
{
    let cut = first_quote(text);
    if 0 <= cut < text.len() {
        seq![text.take(cut)] + split_on_quotes(text.skip(cut + 1))
    } else {
        seq![text]
    }
}

/// White space between the parts of a list: a space, a tab, a line feed or a
/// carriage return.
pub open spec fn is_space(c: char) -> bool {
    c == ' ' || c == '\t' || c == '\n' || c == '\r'
}

/// The characters of a piece that are no white space, in their order.
pub open spec fn marks(piece: Seq<char>) -> Seq<char>
    decreases piece.len(),
{
    if piece.len() == 0 {
        Seq::empty()
    } else if is_space(piece.last()) {
        marks(piece.drop_last())
    } else {
        marks(piece.drop_last()).push(piece.last())
    }
}

/// The piece holds the mark once and nothing else but white space.
pub open spec fn is_mark(piece: Seq<char>, mark: char) -> bool {
    marks(piece) == seq![mark]
}

/// The text is a list of four quoted pieces: an opening bracket, four times
/// a piece between double quotes with a comma between two of them, and a
/// closing bracket, with nothing but white space around the brackets and the
/// commas.
pub open spec fn is_list_of_four(text: Seq<char>) -> bool {
    let pieces = split_on_quotes(text);
    &&& pieces.len() == 9
    &&& is_mark(pieces[0], '[')
    &&& is_mark(pieces[2], ',')
    &&& is_mark(pieces[4], ',')
    &&& is_mark(pieces[6], ',')
    &&& is_mark(pieces[8], ']')
}

/// The public inputs that a text holds: the four field elements of a list of
/// four quoted pieces, or `None` where the text is no such list or one of
/// the four pieces is no field element in decimal.
pub open spec fn public_inputs(text: Seq<char>) -> Option<Seq<nat>> {
    let pieces = split_on_quotes(text);
    if is_list_of_four(text) && parse_field_value(pieces[1]) is Some && parse_field_value(
        pieces[3],
    ) is Some && parse_field_value(pieces[5]) is Some && parse_field_value(pieces[7]) is Some {
        Some(
            seq![
                parse_field_value(pieces[1]).unwrap(),
                parse_field_value(pieces[3]).unwrap(),
                parse_field_value(pieces[5]).unwrap(),
                parse_field_value(pieces[7]).unwrap(),
            ],
        )
    } else {
        None
    }
}

/// The numbers that field elements stand for.
pub open spec fn values_of(fields: Seq<Field>) -> Seq<nat> {
    Seq::new(fields.len(), |i: int| fields[i]@)
}

/// The texts of a list of pieces.
pub open spec fn texts_of_pieces(pieces: Seq<&str>) -> Seq<Seq<char>> {
    Seq::new(pieces.len(), |i: int| pieces[i]@)
}

/// Where the first `at` characters hold no double quote and a double quote or
/// the end of the text follows, the first double quote is at `at`.
proof fn lemma_first_quote(text: Seq<char>, at: int)
    requires
        0 <= at <= text.len(),
        forall|j: int| 0 <= j < at ==> text[j] != '"',
        at < text.len() ==> text[at] == '"',
    ensures
        first_quote(text) == at,
    decreases at,
{
    if at > 0 {
        lemma_first_quote(text.drop_first(), at - 1);
    }
}

/// The pieces of a text from `start` on, where the next double quote is at
/// `at`, or the text ends at `at`.
proof fn lemma_split_step(text: Seq<char>, start: int, at: int)
    requires
        0 <= start <= at <= text.len(),
        forall|j: int| start <= j < at ==> text[j] != '"',
        at < text.len() ==> text[at] == '"',
    ensures
        split_on_quotes(text.skip(start)) == if at < text.len() {
            seq![text.subrange(start, at)] + split_on_quotes(text.skip(at + 1))
        } else {
            seq![text.subrange(start, at)]
        },
{
    let tail = text.skip(start);
    lemma_first_quote(tail, at - start);
    assert(tail.take(at - start) =~= text.subrange(start, at));
    if at < text.len() {
        assert(tail.skip(at - start + 1) =~= text.skip(at + 1));
    } else {
        assert(tail =~= text.subrange(start, at));
    }
}

/// The marks of the first characters of a piece are the first marks of the
/// piece.
proof fn lemma_marks_of_prefix(piece: Seq<char>, upto: int)
    requires
        0 <= upto <= piece.len(),
    ensures
        marks(piece.take(upto)).len() <= marks(piece).len(),
        marks(piece.take(upto)) == marks(piece).take(marks(piece.take(upto)).len() as int),
    decreases piece.len(),
{
    if upto == piece.len() {
        assert(piece.take(upto) =~= piece);
        assert(marks(piece).take(marks(piece).len() as int) =~= marks(piece));
    } else {
        let shorter = piece.drop_last();
        lemma_marks_of_prefix(shorter, upto);
        assert(shorter.take(upto) =~= piece.take(upto));
        let found = marks(piece.take(upto));
        assert(marks(piece).take(found.len() as int) =~= marks(shorter).take(found.len() as int));
    }
}

/// Whether the character at place `at` is `c`, one of the first 128
/// characters. In a text of ASCII characters the character is read in one
/// step.
fn is_char_at(text: &str, at: usize, ascii: bool, c: char) -> (r: bool)
    requires
        at < text@.len(),
        ascii ==> text.is_ascii(),
        c <= '\u{7f}',
    ensures
        r == (text@[at as int] == c),
{
    if ascii {
        text.get_ascii(at) == c as u8
    } else {
        text.get_char(at) == c
    }
}

/// Whether the character at place `at` is a double quote.
fn is_quote_at(text: &str, at: usize, ascii: bool) -> (r: bool)
    requires
        at < text@.len(),
        ascii ==> text.is_ascii(),
    ensures
        r == (text@[at as int] == '"'),
{
    is_char_at(text, at, ascii, '"')
}

/// Whether the character at place `at` is white space.
fn is_space_at(text: &str, at: usize, ascii: bool) -> (r: bool)
    requires
        at < text@.len(),
        ascii ==> text.is_ascii(),
    ensures
        r == is_space(text@[at as int]),
{
    is_char_at(text, at, ascii, ' ') || is_char_at(text, at, ascii, '\t') || is_char_at(
        text,
        at,
        ascii,
        '\n',
    ) || is_char_at(text, at, ascii, '\r')
}

/// Whether a piece holds the mark once and nothing else but white space.
fn holds_mark(piece: &str, mark: char) -> (r: bool)
    requires
        mark <= '\u{7f}',
        !is_space(mark),
    ensures
        r == is_mark(piece@, mark),
{
    let ascii = piece.is_ascii();
    let len = piece.unicode_len();
    let mut seen = false;
    let mut at: usize = 0;
    proof {
        assert(piece@.take(0) =~= Seq::<char>::empty());
    }
    while at < len
        invariant
            len == piece@.len(),
            ascii ==> piece.is_ascii(),
            mark <= '\u{7f}',
            !is_space(mark),
            at <= len,
            marks(piece@.take(at as int)) == if seen {
                seq![mark]
            } else {
                Seq::<char>::empty()
            },
        decreases len - at,
    {
        proof {
            assert(piece@.take(at + 1).drop_last() =~= piece@.take(at as int));
            assert(piece@.take(at + 1).last() == piece@[at as int]);
        }
        if !is_space_at(piece, at, ascii) {
            if !seen && is_char_at(piece, at, ascii, mark) {
                seen = true;
            } else {
                proof {
                    lemma_marks_of_prefix(piece@, at + 1);
                    let found = marks(piece@.take(at + 1));
                    assert(found.len() == 2 || found[0] != mark);
                    if marks(piece@) == seq![mark] {
                        assert(found == seq![mark].take(found.len() as int));
                        assert(found[0] == mark);
                    }
                }
                return false;
            }
        }
        at = at + 1;
    }
    proof {
        assert(piece@.take(len as int) =~= piece@);
        if !seen {
            assert(marks(piece@).len() == 0);
        }
    }
    seen
}

/// The piece of a text from place `from` up to place `to`.
fn piece_of<'a>(text: &'a str, from: usize, to: usize, ascii: bool) -> (r: &'a str)
    requires
        from <= to <= text@.len(),
        ascii ==> text.is_ascii(),
    ensures
        r@ == text@.subrange(from as int, to as int),
{
    if ascii {
        text.substring_ascii(from, to)
    } else {
        text.substring_char(from, to)
    }
}

/// Cuts a text at every double quote.
pub fn split_at_quotes<'a>(text: &'a str) -> (pieces: Vec<&'a str>)
    ensures
        texts_of_pieces(pieces@) == split_on_quotes(text@),
{
    let ascii = text.is_ascii();
    let len = text.unicode_len();
    let mut pieces: Vec<&'a str> = Vec::new();
    let mut start: usize = 0;
    let mut at: usize = 0;
    proof {
        assert(text@.skip(0) =~= text@);
        assert(texts_of_pieces(pieces@) + split_on_quotes(text@.skip(0)) =~= split_on_quotes(
            text@,
        ));
    }
    while at < len
        invariant
            len == text@.len(),
            ascii ==> text.is_ascii(),
            start <= at <= len,
            forall|j: int| start <= j < at ==> text@[j] != '"',
            texts_of_pieces(pieces@) + split_on_quotes(text@.skip(start as int))
                == split_on_quotes(text@),
        decreases len - at,
    {
        if is_quote_at(text, at, ascii) {
            proof {
                lemma_split_step(text@, start as int, at as int);
            }
            let ghost before = pieces@;
            let piece = piece_of(text, start, at, ascii);
            pieces.push(piece);
            proof {
                assert(texts_of_pieces(pieces@) =~= texts_of_pieces(before) + seq![piece@]);
                assert(texts_of_pieces(pieces@) + split_on_quotes(text@.skip(at + 1))
                    =~= texts_of_pieces(before) + (seq![piece@] + split_on_quotes(
                    text@.skip(at + 1),
                )));
            }
            start = at + 1;
        }
        at = at + 1;
    }
    proof {
        lemma_split_step(text@, start as int, len as int);
    }
    let ghost before = pieces@;
    let piece = piece_of(text, start, len, ascii);
    pieces.push(piece);
    proof {
        assert(texts_of_pieces(pieces@) =~= texts_of_pieces(before) + seq![piece@]);
    }
    pieces
}

/// Reads the four public inputs from a text, or says that the text is no
/// list of exactly four field elements in decimal between double quotes.
pub fn parse_public_inputs(text: &str) -> (r: Option<Vec<Field>>)
    ensures
        match r {
            Some(fields) => fields@.len() == 4 && public_inputs(text@) == Some(values_of(fields@)),
            None => public_inputs(text@) is None,
        },
{
    let pieces = split_at_quotes(text);
    if pieces.len() != 9 {
        return None;
    }
    proof {
        assert(texts_of_pieces(pieces@)[0] == pieces@[0]@);
        assert(texts_of_pieces(pieces@)[2] == pieces@[2]@);
        assert(texts_of_pieces(pieces@)[4] == pieces@[4]@);
        assert(texts_of_pieces(pieces@)[6] == pieces@[6]@);
        assert(texts_of_pieces(pieces@)[8] == pieces@[8]@);
    }
    if !(holds_mark(pieces[0], '[') && holds_mark(pieces[2], ',') && holds_mark(pieces[4], ',')
        && holds_mark(pieces[6], ',') && holds_mark(pieces[8], ']')) {
        return None;
    }
    proof {
        assert(texts_of_pieces(pieces@)[1] == pieces@[1]@);
        assert(texts_of_pieces(pieces@)[3] == pieces@[3]@);
        assert(texts_of_pieces(pieces@)[5] == pieces@[5]@);
        assert(texts_of_pieces(pieces@)[7] == pieces@[7]@);
    }
    let mut fields: Vec<Field> = Vec::with_capacity(4);
    let mut at: usize = 0;
    while at < 4
        invariant
            at <= 4,
            pieces@.len() == 9,
            is_list_of_four(text@),
            texts_of_pieces(pieces@) == split_on_quotes(text@),
            fields@.len() == at,
            forall|k: int|
                0 <= k < at ==> parse_field_value(pieces@[2 * k + 1]@) == Some(
                    (#[trigger] fields@[k])@,
                ),
        decreases 4 - at,
    {
        match Field::parse(pieces[2 * at + 1]) {
            Some(field) => {
                fields.push(field);
            },
            None => {
                proof {
                    assert(texts_of_pieces(pieces@)[2 * at + 1] == pieces@[2 * at + 1]@);
                }
                return None;
            },
        }
        at = at + 1;
    }
    proof {
        assert(parse_field_value(pieces@[1]@) == Some(fields@[0]@));
        assert(parse_field_value(pieces@[3]@) == Some(fields@[1]@));
        assert(parse_field_value(pieces@[5]@) == Some(fields@[2]@));
        assert(parse_field_value(pieces@[7]@) == Some(fields@[3]@));
        assert(values_of(fields@) =~= public_inputs(text@).unwrap());
    }
    Some(fields)
}

} // verus!
