//! The text of mesh files: lines, words, and the corners of faces.
//!
//! A mesh file is a text of lines, and each line a row of words with one
//! space between each two. The first word of a line says what the line is
//! about. The real numbers of a mesh are left as words; what is read here is
//! the layout of the text and the whole numbers in it.

use vstd::prelude::*;

verus! {

/// A stretch of a text: its bytes from `start` up to, not including, `end`.
#[derive(Clone, Copy, Debug, PartialEq, Eq)]
pub struct Span {
    pub start: usize,
    pub end: usize,
}

/// What a line of a mesh file is about.
#[derive(Clone, Copy, Debug, PartialEq, Eq, Structural)]
pub enum LineKind {
    /// `g`: the colour of the key points that follow.
    Material,
    /// `v`: the positions of one key point.
    Vertex,
    /// `f`: the three corners of a face.
    Face,
    /// Any other line.
    Other,
}

/// Why the corners of a face cannot be read.
#[derive(Clone, Copy, Debug, PartialEq, Eq, Structural)]
pub enum MeshError {
    /// The line has fewer than three words after its first.
    MissingWord,
    /// A corner is not written as an index.
    BadIndex,
}

impl Span {
    /// The stretch lies inside a text of `len` bytes.
    pub open spec fn fits(self, len: nat) -> bool {
        self.start <= self.end <= len
    }

    /// The bytes of the stretch.
    pub open spec fn of(self, text: Seq<u8>) -> Seq<u8> {
        text.subrange(self.start as int, self.end as int)
    }
}

/// `pieces` are the stretches into which `separator` cuts the stretch `whole`
/// of `text`: the first begins where `whole` begins, each next one begins
/// behind the separator that ends the one before, the last ends where `whole`
/// ends, and no piece holds a separator.
pub open spec fn is_split(text: Seq<u8>, whole: Span, separator: u8, pieces: Seq<Span>) -> bool {
    &&& pieces.len() > 0
    &&& pieces.first().start == whole.start
    &&& pieces.last().end == whole.end
    &&& forall|i: int| 0 <= i < pieces.len() ==> (#[trigger] pieces[i]).start <= pieces[i].end
    &&& forall|i: int|
        0 <= i < pieces.len() - 1 ==> (#[trigger] pieces[i]).end + 1 == pieces[i + 1].start
            && text[pieces[i].end as int] == separator
    &&& forall|i: int, k: int|
        0 <= i < pieces.len() && (#[trigger] pieces[i]).start <= k < pieces[i].end
            ==> #[trigger] text[k] != separator
}

/// The number that a row of decimal digits writes.
pub open spec fn digits_value(digits: Seq<u8>) -> nat
    decreases digits.len(),
{
    if digits.len() == 0 {
        0
    } else {
        10 * digits_value(digits.drop_last()) + (digits.last() - 48) as nat
    }
}

/// Every byte of `word` is a decimal digit.
pub open spec fn all_digits(word: Seq<u8>) -> bool {
    forall|i: int| 0 <= i < word.len() ==> 48 <= #[trigger] word[i] <= 57
}

/// The index that `word` writes: a `+` or nothing, then one decimal digit or
/// more, for a number that a `usize` can hold.
pub open spec fn index_written(word: Seq<u8>) -> Option<usize> {
    let digits = if word.len() > 0 && word[0] == 43 {
        word.skip(1)
    } else {
        word
    };
    if digits.len() > 0 && all_digits(digits) && digits_value(digits) <= usize::MAX {
        Some(digits_value(digits) as usize)
    } else {
        None
    }
}

/// What a line is about whose first word is `word`.
pub open spec fn kind_written(word: Seq<u8>) -> LineKind {
    if word.len() != 1 {
        LineKind::Other
    } else if word[0] == 103 {
        LineKind::Material
    } else if word[0] == 118 {
        LineKind::Vertex
    } else if word[0] == 102 {
        LineKind::Face
    } else {
        LineKind::Other
    }
}

/// An index as the graphics device takes it: its low 32 bits.
pub open spec fn corner(index: usize) -> u32 {
    (index as int % 0x1_0000_0000) as u32
}

/// The corners that a face line writes: the three words after its first, each
/// read as an index.
pub open spec fn face_written(text: Seq<u8>, words: Seq<Span>) -> Result<
    (u32, u32, u32),
    MeshError,
> {
    if words.len() < 4 {
        Err(MeshError::MissingWord)
    } else {
        match (
            index_written(words[1].of(text)),
            index_written(words[2].of(text)),
            index_written(words[3].of(text)),
        ) {
            (Some(a), Some(b), Some(c)) => Ok((corner(a), corner(b), corner(c))),
            _ => Err(MeshError::BadIndex),
        }
    }
}

/// The pieces of a split follow one another: a later piece ends no earlier,
/// and begins behind the end of every piece before it.
proof fn lemma_pieces_in_order(
    text: Seq<u8>,
    whole: Span,
    separator: u8,
    pieces: Seq<Span>,
    i: int,
    j: int,
)
    requires
        is_split(text, whole, separator, pieces),
        0 <= i <= j < pieces.len(),
    ensures
        pieces[i].end <= pieces[j].end,
        i < j ==> pieces[i].end < pieces[j].start,
    decreases j - i,
{
    if i < j {
        lemma_pieces_in_order(text, whole, separator, pieces, i + 1, j);
        assert(pieces[i].end + 1 == pieces[i + 1].start);
        assert(pieces[i + 1].start <= pieces[i + 1].end);
    }
}

/// Two splits of the same stretch agree on every piece that both have.
proof fn lemma_splits_agree(
    text: Seq<u8>,
    whole: Span,
    separator: u8,
    a: Seq<Span>,
    b: Seq<Span>,
    n: int,
)
    requires
        is_split(text, whole, separator, a),
        is_split(text, whole, separator, b),
        0 <= n < a.len(),
        n < b.len(),
    ensures
        a[n] == b[n],
    decreases n,
{
    if n > 0 {
        lemma_splits_agree(text, whole, separator, a, b, n - 1);
        assert(a[n - 1].end + 1 == a[n].start);
        assert(b[n - 1].end + 1 == b[n].start);
    }
    assert(a[n].start == b[n].start);
    lemma_pieces_in_order(text, whole, separator, a, n, a.len() - 1);
    lemma_pieces_in_order(text, whole, separator, b, n, b.len() - 1);
    if a[n].end < b[n].end {
        assert(n < a.len() - 1);
        assert(text[a[n].end as int] == separator);
        assert(b[n].start <= a[n].end < b[n].end);
        assert(text[a[n].end as int] != separator);
    }
    if b[n].end < a[n].end {
        assert(n < b.len() - 1);
        assert(text[b[n].end as int] == separator);
        assert(a[n].start <= b[n].end < a[n].end);
        assert(text[b[n].end as int] != separator);
    }
}

/// A stretch is split in one way only.
pub proof fn lemma_split_unique(
    text: Seq<u8>,
    whole: Span,
    separator: u8,
    a: Seq<Span>,
    b: Seq<Span>,
)
    requires
        is_split(text, whole, separator, a),
        is_split(text, whole, separator, b),
    ensures
        a == b,
{
    if a.len() < b.len() {
        let n = a.len() - 1;
        lemma_splits_agree(text, whole, separator, a, b, n);
        lemma_pieces_in_order(text, whole, separator, b, n + 1, b.len() - 1);
        assert(b[n].end + 1 == b[n + 1].start);
        assert(b[n + 1].start <= b[n + 1].end);
        assert(false);
    }
    if b.len() < a.len() {
        let n = b.len() - 1;
        lemma_splits_agree(text, whole, separator, a, b, n);
        lemma_pieces_in_order(text, whole, separator, a, n + 1, a.len() - 1);
        assert(a[n].end + 1 == a[n + 1].start);
        assert(a[n + 1].start <= a[n + 1].end);
        assert(false);
    }
    assert forall|i: int| 0 <= i < a.len() implies a[i] == b[i] by {
        lemma_splits_agree(text, whole, separator, a, b, i);
    }
    assert(a =~= b);
}

/// A row of digits writes at least what any row it begins with writes.
proof fn lemma_digits_grow(digits: Seq<u8>, n: int)
    requires
        0 <= n <= digits.len(),
        all_digits(digits),
    ensures
        digits_value(digits.take(n)) <= digits_value(digits),
    decreases digits.len() - n,
{
    if n < digits.len() {
        lemma_digits_grow(digits, n + 1);
        assert(digits.take(n + 1).drop_last() =~= digits.take(n));
    } else {
        assert(digits.take(n) =~= digits);
    }
}

/// Cuts the stretch `whole` of `text` at every `separator`.
///
/// Two separators in a row have an empty piece between them, and so has a
/// separator at either end of `whole` on its outer side; a stretch without a
/// separator is one piece.
pub fn split(text: &[u8], whole: Span, separator: u8) -> (pieces: Vec<Span>)
    requires
        whole.fits(text@.len()),
    ensures
        is_split(text@, whole, separator, pieces@),
        forall|i: int| 0 <= i < pieces@.len() ==> (#[trigger] pieces@[i]).fits(text@.len()),
{
    let mut pieces: Vec<Span> = Vec::new();
    let mut start: usize = whole.start;
    let mut i: usize = whole.start;
    while i < whole.end
        invariant
            whole.start <= start <= i <= whole.end <= text@.len(),
            pieces@.len() == 0 ==> start == whole.start,
            pieces@.len() > 0 ==> pieces@.first().start == whole.start && pieces@.last().end + 1
                == start && text@[pieces@.last().end as int] == separator,
            forall|j: int| 0 <= j < pieces@.len() ==> (#[trigger] pieces@[j]).start <= pieces@[j].end,
            forall|j: int| 0 <= j < pieces@.len() ==> (#[trigger] pieces@[j]).end < start,
            forall|j: int|
                0 <= j < pieces@.len() - 1 ==> (#[trigger] pieces@[j]).end + 1 == pieces@[j
                    + 1].start && text@[pieces@[j].end as int] == separator,
            forall|j: int, k: int|
                0 <= j < pieces@.len() && (#[trigger] pieces@[j]).start <= k < pieces@[j].end
                    ==> #[trigger] text@[k] != separator,
            forall|k: int| start <= k < i ==> #[trigger] text@[k] != separator,
        decreases whole.end - i,
    {
        if text[i] == separator {
            pieces.push(Span { start, end: i });
            start = i + 1;
        }
        i += 1;
    }
    pieces.push(Span { start, end: whole.end });
    pieces
}

/// What a line is about, by its first word.
pub fn line_kind(text: &[u8], first_word: Span) -> (kind: LineKind)
    requires
        first_word.fits(text@.len()),
    ensures
        kind == kind_written(first_word.of(text@)),
{
    if first_word.end - first_word.start != 1 {
        return LineKind::Other;
    }
    let letter = text[first_word.start];
    assert(first_word.of(text@)[0] == letter);
    if letter == 103 {
        LineKind::Material
    } else if letter == 118 {
        LineKind::Vertex
    } else if letter == 102 {
        LineKind::Face
    } else {
        LineKind::Other
    }
}

/// Reads `word` as an index.
pub fn parse_index(text: &[u8], word: Span) -> (index: Option<usize>)
    requires
        word.fits(text@.len()),
    ensures
        index == index_written(word.of(text@)),
{
    let ghost written = word.of(text@);
    let mut i: usize = word.start;
    if i < word.end && text[i] == 43 {
        assert(written[0] == 43);
        i += 1;
    } else {
        assert(i < word.end ==> written[0] != 43);
    }
    let first: usize = i;
    let ghost digits = text@.subrange(first as int, word.end as int);
    assert(digits =~= if written.len() > 0 && written[0] == 43 {
        written.skip(1)
    } else {
        written
    });
    if i == word.end {
        return None;
    }
    let mut value: usize = 0;
    while i < word.end
        invariant
            word.start <= first <= i <= word.end <= text@.len(),
            written == word.of(text@),
            digits == text@.subrange(first as int, word.end as int),
            digits == if written.len() > 0 && written[0] == 43 {
                written.skip(1)
            } else {
                written
            },
            all_digits(digits.take(i - first)),
            value == digits_value(digits.take(i - first)),
        decreases word.end - i,
    {
        let byte = text[i];
        let ghost seen = digits.take(i - first + 1);
        assert(seen.drop_last() =~= digits.take(i - first));
        assert(seen.last() == byte);
        if byte < 48 || byte > 57 {
            assert(!all_digits(digits)) by {
                assert(digits[i - first] == byte);
            }
            return None;
        }
        let digit: usize = (byte - 48) as usize;
        let next = match value.checked_mul(10) {
            Some(tens) => tens.checked_add(digit),
            None => None,
        };
        match next {
            Some(sum) => {
                value = sum;
            },
            None => {
                proof {
                    assert(digits_value(seen) > usize::MAX);
                    if all_digits(digits) {
                        lemma_digits_grow(digits, i - first + 1);
                    }
                }
                return None;
            },
        }
        i += 1;
    }
    assert(digits.take(i - first) =~= digits);
    Some(value)
}

/// Reads the three corners of a face from the words of its line.
pub fn read_face(text: &[u8], words: &Vec<Span>) -> (face: Result<(u32, u32, u32), MeshError>)
    requires
        forall|i: int| 0 <= i < words@.len() ==> (#[trigger] words@[i]).fits(text@.len()),
    ensures
        face == face_written(text@, words@),
{
    if words.len() < 4 {
        return Err(MeshError::MissingWord);
    }
    let a = parse_index(text, words[1]);
    let b = parse_index(text, words[2]);
    let c = parse_index(text, words[3]);
    match (a, b, c) {
        (Some(a), Some(b), Some(c)) => Ok((low_bits(a), low_bits(b), low_bits(c))),
        _ => Err(MeshError::BadIndex),
    }
}

/// The low 32 bits of an index.
fn low_bits(index: usize) -> (low: u32)
    ensures
        low == corner(index),
{
    (index as u64 % 0x1_0000_0000) as u32
}

} // verus!
