//! Characters, character classes and the scanned document.
//!
//! A document is modelled as a `Seq<char>`; positions are indices into that
//! sequence. Everything the grammar needs from a text is stated here over
//! that model: membership of a character in a class, the end of a run of
//! characters of one class, the presence of a fixed word at a position, and
//! the line and column of a position.

use vstd::prelude::*;
use vstd::string::*;
use vstd::utf8::{
    char_is_scalar, encode_scalar, encode_utf8, encode_utf8_decode_utf8, encode_utf8_first_scalar,
    encode_utf8_valid_utf8, is_char_boundary, length_of_first_scalar, pop_first_scalar,
};

verus! {

/// A space or a horizontal tab.
pub open spec fn is_blank(c: char) -> bool {
    c == ' ' || c == '\t'
}

/// A line feed or a carriage return.
pub open spec fn is_line_break(c: char) -> bool {
    c == '\n' || c == '\r'
}

/// An ASCII letter.
pub open spec fn is_letter(c: char) -> bool {
    ('a' <= c && c <= 'z') || ('A' <= c && c <= 'Z')
}

/// An ASCII decimal digit.
pub open spec fn is_digit(c: char) -> bool {
    '0' <= c && c <= '9'
}

/// A character that may open an identifier: a letter or an underscore.
pub open spec fn is_ident_start(c: char) -> bool {
    is_letter(c) || c == '_'
}

/// The sets of characters that the grammar scans runs of.
#[derive(Debug, Clone, Copy, PartialEq, Eq, Structural)]
pub enum CharClass {
    /// Spaces and tabs.
    Blank,
    /// Spaces, tabs and line breaks.
    Layout,
    /// What may follow the first character of a class identifier:
    /// letters, digits, underscore and hyphen.
    IdentTail,
    /// What may follow the first character of a member or parameter name:
    /// letters, digits and underscore.
    NameTail,
    /// The inside of a generic suffix: anything but `~` and a line break.
    GenericText,
    /// The inside of a quoted string: anything but `"` and a line break.
    QuotedText,
    /// The inside of a stereotype annotation: anything but `>` and a line break.
    AnnotationText,
    /// The rest of a line: anything but a line break.
    LineText,
}

/// Whether `c` belongs to the class `k`.
pub open spec fn in_class(k: CharClass, c: char) -> bool {
    match k {
        CharClass::Blank => is_blank(c),
        CharClass::Layout => is_blank(c) || is_line_break(c),
        CharClass::IdentTail => is_ident_start(c) || is_digit(c) || c == '-',
        CharClass::NameTail => is_ident_start(c) || is_digit(c),
        CharClass::GenericText => c != '~' && !is_line_break(c),
        CharClass::QuotedText => c != '"' && !is_line_break(c),
        CharClass::AnnotationText => c != '>' && !is_line_break(c),
        CharClass::LineText => !is_line_break(c),
    }
}

/// The end of the longest run of characters of class `k` that starts at `i`:
/// the first position at or after `i` whose character is not in `k`, or the
/// end of `s`.
pub open spec fn scan(s: Seq<char>, i: int, k: CharClass) -> int
    decreases s.len() - i,
{
    if 0 <= i < s.len() && in_class(k, s[i]) {
        scan(s, i + 1, k)
    } else {
        i
    }
}

/// Whether the character at position `i` of `s` is `c`.
pub open spec fn is_at(s: Seq<char>, i: int, c: char) -> bool {
    0 <= i < s.len() && s[i] == c
}

/// Whether `word` stands in `s` at position `i`.
pub open spec fn word_at(s: Seq<char>, i: int, word: Seq<char>) -> bool {
    0 <= i && i + word.len() <= s.len() && s.subrange(i, i + word.len()) == word
}

/// The position at which the line holding position `pos` begins.
pub open spec fn line_start(s: Seq<char>, pos: int) -> int
    decreases pos,
{
    if pos <= 0 {
        0
    } else if pos <= s.len() && s[pos - 1] == '\n' {
        pos
    } else {
        line_start(s, pos - 1)
    }
}

/// The number of line feeds before position `pos`.
pub open spec fn line_feeds_before(s: Seq<char>, pos: int) -> nat
    decreases pos,
{
    if pos <= 0 {
        0
    } else if pos <= s.len() && s[pos - 1] == '\n' {
        1 + line_feeds_before(s, pos - 1)
    } else {
        line_feeds_before(s, pos - 1)
    }
}

/// The line of position `pos`, counted from 1.
pub open spec fn line_of(s: Seq<char>, pos: int) -> nat {
    1 + line_feeds_before(s, pos)
}

/// The column of position `pos` within its line, counted from 1 in characters.
pub open spec fn column_of(s: Seq<char>, pos: int) -> nat {
    (pos - line_start(s, pos) + 1) as nat
}

/// A run ends between its start and the end of the text.
pub proof fn lemma_scan_bounds(s: Seq<char>, i: int, k: CharClass)
    requires
        0 <= i <= s.len(),
    ensures
        i <= scan(s, i, k) <= s.len(),
    decreases s.len() - i,
{
    if i < s.len() && in_class(k, s[i]) {
        lemma_scan_bounds(s, i + 1, k);
    }
}

/// A run holds only characters of its class and stops at the first other one.
pub proof fn lemma_scan_run(s: Seq<char>, i: int, k: CharClass)
    requires
        0 <= i <= s.len(),
    ensures
        forall|j: int| i <= j < scan(s, i, k) ==> in_class(k, #[trigger] s[j]),
        scan(s, i, k) < s.len() ==> !in_class(k, s[scan(s, i, k)]),
    decreases s.len() - i,
{
    if i < s.len() && in_class(k, s[i]) {
        lemma_scan_run(s, i + 1, k);
    }
}

/// A stretch of characters of class `k` that is followed by the end of the
/// text or by a character outside `k` is exactly the run from its start.
pub proof fn lemma_scan_stops(s: Seq<char>, i: int, j: int, k: CharClass)
    requires
        0 <= i <= j <= s.len(),
        forall|p: int| i <= p < j ==> in_class(k, #[trigger] s[p]),
        j < s.len() ==> !in_class(k, s[j]),
    ensures
        scan(s, i, k) == j,
    decreases j - i,
{
    if i < j {
        lemma_scan_stops(s, i + 1, j, k);
    }
}

/// A word stands at a position exactly where each of its characters does.
pub proof fn lemma_word_at(s: Seq<char>, i: int, word: Seq<char>)
    ensures
        word_at(s, i, word) <==> (0 <= i && i + word.len() <= s.len() && forall|k: int|
            0 <= k < word.len() ==> s[i + k] == #[trigger] word[k]),
{
    if 0 <= i && i + word.len() <= s.len() {
        let part = s.subrange(i, i + word.len());
        if part == word {
            assert forall|k: int| 0 <= k < word.len() implies s[i + k] == #[trigger] word[k] by {
                assert(part[k] == s[i + k]);
            }
        }
        if forall|k: int| 0 <= k < word.len() ==> s[i + k] == #[trigger] word[k] {
            assert(part =~= word);
        }
    }
}

impl CharClass {
    /// Whether `c` belongs to this class.
    pub fn contains(self, c: char) -> (b: bool)
        ensures
            b == in_class(self, c),
    {
        let letter = ('a' <= c && c <= 'z') || ('A' <= c && c <= 'Z');
        let digit = '0' <= c && c <= '9';
        let line_break = c == '\n' || c == '\r';
        match self {
            CharClass::Blank => c == ' ' || c == '\t',
            CharClass::Layout => c == ' ' || c == '\t' || line_break,
            CharClass::IdentTail => letter || c == '_' || digit || c == '-',
            CharClass::NameTail => letter || c == '_' || digit,
            CharClass::GenericText => c != '~' && !line_break,
            CharClass::QuotedText => c != '"' && !line_break,
            CharClass::AnnotationText => c != '>' && !line_break,
            CharClass::LineText => !line_break,
        }
    }
}

/// Whether `c` may open an identifier.
pub fn ident_start(c: char) -> (b: bool)
    ensures
        b == is_ident_start(c),
{
    ('a' <= c && c <= 'z') || ('A' <= c && c <= 'Z') || c == '_'
}

/// Whether two strings hold the same characters.
pub fn same_text(a: &str, b: &str) -> (r: bool)
    ensures
        r == (a@ == b@),
{
    let x = a.as_bytes();
    let y = b.as_bytes();
    proof {
        if x@ == y@ {
            lemma_encode_is_injective(a@, b@);
        }
    }
    if x.len() != y.len() {
        return false;
    }
    let mut i: usize = 0;
    while i < x.len()
        invariant
            i <= x.len(),
            x.len() == y.len(),
            x@ == a.spec_bytes(),
            y@ == b.spec_bytes(),
            forall|j: int| 0 <= j < i ==> x@[j] == y@[j],
        decreases x.len() - i,
    {
        if x[i] != y[i] {
            return false;
        }
        i += 1;
    }
    assert(x@ =~= y@);
    true
}

/// The number of bytes that encode the first `i` characters of `s`.
pub open spec fn prefix_bytes(s: Seq<char>, i: int) -> nat {
    encode_utf8(s.take(i)).len()
}

/// The encoding of two texts in a row is the encoding of the first and
/// then that of the second.
pub proof fn lemma_encode_add(a: Seq<char>, b: Seq<char>)
    ensures
        encode_utf8(a + b) == encode_utf8(a) + encode_utf8(b),
    decreases a.len(),
{
    if a.len() == 0 {
        assert(a + b =~= b);
        assert(encode_utf8(a) + encode_utf8(b) =~= encode_utf8(b));
    } else {
        assert((a + b).drop_first() =~= a.drop_first() + b);
        lemma_encode_add(a.drop_first(), b);
        assert(encode_utf8(a + b) =~= encode_utf8(a) + encode_utf8(b));
    }
}

/// Two texts with the same encoding are the same text.
pub proof fn lemma_encode_is_injective(a: Seq<char>, b: Seq<char>)
    requires
        encode_utf8(a) == encode_utf8(b),
    ensures
        a == b,
{
    encode_utf8_decode_utf8(a);
    encode_utf8_decode_utf8(b);
}

/// The encoding of a text is that of its first `i` characters and then
/// that of the rest; one character more takes the bytes of that character
/// more.
pub proof fn lemma_prefix_bytes(s: Seq<char>, i: int)
    requires
        0 <= i <= s.len(),
    ensures
        encode_utf8(s) == encode_utf8(s.take(i)) + encode_utf8(s.skip(i)),
        prefix_bytes(s, i) <= encode_utf8(s).len(),
        encode_utf8(s).subrange(0, prefix_bytes(s, i) as int) == encode_utf8(s.take(i)),
        encode_utf8(s).subrange(prefix_bytes(s, i) as int, encode_utf8(s).len() as int)
            == encode_utf8(s.skip(i)),
        i < s.len() ==> prefix_bytes(s, i + 1) == prefix_bytes(s, i) + encode_scalar(
            s[i] as u32,
        ).len(),
{
    assert(s =~= s.take(i) + s.skip(i));
    lemma_encode_add(s.take(i), s.skip(i));
    let whole = encode_utf8(s.take(i)) + encode_utf8(s.skip(i));
    assert(whole.subrange(0, prefix_bytes(s, i) as int) =~= encode_utf8(s.take(i)));
    assert(whole.subrange(prefix_bytes(s, i) as int, whole.len() as int) =~= encode_utf8(
        s.skip(i),
    ));
    if i < s.len() {
        let one = seq![s[i]];
        assert(s.take(i + 1) =~= s.take(i) + one);
        lemma_encode_add(s.take(i), one);
        assert(one.drop_first() =~= Seq::<char>::empty());
        assert(encode_utf8(one) =~= encode_scalar(s[i] as u32)) by {
            reveal_with_fuel(encode_utf8, 2);
        }
    }
}

/// The bytes of the first characters of a text end at the boundary of a
/// character in its encoding.
pub proof fn lemma_prefix_is_boundary(s: Seq<char>, i: int)
    requires
        0 <= i <= s.len(),
    ensures
        is_char_boundary(encode_utf8(s), prefix_bytes(s, i) as int),
    decreases i,
{
    let bytes = encode_utf8(s);
    encode_utf8_valid_utf8(s);
    if i > 0 {
        let rest = s.drop_first();
        lemma_prefix_bytes(s, i);
        encode_utf8_first_scalar(s);
        assert(pop_first_scalar(bytes) =~= encode_utf8(rest));
        assert(s.take(i) =~= seq![s[0]] + rest.take(i - 1));
        lemma_encode_add(seq![s[0]], rest.take(i - 1));
        assert(seq![s[0]].drop_first() =~= Seq::<char>::empty());
        assert(encode_utf8(seq![s[0]]) =~= encode_scalar(s[0] as u32)) by {
            reveal_with_fuel(encode_utf8, 2);
        }
        lemma_prefix_is_boundary(rest, i - 1);
        assert(prefix_bytes(s, i) - length_of_first_scalar(bytes) == prefix_bytes(rest, i - 1));
        assert(prefix_bytes(s, i) > 0);
    } else {
        assert(s.take(0) =~= Seq::<char>::empty());
    }
}

/// The number of bytes that encode `c`.
pub fn utf8_width(c: char) -> (w: usize)
    ensures
        w == encode_scalar(c as u32).len(),
        1 <= w <= 4,
{
    proof {
        char_is_scalar(c);
    }
    let v = c as u32;
    if v <= 0x7F {
        1
    } else if v <= 0x7FF {
        2
    } else if v <= 0xFFFF {
        3
    } else {
        4
    }
}

/// A document prepared for scanning: the text, its characters laid out for
/// access by position, and the place of each character in the text's
/// encoding, so that a part of the text is cut out without walking to it.
pub struct Source<'a> {
    text: &'a str,
    chars: Vec<char>,
    offsets: Vec<usize>,
}

impl<'a> View for Source<'a> {
    type V = Seq<char>;

    closed spec fn view(&self) -> Seq<char> {
        self.text@
    }
}

impl<'a> Source<'a> {
    #[verifier::type_invariant]
    closed spec fn laid_out(&self) -> bool {
        &&& self.chars@ == self.text@
        &&& self.offsets@.len() == self.text@.len() + 1
        &&& forall|i: int|
            0 <= i <= self.text@.len() ==> #[trigger] self.offsets@[i] == prefix_bytes(
                self.text@,
                i,
            )
    }

    /// Lays out `text` for scanning.
    pub fn new(text: &'a str) -> (source: Self)
        ensures
            source@ == text@,
    {
        let bytes = text.as_bytes();
        let total = bytes.len();
        let mut chars: Vec<char> = Vec::new();
        let mut offsets: Vec<usize> = Vec::new();
        let mut at: usize = 0;
        proof {
            assert(text@.take(0) =~= Seq::<char>::empty());
        }
        for c in it: text.chars()
            invariant
                it.seq() == text@,
                bytes@ == encode_utf8(text@),
                total == bytes@.len(),
                chars@ == it.seq().take(it.index() as int),
                offsets@.len() == it.index(),
                at == prefix_bytes(text@, it.index() as int),
                forall|i: int|
                    0 <= i < it.index() ==> #[trigger] offsets@[i] == prefix_bytes(text@, i),
        {
            proof {
                lemma_prefix_bytes(text@, it.index() as int);
                lemma_prefix_bytes(text@, it.index() + 1);
            }
            offsets.push(at);
            at = at + utf8_width(c);
            chars.push(c);
        }
        offsets.push(at);
        assert(chars@ =~= text@);
        Source { text, chars, offsets }
    }

    /// The number of characters of the document. It is less than
    /// `usize::MAX`, so a position past the end can still be counted.
    pub fn len(&self) -> (n: usize)
        ensures
            n == self@.len(),
            n < usize::MAX,
    {
        proof {
            use_type_invariant(self);
            assert(self.offsets.len() == self.chars.len() + 1);
        }
        self.chars.len()
    }

    /// The character at position `i`.
    pub fn at(&self, i: usize) -> (c: char)
        requires
            i < self@.len(),
        ensures
            c == self@[i as int],
    {
        proof {
            use_type_invariant(self);
        }
        self.chars[i]
    }

    /// Whether the character at position `i` is `c`.
    pub fn is_at(&self, i: usize, c: char) -> (b: bool)
        ensures
            b == is_at(self@, i as int, c),
            self@.len() < usize::MAX,
    {
        i < self.len() && self.at(i) == c
    }

    /// Whether `word` stands at position `i`.
    pub fn word_at(&self, i: usize, word: &str) -> (b: bool)
        ensures
            b == word_at(self@, i as int, word@),
            self@.len() < usize::MAX,
    {
        let len = self.len();
        if i > len {
            return false;
        }
        let mut k: usize = 0;
        for c in it: word.chars()
            invariant
                it.seq() == word@,
                k == it.index(),
                len == self@.len(),
                len < usize::MAX,
                i + k <= len,
                forall|j: int| 0 <= j < k ==> self@[i + j] == word@[j],
        {
            if i + k >= len {
                return false;
            }
            if self.at(i + k) != c {
                proof {
                    lemma_word_at(self@, i as int, word@);
                }
                return false;
            }
            k += 1;
        }
        proof {
            lemma_word_at(self@, i as int, word@);
        }
        true
    }

    /// The end of the run of characters of class `k` that starts at `i`.
    pub fn scan(&self, i: usize, k: CharClass) -> (j: usize)
        requires
            i <= self@.len(),
        ensures
            j == scan(self@, i as int, k),
            i <= j <= self@.len(),
            self@.len() < usize::MAX,
    {
        let len = self.len();
        let mut j = i;
        while j < len && k.contains(self.at(j))
            invariant
                i <= j <= len,
                len == self@.len(),
                scan(self@, i as int, k) == scan(self@, j as int, k),
            decreases len - j,
        {
            j += 1;
        }
        j
    }

    /// The characters from position `from` up to, not including, `to`.
    pub fn slice(&self, from: usize, to: usize) -> (text: String)
        requires
            from <= to <= self@.len(),
        ensures
            text@ == self@.subrange(from as int, to as int),
    {
        proof {
            use_type_invariant(self);
        }
        let low = self.offsets[from];
        let high = self.offsets[to];
        proof {
            lemma_prefix_is_boundary(self.text@, to as int);
            lemma_prefix_bytes(self.text@, to as int);
        }
        let (head, _) = self.text.split_at(high);
        proof {
            lemma_encode_is_injective(head@, self.text@.take(to as int));
            assert(head@.take(from as int) =~= self.text@.take(from as int));
            lemma_prefix_is_boundary(head@, from as int);
            lemma_prefix_bytes(head@, from as int);
        }
        let (_, part) = head.split_at(low);
        proof {
            lemma_encode_is_injective(part@, head@.skip(from as int));
            assert(head@.skip(from as int) =~= self.text@.subrange(from as int, to as int));
        }
        part.to_owned()
    }

    /// The byte at which the character at position `pos` begins in the
    /// encoding of the document; its length in bytes for the position at
    /// its end.
    pub fn byte_offset(&self, pos: usize) -> (at: usize)
        requires
            pos <= self@.len(),
        ensures
            at == prefix_bytes(self@, pos as int),
    {
        proof {
            use_type_invariant(self);
        }
        self.offsets[pos]
    }

    /// The line and the column of position `pos`, both counted from 1.
    pub fn locate(&self, pos: usize) -> (place: (usize, usize))
        requires
            pos <= self@.len(),
        ensures
            place.0 == line_of(self@, pos as int),
            place.1 == column_of(self@, pos as int),
    {
        let len = self.len();
        let mut feeds: usize = 0;
        let mut start: usize = 0;
        let mut i: usize = 0;
        while i < pos
            invariant
                i <= pos <= len,
                len == self@.len(),
                len < usize::MAX,
                feeds == line_feeds_before(self@, i as int),
                start == line_start(self@, i as int),
                feeds <= i,
                start <= i,
            decreases pos - i,
        {
            let c = self.at(i);
            i += 1;
            if c == '\n' {
                feeds += 1;
                start = i;
            }
        }
        (feeds + 1, pos - start + 1)
    }
}

} // verus!
