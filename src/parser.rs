use vstd::prelude::*;
use crate::text::{is_alnum, chars_of, views, split_chars, split_seq, string_of, is_space};

verus! {

/// Why a parse failed, with the input position where it was found.
#[derive(Debug, Clone, Copy, PartialEq, Eq, Structural)]
pub enum ParseError {
    /// An expected character or name is not there.
    StructuralMismatch(usize),
    /// The input ended where more was expected.
    OutOfBounds(usize),
    /// A value could not be decoded.
    MalformedValue(usize),
}

/// A class of characters that a scan reads through.
#[derive(Debug, Clone, Copy, PartialEq, Eq, Structural)]
pub enum CharClass {
    Alphanumeric,
    Whitespace,
    /// The ASCII decimal digits.
    Digit,
    /// Every character but whitespace and the two given.
    NameChar(char, char),
    /// Every character but the one given.
    Not(char),
}

/// Whether `c` belongs to `cls`.
pub open spec fn accepts(cls: CharClass, c: char) -> bool {
    match cls {
        CharClass::Alphanumeric => is_alnum(c),
        CharClass::Whitespace => is_space(c),
        CharClass::Digit => '0' <= c <= '9',
        CharClass::NameChar(a, b) => c != a && c != b && !is_space(c),
        CharClass::Not(d) => c != d,
    }
}

/// The first position from `i` on whose character `cls` does not accept, or
/// the end of `s`.
pub open spec fn scan(s: Seq<char>, i: int, cls: CharClass) -> int
    decreases s.len() - i,
{
    if 0 <= i < s.len() && accepts(cls, s[i]) {
        scan(s, i + 1, cls)
    } else {
        i
    }
}

/// A scan stays within the input and stops only where the class refuses.
pub proof fn lemma_scan_bounds(s: Seq<char>, i: int, cls: CharClass)
    requires
        0 <= i <= s.len(),
    ensures
        i <= scan(s, i, cls) <= s.len(),
        forall|k: int| i <= k < scan(s, i, cls) ==> accepts(cls, #[trigger] s[k]),
        scan(s, i, cls) < s.len() ==> !accepts(cls, s[scan(s, i, cls)]),
    decreases s.len() - i,
{
    if i < s.len() && accepts(cls, s[i]) {
        lemma_scan_bounds(s, i + 1, cls);
    }
}

/// A scan ends at the first position whose character the class refuses.
pub proof fn lemma_scan_at(s: Seq<char>, i: int, j: int, cls: CharClass)
    requires
        0 <= i <= j <= s.len(),
        forall|k: int| i <= k < j ==> accepts(cls, #[trigger] s[k]),
        j < s.len() ==> !accepts(cls, s[j]),
    ensures
        scan(s, i, cls) == j,
    decreases j - i,
{
    if i < j {
        lemma_scan_at(s, i + 1, j, cls);
    }
}

/// Whether `f` answers as `cls` does.
pub open spec fn decides<F: Fn(char) -> bool>(f: F, cls: CharClass) -> bool {
    &&& forall|c: char| f.requires((c,))
    &&& forall|c: char, b: bool| f.ensures((c,), b) ==> b == accepts(cls, c)
}

/// A cursor over a sequence of characters: the input, and the position of the
/// next character to read.
#[derive(Debug)]
pub struct TextParser {
    position: usize,
    input: Vec<char>,
}

/// Whether `r` is `s` without the characters on which `discard` answers
/// `true`, in order.
pub open spec fn kept_by<G: Fn(char) -> bool>(s: Seq<char>, r: Seq<char>, discard: G) -> bool
    decreases s.len(),
{
    if s.len() == 0 {
        r.len() == 0
    } else {
        let c = s.last();
        ||| discard.ensures((c,), true) && kept_by(s.drop_last(), r, discard)
        ||| discard.ensures((c,), false) && r.len() > 0 && r.last() == c && kept_by(
            s.drop_last(),
            r.drop_last(),
            discard,
        )
    }
}

/// Whether `f` can only answer `false` on `c`.
pub open spec fn rejects<F: Fn(char) -> bool>(f: F, c: char) -> bool {
    forall|b: bool| f.ensures((c,), b) ==> !b
}

impl TextParser {
    /// The whole input.
    pub closed spec fn chars(&self) -> Seq<char> {
        self.input@
    }

    /// The position of the next character to read.
    pub closed spec fn pos(&self) -> int {
        self.position as int
    }

    /// The position lies within the input.
    pub open spec fn wf(&self) -> bool {
        0 <= self.pos() <= self.chars().len() <= usize::MAX
    }

    /// What is left to read.
    pub open spec fn rest(&self) -> Seq<char> {
        self.chars().subrange(self.pos(), self.chars().len() as int)
    }

    pub fn new(input: String) -> (r: TextParser)
        ensures
            r.wf(),
            r.chars() == input@,
            r.pos() == 0,
    {
        let v = chars_of(input.as_str());
        TextParser { position: 0, input: v }
    }

    pub fn eol(&self) -> (r: bool)
        requires
            self.wf(),
        ensures
            r == (self.pos() >= self.chars().len()),
    {
        self.position >= self.input.len()
    }

    /// The whole input.
    pub(crate) fn input_chars(&self) -> (r: &Vec<char>)
        ensures
            r@ == self.chars(),
    {
        &self.input
    }

    /// Reads the characters that `cls` accepts, as `consume_chars_while` does
    /// with a predicate that decides `cls`; the new position is the end of
    /// that scan.
    pub(crate) fn scan_with<F: Fn(char) -> bool>(&mut self, predicate: F, Ghost(cls): Ghost<CharClass>) -> (r: String)
        requires
            old(self).wf(),
            decides(predicate, cls),
        ensures
            final(self).wf(),
            final(self).chars() == old(self).chars(),
            final(self).pos() == scan(old(self).chars(), old(self).pos(), cls),
            r@ == old(self).chars().subrange(old(self).pos(), final(self).pos()),
    {
        let r = self.consume_chars_while(predicate);
        proof {
            let s = self.chars();
            assert forall|k: int| old(self).pos() <= k < self.pos() implies accepts(cls, #[trigger] s[k]) by {
                assert(predicate.ensures((s[k],), true));
            }
            if self.pos() < s.len() {
                assert(predicate.ensures((s[self.pos()],), false));
            }
            lemma_scan_at(s, old(self).pos(), self.pos(), cls);
        }
        r
    }

    /// The unread part of the input.
    pub fn remaining(&self) -> (r: String)
        requires
            self.wf(),
        ensures
            r@ == self.rest(),
    {
        string_of(&self.input, self.position, self.input.len())
    }

    /// Whether the unread part of the input begins with `s`; nothing is consumed.
    pub fn starts_with(&self, s: &str) -> (r: bool)
        requires
            self.wf(),
        ensures
            r == (s@.len() <= self.rest().len() && self.rest().subrange(0, s@.len() as int)
                == s@),
    {
        let n = s.unicode_len();
        if n > self.input.len() - self.position {
            return false;
        }
        let mut i: usize = 0;
        while i < n
            invariant
                i <= n,
                n == s@.len(),
                self.wf(),
                n <= self.rest().len(),
                forall|k: int| 0 <= k < i ==> self.rest()[k] == s@[k],
            decreases n - i,
        {
            if self.input[self.position + i] != s.get_char(i) {
                assert(self.rest()[i as int] == self.chars()[self.pos() + i]);
                return false;
            }
            i = i + 1;
        }
        assert(self.rest().subrange(0, n as int) =~= s@);
        true
    }

    /// The pieces of the whole input between occurrences of `separator`.
    pub fn split_on(&self, separator: char) -> (r: Vec<String>)
        ensures
            r@.len() == split_seq(self.chars(), separator).len(),
            forall|i: int| 0 <= i < r@.len() ==> #[trigger] r@[i]@ == split_seq(self.chars(), separator)[i],
    {
        let pieces = split_chars(&self.input, 0, self.input.len(), separator);
        assert(self.input@.subrange(0, self.input@.len() as int) =~= self.input@);
        let mut r: Vec<String> = Vec::new();
        let mut i: usize = 0;
        while i < pieces.len()
            invariant
                i <= pieces@.len(),
                views(pieces@) == split_seq(self.chars(), separator),
                r@.len() == i,
                forall|k: int| 0 <= k < i ==> #[trigger] r@[k]@ == views(pieces@)[k],
            decreases pieces@.len() - i,
        {
            let piece = &pieces[i];
            r.push(string_of(piece, 0, piece.len()));
            assert(piece@.subrange(0, piece@.len() as int) =~= piece@);
            i = i + 1;
        }
        r
    }

    pub fn get_current_char(&self) -> (r: char)
        requires
            self.wf(),
            self.pos() < self.chars().len(),
        ensures
            r == self.chars()[self.pos()],
    {
        self.input[self.position]
    }

    /// Reads one character; there must be one left.
    pub fn consume_char(&mut self) -> (r: char)
        requires
            old(self).wf(),
            old(self).pos() < old(self).chars().len(),
        ensures
            final(self).wf(),
            final(self).chars() == old(self).chars(),
            final(self).pos() == old(self).pos() + 1,
            r == old(self).chars()[old(self).pos()],
    {
        let c = self.input[self.position];
        self.position = self.position + 1;
        c
    }

    /// Reads characters while `predicate` accepts them and input is left, and
    /// returns them: the reading stops at the end of input or on the first
    /// character that `predicate` rejects, which stays unread.
    pub fn consume_chars_while<F: Fn(char) -> bool>(&mut self, predicate: F) -> (r: String)
        requires
            old(self).wf(),
            forall|c: char| predicate.requires((c,)),
        ensures
            final(self).wf(),
            final(self).chars() == old(self).chars(),
            old(self).pos() <= final(self).pos(),
            r@ == old(self).chars().subrange(old(self).pos(), final(self).pos()),
            forall|i: int|
                old(self).pos() <= i < final(self).pos() ==> predicate.ensures(
                    (#[trigger] old(self).chars()[i],),
                    true,
                ),
            final(self).pos() < final(self).chars().len() ==> predicate.ensures(
                (final(self).chars()[final(self).pos()],),
                false,
            ),
    {
        let ghost start = self.pos();
        let mut result = String::new();
        loop
            invariant
                self.wf(),
                self.chars() == old(self).chars(),
                start == old(self).pos(),
                start <= self.pos(),
                forall|c: char| predicate.requires((c,)),
                result@ == self.chars().subrange(start, self.pos()),
                forall|i: int|
                    start <= i < self.pos() ==> predicate.ensures((#[trigger] self.chars()[i],), true),
            ensures
                self.wf(),
                self.chars() == old(self).chars(),
                start <= self.pos(),
                result@ == self.chars().subrange(start, self.pos()),
                forall|i: int|
                    start <= i < self.pos() ==> predicate.ensures((#[trigger] self.chars()[i],), true),
                self.pos() < self.chars().len() ==> predicate.ensures(
                    (self.chars()[self.pos()],),
                    false,
                ),
            decreases self.chars().len() - self.pos(),
        {
            if self.eol() {
                break;
            }
            let c = self.get_current_char();
            if !predicate(c) {
                break;
            }
            let d = self.consume_char();
            result.push(d);
            assert(result@ =~= self.chars().subrange(start, self.pos()));
        }
        result
    }

    /// Reads characters while `predicate` accepts them, as `consume_chars_while`
    /// does, and returns those of them that `discard` rejects. With `drop_last`
    /// the character that stopped the reading is consumed too, and dropped: the
    /// input must then hold one.
    pub fn consume_sequence<F: Fn(char) -> bool, G: Fn(char) -> bool>(
        &mut self,
        predicate: F,
        discard: G,
        drop_last: bool,
    ) -> (r: String)
        requires
            old(self).wf(),
            forall|c: char| predicate.requires((c,)),
            forall|c: char| discard.requires((c,)),
            drop_last ==> exists|j: int|
                old(self).pos() <= j < old(self).chars().len() && #[trigger] rejects(
                    predicate,
                    old(self).chars()[j],
                ),
        ensures
            final(self).wf(),
            final(self).chars() == old(self).chars(),
            ({
                let end = if drop_last {
                    final(self).pos() - 1
                } else {
                    final(self).pos()
                };
                &&& old(self).pos() <= end <= final(self).chars().len()
                &&& forall|i: int|
                    old(self).pos() <= i < end ==> predicate.ensures(
                        (#[trigger] old(self).chars()[i],),
                        true,
                    )
                &&& end < final(self).chars().len() ==> predicate.ensures(
                    (old(self).chars()[end],),
                    false,
                )
                &&& drop_last ==> end < final(self).chars().len()
                &&& kept_by(old(self).chars().subrange(old(self).pos(), end), r@, discard)
            }),
    {
        let ghost start = self.pos();
        let mut result = String::new();
        loop
            invariant
                self.wf(),
                self.chars() == old(self).chars(),
                start == old(self).pos(),
                start <= self.pos(),
                forall|c: char| predicate.requires((c,)),
                forall|c: char| discard.requires((c,)),
                drop_last ==> exists|j: int|
                    old(self).pos() <= j < old(self).chars().len() && #[trigger] rejects(
                        predicate,
                        old(self).chars()[j],
                    ),
                kept_by(self.chars().subrange(start, self.pos()), result@, discard),
                forall|i: int|
                    start <= i < self.pos() ==> predicate.ensures((#[trigger] self.chars()[i],), true),
            ensures
                self.wf(),
                self.chars() == old(self).chars(),
                start <= self.pos(),
                drop_last ==> exists|j: int|
                    old(self).pos() <= j < old(self).chars().len() && #[trigger] rejects(
                        predicate,
                        old(self).chars()[j],
                    ),
                kept_by(self.chars().subrange(start, self.pos()), result@, discard),
                forall|i: int|
                    start <= i < self.pos() ==> predicate.ensures((#[trigger] self.chars()[i],), true),
                self.pos() < self.chars().len() ==> predicate.ensures(
                    (self.chars()[self.pos()],),
                    false,
                ),
            decreases self.chars().len() - self.pos(),
        {
            if self.eol() {
                break;
            }
            let c = self.get_current_char();
            if !predicate(c) {
                break;
            }
            let ghost before = self.chars().subrange(start, self.pos());
            let ghost old_result = result@;
            let cur = self.consume_char();
            let ghost after = self.chars().subrange(start, self.pos());
            assert(after.drop_last() =~= before);
            if !discard(cur) {
                result.push(cur);
                assert(result@.drop_last() =~= old_result);
            }
        }
        let ghost end = self.pos();
        if drop_last {
            proof {
                let j = choose|j: int|
                    old(self).pos() <= j < old(self).chars().len() && #[trigger] rejects(
                        predicate,
                        old(self).chars()[j],
                    );
                if end >= self.chars().len() {
                    assert(predicate.ensures((self.chars()[j],), true));
                }
            }
            self.consume_char();
        }
        result
    }

    /// Consumes `pat`, which the unread input must begin with, and returns it.
    pub fn consume_pattern(&mut self, pat: String) -> (r: String)
        requires
            old(self).wf(),
            pat@.len() <= old(self).rest().len(),
            old(self).rest().subrange(0, pat@.len() as int) == pat@,
        ensures
            final(self).wf(),
            final(self).chars() == old(self).chars(),
            final(self).pos() == old(self).pos() + pat@.len(),
            r@ == pat@,
    {
        let n = pat.as_str().unicode_len();
        assert(n <= self.chars().len() - self.pos());
        let target = self.position + n;
        while self.position < target
            invariant
                self.wf(),
                self.chars() == old(self).chars(),
                old(self).pos() <= self.pos() <= target,
                target == old(self).pos() + n,
                target <= self.chars().len(),
            decreases target - self.pos(),
        {
            self.consume_char();
        }
        pat
    }

    /// Skips whitespace.
    pub fn remove_whitespaces(&mut self)
        requires
            old(self).wf(),
        ensures
            final(self).wf(),
            final(self).chars() == old(self).chars(),
            final(self).pos() == scan(old(self).chars(), old(self).pos(), CharClass::Whitespace),
    {
        let ws = |c: char| -> (r: bool)
            ensures
                r == accepts(CharClass::Whitespace, c),
            { c.is_whitespace() };
        self.scan_with(ws, Ghost(CharClass::Whitespace));
    }

    /// Reads text up to the next `<`, which stays unread.
    pub fn parse_text_data(&mut self) -> (r: String)
        requires
            old(self).wf(),
        ensures
            final(self).wf(),
            final(self).chars() == old(self).chars(),
            final(self).pos() == scan(old(self).chars(), old(self).pos(), CharClass::Not('<')),
            r@ == old(self).chars().subrange(old(self).pos(), final(self).pos()),
    {
        let not_open = |c: char| -> (r: bool)
            ensures
                r == accepts(CharClass::Not('<'), c),
            { c != '<' };
        self.scan_with(not_open, Ghost(CharClass::Not('<')))
    }

    /// The position of the next character to read.
    pub fn position(&self) -> (r: usize)
        ensures
            r == self.pos(),
    {
        self.position
    }
}

} // verus!
