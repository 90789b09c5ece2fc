use vstd::prelude::*;
use crate::parser::{accepts, kept_by, lemma_scan_at, lemma_scan_bounds, scan, CharClass, ParseError, TextParser};
use crate::text::{is_alnum, is_space};

verus! {

/// A length unit.
#[derive(Debug, Clone, Copy, PartialEq, Eq, Structural)]
pub enum Unit {
    Px,
}

/// A color given by its red, green and blue bytes.
#[derive(Debug, Clone, Copy, PartialEq, Eq, Structural)]
pub struct Color {
    pub r: u8,
    pub g: u8,
    pub b: u8,
}

/// The value of a declaration.
#[derive(Debug)]
pub enum Value {
    Keyword(String),
    /// A whole number of units.
    Length(u64, Unit),
    ColorValue(Color),
}

/// What a value holds, as plain data.
pub enum ValueModel {
    Keyword(Seq<char>),
    Length(nat, Unit),
    ColorValue(Color),
}

impl Value {
    pub open spec fn view(&self) -> ValueModel {
        match self {
            Value::Keyword(k) => ValueModel::Keyword(k@),
            Value::Length(n, u) => ValueModel::Length(*n as nat, *u),
            Value::ColorValue(c) => ValueModel::ColorValue(*c),
        }
    }
}

/// One `name: value` pair of a rule.
#[derive(Debug)]
pub struct Declaration {
    pub name: String,
    pub value: Value,
}

impl Declaration {
    pub open spec fn view(&self) -> (Seq<char>, ValueModel) {
        (self.name@, self.value@)
    }
}

/// The value of a hexadecimal digit.
pub open spec fn hex_digit(c: char) -> Option<nat> {
    if '0' <= c <= '9' {
        Some((c as nat - '0' as nat) as nat)
    } else if 'a' <= c <= 'f' {
        Some((c as nat - 'a' as nat + 10) as nat)
    } else if 'A' <= c <= 'F' {
        Some((c as nat - 'A' as nat + 10) as nat)
    } else {
        None
    }
}

/// The byte that two hexadecimal digits write.
pub open spec fn hex_byte(hi: char, lo: char) -> Option<u8> {
    match (hex_digit(hi), hex_digit(lo)) {
        (Some(h), Some(l)) => Some((h * 16 + l) as u8),
        _ => None,
    }
}

/// The color that `#rrggbb` writes: the six characters after the first one,
/// as three hexadecimal bytes. Anything after them is ignored.
pub open spec fn color_of(code: Seq<char>) -> Option<Color> {
    if code.len() < 7 {
        None
    } else {
        match (
            hex_byte(code[1], code[2]),
            hex_byte(code[3], code[4]),
            hex_byte(code[5], code[6]),
        ) {
            (Some(r), Some(g), Some(b)) => Some(Color { r, g, b }),
            _ => None,
        }
    }
}

pub open spec fn is_digit(c: char) -> bool {
    '0' <= c <= '9'
}

/// The number that a sequence of decimal digits writes.
pub open spec fn digits_value(ds: Seq<char>) -> nat
    decreases ds.len(),
{
    if ds.len() == 0 {
        0
    } else {
        digits_value(ds.drop_last()) * 10 + (ds.last() as nat - '0' as nat) as nat
    }
}

/// How many decimal digits `v` starts with.
pub open spec fn digit_run(v: Seq<char>) -> int {
    scan(v, 0, CharClass::Digit)
}

proof fn lemma_digits_mono(v: Seq<char>, a: int, b: int)
    requires
        0 <= a <= b <= v.len(),
    ensures
        digits_value(v.subrange(0, a)) <= digits_value(v.subrange(0, b)),
    decreases b - a,
{
    if a < b {
        lemma_digits_mono(v, a, b - 1);
        assert(v.subrange(0, b).drop_last() =~= v.subrange(0, b - 1));
    }
}

/// The value that the text `v` of a declaration stands for, chosen by its
/// first character: `#` gives a color, a digit gives a length in pixels (the
/// leading run of digits; what follows is ignored), anything else a keyword.
/// None where there is no first character, the color is not six hexadecimal
/// digits, or the length does not fit in 64 bits.
pub open spec fn classify(v: Seq<char>) -> Option<ValueModel> {
    if v.len() == 0 {
        None
    } else if v[0] == '#' {
        match color_of(v) {
            Some(c) => Some(ValueModel::ColorValue(c)),
            None => None,
        }
    } else if is_digit(v[0]) {
        let n = digits_value(v.subrange(0, digit_run(v)));
        if n <= u64::MAX {
            Some(ValueModel::Length(n, Unit::Px))
        } else {
            None
        }
    } else {
        Some(ValueModel::Keyword(v))
    }
}

fn hex_digit_value(c: char) -> (r: Option<u8>)
    ensures
        r matches Some(d) ==> hex_digit(c) == Some(d as nat),
        r is None ==> hex_digit(c) is None,
{
    if '0' <= c && c <= '9' {
        Some((c as u32 - '0' as u32) as u8)
    } else if 'a' <= c && c <= 'f' {
        Some((c as u32 - 'a' as u32 + 10) as u8)
    } else if 'A' <= c && c <= 'F' {
        Some((c as u32 - 'A' as u32 + 10) as u8)
    } else {
        None
    }
}

fn hex_byte_value(hi: char, lo: char) -> (r: Option<u8>)
    ensures
        r == hex_byte(hi, lo),
{
    match (hex_digit_value(hi), hex_digit_value(lo)) {
        (Some(h), Some(l)) => Some(h * 16 + l),
        _ => None,
    }
}

impl Color {
    /// Reads a color from `#rrggbb`.
    pub fn from_hex_code(code: String) -> (r: Option<Color>)
        ensures
            r == color_of(code@),
    {
        let chars = crate::text::chars_of(code.as_str());
        if chars.len() < 7 {
            return None;
        }
        let r = match hex_byte_value(chars[1], chars[2]) {
            Some(x) => x,
            None => return None,
        };
        let g = match hex_byte_value(chars[3], chars[4]) {
            Some(x) => x,
            None => return None,
        };
        let b = match hex_byte_value(chars[5], chars[6]) {
            Some(x) => x,
            None => return None,
        };
        Some(Color { r, g, b })
    }
}

impl Declaration {
    /// A declaration whose value is classified from its text, as `classify`
    /// describes; None where the text cannot be classified.
    pub fn new(name: String, value: String) -> (r: Option<Declaration>)
        ensures
            match classify(value@) {
                None => r is None,
                Some(m) => r matches Some(d) && d.name@ == name@ && d.value@ == m,
            },
    {
        let chars = crate::text::chars_of(value.as_str());
        if chars.len() == 0 {
            return None;
        }
        let first = chars[0];
        if first == '#' {
            match Color::from_hex_code(value) {
                Some(c) => Some(Declaration { name, value: Value::ColorValue(c) }),
                None => None,
            }
        } else if '0' <= first && first <= '9' {
            let mut qty: u64 = 0;
            let mut i: usize = 0;
            while i < chars.len() && '0' <= chars[i] && chars[i] <= '9'
                invariant
                    i <= chars@.len(),
                    chars@ == value@,
                    forall|k: int| 0 <= k < i ==> is_digit(#[trigger] chars@[k]),
                    qty as nat == digits_value(chars@.subrange(0, i as int)),
                decreases chars@.len() - i,
            {
                let d = (chars[i] as u32 - '0' as u32) as u64;
                proof {
                    let pre = chars@.subrange(0, i as int);
                    let post = chars@.subrange(0, i + 1);
                    assert(post.drop_last() =~= pre);
                }
                if qty > (u64::MAX - d) / 10 {
                    proof {
                        let q = qty as int;
                        let dd = d as int;
                        let m = u64::MAX as int;
                        assert(q * 10 + dd > m) by (nonlinear_arith)
                            requires
                                q > (m - dd) / 10,
                                0 <= dd <= 9,
                                m > 9,
                        ;
                        assert(digits_value(chars@.subrange(0, i + 1)) > u64::MAX);
                        lemma_scan_bounds(chars@, 0, CharClass::Digit);
                        let e = digit_run(chars@);
                        if e < i + 1 {
                            assert(accepts(CharClass::Digit, chars@[e]));
                        }
                        lemma_digits_mono(chars@, i + 1, e);
                    }
                    return None;
                }
                qty = qty * 10 + d;
                i = i + 1;
            }
            proof {
                lemma_scan_at(chars@, 0, i as int, CharClass::Digit);
            }
            Some(Declaration { name, value: Value::Length(qty, Unit::Px) })
        } else {
            Some(Declaration { name, value: Value::Keyword(value) })
        }
    }
}

/// The characters of `t` without its spaces.
pub open spec fn drop_spaces(t: Seq<char>) -> Seq<char>
    decreases t.len(),
{
    if t.len() == 0 {
        Seq::empty()
    } else {
        let p = drop_spaces(t.drop_last());
        if t.last() == ' ' {
            p
        } else {
            p.push(t.last())
        }
    }
}

proof fn lemma_kept_spaces<G: Fn(char) -> bool>(t: Seq<char>, r: Seq<char>, g: G)
    requires
        forall|c: char, b: bool| g.ensures((c,), b) ==> b == (c == ' '),
        kept_by(t, r, g),
    ensures
        r == drop_spaces(t),
    decreases t.len(),
{
    if t.len() > 0 {
        let c = t.last();
        if g.ensures((c,), true) && kept_by(t.drop_last(), r, g) {
            lemma_kept_spaces(t.drop_last(), r, g);
        } else {
            lemma_kept_spaces(t.drop_last(), r.drop_last(), g);
            assert(r =~= r.drop_last().push(c));
        }
    }
}

/// The declarations of a block from `i` on, up to the end of input or to a
/// `}`, which stays unread, with the position where they end. Each is
/// `name: value;`, spaces dropped from both; whitespace between them is
/// skipped.
pub open spec fn declarations_at(s: Seq<char>, i: int) -> Result<
    (Seq<(Seq<char>, ValueModel)>, int),
    ParseError,
>
    decreases s.len() - i,
{
    if i < 0 || i >= s.len() || s[i] == '}' {
        Ok((Seq::empty(), i))
    } else if is_space(s[i]) {
        declarations_at(s, i + 1)
    } else {
        let a = scan(s, i, CharClass::Not(':'));
        let b = scan(s, a + 1, CharClass::Not(';'));
        proof {
            lemma_scan_bounds(s, i, CharClass::Not(':'));
            if a < s.len() {
                lemma_scan_bounds(s, a + 1, CharClass::Not(';'));
            }
        }
        if a >= s.len() {
            Err(ParseError::OutOfBounds(a as usize))
        } else if b >= s.len() {
            Err(ParseError::OutOfBounds(b as usize))
        } else {
            match classify(drop_spaces(s.subrange(a + 1, b))) {
                None => Err(ParseError::MalformedValue((a + 1) as usize)),
                Some(v) => match declarations_at(s, b + 1) {
                    Ok((ds, k)) => Ok((seq![(drop_spaces(s.subrange(i, a)), v)] + ds, k)),
                    Err(e) => Err(e),
                },
            }
        }
    }
}

/// The views of a list of declarations.
pub open spec fn decl_views(v: Seq<Declaration>) -> Seq<(Seq<char>, ValueModel)> {
    Seq::new(v.len(), |i: int| v[i]@)
}

/// Parses a subset of CSS: selectors and declaration blocks.
#[derive(Debug)]
pub struct CSSParser {
    text_parser: TextParser,
}

impl CSSParser {
    /// The whole input.
    pub closed spec fn input(&self) -> Seq<char> {
        self.text_parser.chars()
    }

    /// The position of the next character to read.
    pub closed spec fn pos(&self) -> int {
        self.text_parser.pos()
    }

    pub closed spec fn wf(&self) -> bool {
        self.text_parser.wf()
    }

    pub fn new(input: String) -> (r: CSSParser)
        ensures
            r.wf(),
            r.input() == input@,
            r.pos() == 0,
    {
        CSSParser { text_parser: TextParser::new(input) }
    }

    /// Reads up to the first `stop`, which stays unread, and returns what was
    /// read without its spaces.
    fn consume_field(&mut self, stop: char) -> (r: String)
        requires
            old(self).wf(),
        ensures
            final(self).wf(),
            final(self).input() == old(self).input(),
            final(self).pos() == scan(old(self).input(), old(self).pos(), CharClass::Not(stop)),
            r@ == drop_spaces(old(self).input().subrange(old(self).pos(), final(self).pos())),
    {
        let until = move |c: char| -> (r: bool)
            ensures
                r == accepts(CharClass::Not(stop), c),
            { c != stop };
        let space = |c: char| -> (r: bool)
            ensures
                r == (c == ' '),
            { c == ' ' };
        let r = self.text_parser.consume_sequence(until, space, false);
        proof {
            let s = self.input();
            let i = old(self).pos();
            let j = self.pos();
            assert forall|k: int| i <= k < j implies accepts(CharClass::Not(stop), #[trigger] s[k]) by {
                assert(until.ensures((s[k],), true));
            }
            if j < s.len() {
                assert(until.ensures((s[j],), false));
            }
            lemma_scan_at(s, i, j, CharClass::Not(stop));
            lemma_kept_spaces(s.subrange(i, j), r@, space);
        }
        r
    }

    /// Reads declarations up to the end of input or to a `}`, which stays
    /// unread.
    pub fn parse_declarations(&mut self) -> (r: Result<Vec<Declaration>, ParseError>)
        requires
            old(self).wf(),
        ensures
            final(self).wf(),
            final(self).input() == old(self).input(),
            match declarations_at(old(self).input(), old(self).pos()) {
                Ok((ds, k)) => r matches Ok(v) && decl_views(v@) == ds && final(self).pos() == k,
                Err(e) => r == Err::<Vec<Declaration>, ParseError>(e),
            },
    {
        let ghost s = self.input();
        let ghost i0 = self.pos();
        let mut declarations: Vec<Declaration> = Vec::new();
        proof {
            match declarations_at(s, i0) {
                Ok((ds, k)) => {
                    assert(Seq::<(Seq<char>, ValueModel)>::empty() + ds =~= ds);
                },
                Err(_) => {},
            }
            assert(decl_views(declarations@) =~= Seq::<(Seq<char>, ValueModel)>::empty());
        }
        loop
            invariant
                self.wf(),
                self.input() == s,
                i0 <= self.pos() <= s.len(),
                i0 == old(self).pos(),
                s == old(self).input(),
                declarations_at(s, i0) == prepend_decls(
                    decl_views(declarations@),
                    declarations_at(s, self.pos()),
                ),
            decreases s.len() - self.pos(),
        {
            let ghost p = self.pos();
            if self.text_parser.eol() {
                assert(decl_views(declarations@) + Seq::empty() =~= decl_views(declarations@));
                return Ok(declarations);
            }
            let c = self.text_parser.get_current_char();
            if c == '}' {
                assert(decl_views(declarations@) + Seq::empty() =~= decl_views(declarations@));
                return Ok(declarations);
            }
            if c.is_whitespace() {
                self.text_parser.consume_char();
            } else {
                let name = self.consume_field(':');
                let a = self.text_parser.position();
                proof {
                    lemma_scan_bounds(s, p, CharClass::Not(':'));
                }
                if self.text_parser.eol() {
                    return Err(ParseError::OutOfBounds(a));
                }
                self.text_parser.consume_char();
                let value = self.consume_field(';');
                let b = self.text_parser.position();
                proof {
                    lemma_scan_bounds(s, a + 1, CharClass::Not(';'));
                }
                if self.text_parser.eol() {
                    return Err(ParseError::OutOfBounds(b));
                }
                self.text_parser.consume_char();
                match Declaration::new(name, value) {
                    None => {
                        return Err(ParseError::MalformedValue(a + 1));
                    },
                    Some(d) => {
                        let ghost dv = d@;
                        let ghost old_views = decl_views(declarations@);
                        declarations.push(d);
                        proof {
                            assert(decl_views(declarations@) =~= old_views.push(dv));
                            match declarations_at(s, b + 1) {
                                Ok((ds, k)) => {
                                    assert(old_views + (seq![dv] + ds) =~= old_views.push(dv) + ds);
                                },
                                Err(_) => {},
                            }
                        }
                    },
                }
            }
        }
    }
}

/// A parse result with `ds` put before the declarations that it found.
pub open spec fn prepend_decls(
    ds: Seq<(Seq<char>, ValueModel)>,
    r: Result<(Seq<(Seq<char>, ValueModel)>, int), ParseError>,
) -> Result<(Seq<(Seq<char>, ValueModel)>, int), ParseError> {
    match r {
        Ok((rest, k)) => Ok((ds + rest, k)),
        Err(e) => Err(e),
    }
}

/// A selector: an optional tag name, an optional id, and classes, all of
/// which an element must have to match.
#[derive(Debug)]
pub struct SimpleSelector {
    pub tag_name: Option<String>,
    pub id: Option<String>,
    pub class: Vec<String>,
}

/// What a selector holds, as plain data.
pub struct SelectorModel {
    pub tag_name: Option<Seq<char>>,
    pub id: Option<Seq<char>>,
    pub class: Seq<Seq<char>>,
}

pub open spec fn opt_view(o: Option<String>) -> Option<Seq<char>> {
    match o {
        Some(x) => Some(x@),
        None => None,
    }
}

pub open spec fn string_views(v: Seq<String>) -> Seq<Seq<char>> {
    Seq::new(v.len(), |i: int| v[i]@)
}

impl SimpleSelector {
    pub open spec fn view(&self) -> SelectorModel {
        SelectorModel {
            tag_name: opt_view(self.tag_name),
            id: opt_view(self.id),
            class: string_views(self.class@),
        }
    }
}

pub open spec fn empty_selector() -> SelectorModel {
    SelectorModel { tag_name: None, id: None, class: Seq::empty() }
}

/// The rest of a selector from `i` on, added to `acc`, with the position
/// where it ends: before a `{` or `,`, or at the end of input. `#` starts an
/// id and `.` a class, each running up to whitespace, `,` (and for an id
/// `.`); an alphanumeric character starts a tag name; whitespace is skipped.
/// A later id or tag name replaces an earlier one; classes add up.
pub open spec fn selector_at(s: Seq<char>, i: int, acc: SelectorModel) -> Result<
    (SelectorModel, int),
    ParseError,
>
    decreases s.len() - i,
{
    if i < 0 || i >= s.len() {
        Ok((acc, i))
    } else {
        let c = s[i];
        if c == '#' {
            let j = scan(s, i + 1, CharClass::NameChar(',', '.'));
            proof {
                lemma_scan_bounds(s, i + 1, CharClass::NameChar(',', '.'));
            }
            selector_at(s, j, SelectorModel { id: Some(s.subrange(i + 1, j)), ..acc })
        } else if c == '.' {
            let j = scan(s, i + 1, CharClass::NameChar(',', ','));
            proof {
                lemma_scan_bounds(s, i + 1, CharClass::NameChar(',', ','));
            }
            selector_at(s, j, SelectorModel { class: acc.class.push(s.subrange(i + 1, j)), ..acc })
        } else if is_space(c) {
            selector_at(s, i + 1, acc)
        } else if c == '{' || c == ',' {
            Ok((acc, i))
        } else if is_alnum(c) {
            let j = scan(s, i, CharClass::Alphanumeric);
            proof {
                lemma_scan_bounds(s, i + 1, CharClass::Alphanumeric);
            }
            selector_at(s, j, SelectorModel { tag_name: Some(s.subrange(i, j)), ..acc })
        } else {
            Err(ParseError::StructuralMismatch(i as usize))
        }
    }
}

pub proof fn lemma_selector_bounds(s: Seq<char>, i: int, acc: SelectorModel)
    requires
        0 <= i <= s.len(),
    ensures
        selector_at(s, i, acc) matches Ok((_, j)) ==> i <= j <= s.len() && (i < s.len() && s[i]
            != '{' && s[i] != ',' ==> i < j),
    decreases s.len() - i,
{
    if i < s.len() {
        let c = s[i];
        if c == '#' {
            lemma_scan_bounds(s, i + 1, CharClass::NameChar(',', '.'));
            let j = scan(s, i + 1, CharClass::NameChar(',', '.'));
            lemma_selector_bounds(s, j, SelectorModel { id: Some(s.subrange(i + 1, j)), ..acc });
        } else if c == '.' {
            lemma_scan_bounds(s, i + 1, CharClass::NameChar(',', ','));
            let j = scan(s, i + 1, CharClass::NameChar(',', ','));
            lemma_selector_bounds(
                s,
                j,
                SelectorModel { class: acc.class.push(s.subrange(i + 1, j)), ..acc },
            );
        } else if is_space(c) {
            lemma_selector_bounds(s, i + 1, acc);
        } else if c == '{' || c == ',' {
        } else if is_alnum(c) {
            lemma_scan_bounds(s, i + 1, CharClass::Alphanumeric);
            let j = scan(s, i, CharClass::Alphanumeric);
            lemma_selector_bounds(s, j, SelectorModel { tag_name: Some(s.subrange(i, j)), ..acc });
        }
    }
}

/// The selectors of a comma-separated list from `i` on, up to a `{` or the
/// end of input, with the position where the list ends.
pub open spec fn selectors_at(s: Seq<char>, i: int) -> Result<(Seq<SelectorModel>, int), ParseError>
    decreases s.len() - i,
{
    if i < 0 || i >= s.len() || s[i] == '{' {
        Ok((Seq::empty(), i))
    } else if s[i] == ',' {
        proof {
            lemma_scan_bounds(s, i + 1, CharClass::Whitespace);
        }
        selectors_at(s, scan(s, i + 1, CharClass::Whitespace))
    } else {
        proof {
            lemma_selector_bounds(s, i, empty_selector());
        }
        match selector_at(s, i, empty_selector()) {
            Err(e) => Err(e),
            Ok((sel, j)) => match selectors_at(s, j) {
                Err(e) => Err(e),
                Ok((rest, k)) => Ok((seq![sel] + rest, k)),
            },
        }
    }
}

pub open spec fn selector_views(v: Seq<SimpleSelector>) -> Seq<SelectorModel> {
    Seq::new(v.len(), |i: int| v[i]@)
}


impl CSSParser {
    /// Reads one selector, up to a `{` or `,`, which stays unread, or to the
    /// end of input.
    pub fn parse_simple_selector(&mut self) -> (r: Result<SimpleSelector, ParseError>)
        requires
            old(self).wf(),
        ensures
            final(self).wf(),
            final(self).input() == old(self).input(),
            match selector_at(old(self).input(), old(self).pos(), empty_selector()) {
                Ok((m, k)) => r matches Ok(sel) && sel@ == m && final(self).pos() == k,
                Err(e) => r == Err::<SimpleSelector, ParseError>(e),
            },
    {
        let ghost s = self.input();
        let ghost i0 = self.pos();
        let mut selector = SimpleSelector { tag_name: None, id: None, class: Vec::new() };
        assert(selector@ =~= empty_selector()) by {
            assert(selector@.class =~= Seq::<Seq<char>>::empty());
        }
        loop
            invariant
                self.wf(),
                self.input() == s,
                s == old(self).input(),
                i0 == old(self).pos(),
                selector_at(s, i0, empty_selector()) == selector_at(s, self.pos(), selector@),
            decreases s.len() - self.pos(),
        {
            let ghost p = self.pos();
            if self.text_parser.eol() {
                return Ok(selector);
            }
            let c = self.text_parser.get_current_char();
            if c == '#' {
                self.text_parser.consume_char();
                let name = move |c: char| -> (r: bool)
                    ensures
                        r == accepts(CharClass::NameChar(',', '.'), c),
                    { c != ',' && c != '.' && !c.is_whitespace() };
                let id = self.text_parser.scan_with(name, Ghost(CharClass::NameChar(',', '.')));
                proof {
                    lemma_scan_bounds(s, p + 1, CharClass::NameChar(',', '.'));
                }
                selector.id = Some(id);
            } else if c == '.' {
                self.text_parser.consume_char();
                let name = move |c: char| -> (r: bool)
                    ensures
                        r == accepts(CharClass::NameChar(',', ','), c),
                    { c != ',' && !c.is_whitespace() };
                let class = self.text_parser.scan_with(name, Ghost(CharClass::NameChar(',', ',')));
                proof {
                    lemma_scan_bounds(s, p + 1, CharClass::NameChar(',', ','));
                }
                let ghost before = selector@.class;
                selector.class.push(class);
                assert(selector@.class =~= before.push(s.subrange(p + 1, self.pos())));
            } else if c.is_whitespace() {
                self.text_parser.consume_char();
            } else if c == '{' || c == ',' {
                return Ok(selector);
            } else if c.is_alphanumeric() {
                let alnum = |c: char| -> (r: bool)
                    ensures
                        r == accepts(CharClass::Alphanumeric, c),
                    { c.is_alphanumeric() };
                let tag = self.text_parser.scan_with(alnum, Ghost(CharClass::Alphanumeric));
                proof {
                    lemma_scan_bounds(s, p + 1, CharClass::Alphanumeric);
                }
                selector.tag_name = Some(tag);
            } else {
                return Err(ParseError::StructuralMismatch(self.text_parser.position()));
            }
        }
    }

    /// Reads a comma-separated list of selectors, up to a `{`, which stays
    /// unread, or to the end of input.
    pub fn parse_selectors(&mut self) -> (r: Result<Vec<SimpleSelector>, ParseError>)
        requires
            old(self).wf(),
        ensures
            final(self).wf(),
            final(self).input() == old(self).input(),
            match selectors_at(old(self).input(), old(self).pos()) {
                Ok((ms, k)) => r matches Ok(v) && selector_views(v@) == ms && final(self).pos() == k,
                Err(e) => r == Err::<Vec<SimpleSelector>, ParseError>(e),
            },
    {
        let ghost s = self.input();
        let ghost i0 = self.pos();
        let mut selectors: Vec<SimpleSelector> = Vec::new();
        proof {
            match selectors_at(s, i0) {
                Ok((ms, k)) => {
                    assert(Seq::<SelectorModel>::empty() + ms =~= ms);
                },
                Err(_) => {},
            }
            assert(selector_views(selectors@) =~= Seq::<SelectorModel>::empty());
        }
        loop
            invariant
                self.wf(),
                self.input() == s,
                s == old(self).input(),
                i0 == old(self).pos(),
                selectors_at(s, i0) == prepend_selectors(
                    selector_views(selectors@),
                    selectors_at(s, self.pos()),
                ),
            decreases s.len() - self.pos(),
        {
            let ghost p = self.pos();
            if self.text_parser.eol() {
                assert(selector_views(selectors@) + Seq::empty() =~= selector_views(selectors@));
                return Ok(selectors);
            }
            let c = self.text_parser.get_current_char();
            if c == ',' {
                self.text_parser.consume_char();
                self.text_parser.remove_whitespaces();
                proof {
                    lemma_scan_bounds(s, p + 1, CharClass::Whitespace);
                }
            } else if c == '{' {
                assert(selector_views(selectors@) + Seq::empty() =~= selector_views(selectors@));
                return Ok(selectors);
            } else {
                proof {
                    lemma_selector_bounds(s, p, empty_selector());
                }
                match self.parse_simple_selector() {
                    Err(e) => {
                        return Err(e);
                    },
                    Ok(sel) => {
                        let ghost m = sel@;
                        let ghost old_views = selector_views(selectors@);
                        selectors.push(sel);
                        proof {
                            assert(selector_views(selectors@) =~= old_views.push(m));
                            match selectors_at(s, self.pos()) {
                                Ok((ms, k)) => {
                                    assert(old_views + (seq![m] + ms) =~= old_views.push(m) + ms);
                                },
                                Err(_) => {},
                            }
                        }
                    },
                }
            }
        }
    }
}

/// A parse result with `ms` put before the selectors that it found.
pub open spec fn prepend_selectors(
    ms: Seq<SelectorModel>,
    r: Result<(Seq<SelectorModel>, int), ParseError>,
) -> Result<(Seq<SelectorModel>, int), ParseError> {
    match r {
        Ok((rest, k)) => Ok((ms + rest, k)),
        Err(e) => Err(e),
    }
}


pub proof fn lemma_selectors_bounds(s: Seq<char>, i: int)
    requires
        0 <= i <= s.len(),
    ensures
        selectors_at(s, i) matches Ok((_, k)) ==> i <= k <= s.len(),
    decreases s.len() - i,
{
    if i < s.len() && s[i] != '{' {
        if s[i] == ',' {
            lemma_scan_bounds(s, i + 1, CharClass::Whitespace);
            lemma_selectors_bounds(s, scan(s, i + 1, CharClass::Whitespace));
        } else {
            lemma_selector_bounds(s, i, empty_selector());
            if let Ok((_, j)) = selector_at(s, i, empty_selector()) {
                lemma_selectors_bounds(s, j);
            }
        }
    }
}

pub proof fn lemma_declarations_bounds(s: Seq<char>, i: int)
    requires
        0 <= i <= s.len(),
    ensures
        declarations_at(s, i) matches Ok((_, k)) ==> i <= k <= s.len(),
    decreases s.len() - i,
{
    if i < s.len() && s[i] != '}' {
        if is_space(s[i]) {
            lemma_declarations_bounds(s, i + 1);
        } else {
            lemma_scan_bounds(s, i, CharClass::Not(':'));
            let a = scan(s, i, CharClass::Not(':'));
            if a < s.len() {
                lemma_scan_bounds(s, a + 1, CharClass::Not(';'));
                let b = scan(s, a + 1, CharClass::Not(';'));
                if b < s.len() {
                    lemma_declarations_bounds(s, b + 1);
                }
            }
        }
    }
}

/// What a rule holds, as plain data.
pub struct RuleModel {
    pub selectors: Seq<SelectorModel>,
    pub declarations: Seq<(Seq<char>, ValueModel)>,
}

/// A rule: selectors, then a `{` and the declarations of the block, with
/// the position where the declarations end (the closing `}` is not read).
pub open spec fn rule_at(s: Seq<char>, i: int) -> Result<(RuleModel, int), ParseError> {
    match selectors_at(s, i) {
        Err(e) => Err(e),
        Ok((sels, j)) => {
            let k = scan(s, j, CharClass::Whitespace);
            if k >= s.len() {
                Err(ParseError::OutOfBounds(k as usize))
            } else if s[k] != '{' {
                Err(ParseError::StructuralMismatch(k as usize))
            } else {
                match declarations_at(s, k + 1) {
                    Err(e) => Err(e),
                    Ok((ds, m)) => Ok((RuleModel { selectors: sels, declarations: ds }, m)),
                }
            }
        },
    }
}

pub proof fn lemma_rule_bounds(s: Seq<char>, i: int)
    requires
        0 <= i <= s.len(),
    ensures
        rule_at(s, i) matches Ok((_, m)) ==> i < m <= s.len(),
{
    lemma_selectors_bounds(s, i);
    if let Ok((_, j)) = selectors_at(s, i) {
        lemma_scan_bounds(s, j, CharClass::Whitespace);
        let k = scan(s, j, CharClass::Whitespace);
        if k < s.len() {
            lemma_declarations_bounds(s, k + 1);
        }
    }
}

/// The rules of a stylesheet from `i` on, each closed by a `}`; whitespace
/// before each rule is skipped.
pub open spec fn stylesheet_at(s: Seq<char>, i: int) -> Result<Seq<RuleModel>, ParseError>
    decreases s.len() - i,
{
    let j = scan(s, i, CharClass::Whitespace);
    if i < 0 || i > s.len() || j >= s.len() {
        Ok(Seq::empty())
    } else {
        proof {
            lemma_scan_bounds(s, i, CharClass::Whitespace);
            lemma_rule_bounds(s, j);
        }
        match rule_at(s, j) {
            Err(e) => Err(e),
            Ok((rule, m)) => {
                if m >= s.len() {
                    Err(ParseError::OutOfBounds(m as usize))
                } else if s[m] != '}' {
                    Err(ParseError::StructuralMismatch(m as usize))
                } else {
                    match stylesheet_at(s, m + 1) {
                        Err(e) => Err(e),
                        Ok(rest) => Ok(seq![rule] + rest),
                    }
                }
            },
        }
    }
}

/// A rule: selectors and the declarations that apply to what they match.
#[derive(Debug)]
pub struct Rule {
    pub selectors: Vec<SimpleSelector>,
    pub declarations: Vec<Declaration>,
}

impl Rule {
    pub open spec fn view(&self) -> RuleModel {
        RuleModel {
            selectors: selector_views(self.selectors@),
            declarations: decl_views(self.declarations@),
        }
    }
}

/// A list of rules.
#[derive(Debug)]
pub struct Stylesheet {
    pub rules: Vec<Rule>,
}

pub open spec fn rule_views(v: Seq<Rule>) -> Seq<RuleModel> {
    Seq::new(v.len(), |i: int| v[i]@)
}

impl CSSParser {
    /// Reads a rule: selectors, a `{`, and the declarations of the block,
    /// up to the `}` that closes it, which stays unread.
    pub fn parse_rule(&mut self) -> (r: Result<Rule, ParseError>)
        requires
            old(self).wf(),
        ensures
            final(self).wf(),
            final(self).input() == old(self).input(),
            match rule_at(old(self).input(), old(self).pos()) {
                Ok((m, k)) => r matches Ok(rule) && rule@ == m && final(self).pos() == k,
                Err(e) => r == Err::<Rule, ParseError>(e),
            },
    {
        let selectors = match self.parse_selectors() {
            Ok(v) => v,
            Err(e) => return Err(e),
        };
        self.text_parser.remove_whitespaces();
        let k = self.text_parser.position();
        if self.text_parser.eol() {
            return Err(ParseError::OutOfBounds(k));
        }
        if self.text_parser.consume_char() != '{' {
            return Err(ParseError::StructuralMismatch(k));
        }
        let declarations = match self.parse_declarations() {
            Ok(v) => v,
            Err(e) => return Err(e),
        };
        Ok(Rule { selectors, declarations })
    }

    /// Reads every rule up to the end of input.
    pub fn parse_stylesheet(&mut self) -> (r: Result<Stylesheet, ParseError>)
        requires
            old(self).wf(),
        ensures
            final(self).wf(),
            final(self).input() == old(self).input(),
            match stylesheet_at(old(self).input(), old(self).pos()) {
                Ok(ms) => r matches Ok(sheet) && rule_views(sheet.rules@) == ms,
                Err(e) => r == Err::<Stylesheet, ParseError>(e),
            },
    {
        let ghost s = self.input();
        let ghost i0 = self.pos();
        let mut rules: Vec<Rule> = Vec::new();
        proof {
            match stylesheet_at(s, i0) {
                Ok(ms) => {
                    assert(Seq::<RuleModel>::empty() + ms =~= ms);
                },
                Err(_) => {},
            }
            assert(rule_views(rules@) =~= Seq::<RuleModel>::empty());
        }
        loop
            invariant
                self.wf(),
                self.input() == s,
                s == old(self).input(),
                i0 == old(self).pos(),
                stylesheet_at(s, i0) == match stylesheet_at(s, self.pos()) {
                    Ok(ms) => Ok(rule_views(rules@) + ms),
                    Err(e) => Err(e),
                },
            decreases s.len() - self.pos(),
        {
            let ghost p = self.pos();
            self.text_parser.remove_whitespaces();
            proof {
                lemma_scan_bounds(s, p, CharClass::Whitespace);
                lemma_rule_bounds(s, self.pos());
            }
            if self.text_parser.eol() {
                assert(rule_views(rules@) + Seq::empty() =~= rule_views(rules@));
                return Ok(Stylesheet { rules });
            }
            let rule = match self.parse_rule() {
                Ok(rule) => rule,
                Err(e) => return Err(e),
            };
            let m = self.text_parser.position();
            if self.text_parser.eol() {
                return Err(ParseError::OutOfBounds(m));
            }
            if self.text_parser.consume_char() != '}' {
                return Err(ParseError::StructuralMismatch(m));
            }
            let ghost rv = rule@;
            let ghost old_views = rule_views(rules@);
            rules.push(rule);
            proof {
                assert(rule_views(rules@) =~= old_views.push(rv));
                match stylesheet_at(s, self.pos()) {
                    Ok(ms) => {
                        assert(old_views + (seq![rv] + ms) =~= old_views.push(rv) + ms);
                    },
                    Err(_) => {},
                }
            }
        }
    }
}

} // verus!
