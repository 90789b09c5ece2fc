use vstd::prelude::*;
use crate::dom::{map_of, pair_text, pairs_text, lemma_visit_depths, visit, trees_of, Attributes, Content, Document, Node, Tree};
use crate::parser::{accepts, lemma_scan_bounds, scan, CharClass, ParseError, TextParser};
use crate::text::{free_of, lemma_split_append, lemma_split_single, split_chars, split_seq, string_of, views};

verus! {

/// Where a tag name that starts at `i` ends.
pub open spec fn tag_end(s: Seq<char>, i: int) -> int {
    scan(s, i, CharClass::Alphanumeric)
}

/// Where the `=` of an attribute piece stands, or the piece's length when
/// it has none.
pub open spec fn eq_index(p: Seq<char>) -> int {
    scan(p, 0, CharClass::Not('='))
}

/// Whether every piece holds an `=`.
pub open spec fn all_pairs(ps: Seq<Seq<char>>) -> bool {
    forall|k: int| 0 <= k < ps.len() ==> eq_index(#[trigger] ps[k]) < ps[k].len()
}

/// The attributes that `key=value` pieces set, split at their first `=`; a
/// later piece wins over an earlier one with the same key.
pub open spec fn attrs_of(ps: Seq<Seq<char>>) -> Map<Seq<char>, Seq<char>>
    decreases ps.len(),
{
    if ps.len() == 0 {
        Map::empty()
    } else {
        let p = ps.last();
        attrs_of(ps.drop_last()).insert(
            p.subrange(0, eq_index(p)),
            p.subrange(eq_index(p) + 1, p.len() as int),
        )
    }
}

/// The attribute list of an opening tag, from `i` (just after the tag name)
/// to the `>` that closes the tag, and the position of that `>`.
pub open spec fn attributes_at(s: Seq<char>, i: int) -> Result<
    (Map<Seq<char>, Seq<char>>, int),
    ParseError,
> {
    if i >= s.len() {
        Err(ParseError::OutOfBounds(i as usize))
    } else if s[i] == '>' {
        Ok((Map::empty(), i))
    } else {
        let j = scan(s, i + 1, CharClass::Not('>'));
        let ps = split_seq(s.subrange(i + 1, j), ' ');
        if all_pairs(ps) {
            Ok((attrs_of(ps), j))
        } else {
            Err(ParseError::StructuralMismatch(j as usize))
        }
    }
}

/// An opening tag `<name attributes>` at `i`: its name, its attributes, and
/// the position after it.
pub open spec fn open_tag_at(s: Seq<char>, i: int) -> Result<
    (Seq<char>, Map<Seq<char>, Seq<char>>, int),
    ParseError,
> {
    if i >= s.len() {
        Err(ParseError::OutOfBounds(i as usize))
    } else if s[i] != '<' {
        Err(ParseError::StructuralMismatch(i as usize))
    } else {
        let t = tag_end(s, i + 1);
        match attributes_at(s, t) {
            Err(e) => Err(e),
            Ok((m, j)) => {
                if j >= s.len() {
                    Err(ParseError::OutOfBounds(j as usize))
                } else if s[j] != '>' {
                    Err(ParseError::StructuralMismatch(j as usize))
                } else {
                    Ok((s.subrange(i + 1, t), m, j + 1))
                }
            },
        }
    }
}

/// A parse result with `ts` put before the nodes that it found.
pub open spec fn prepend(ts: Seq<Tree>, r: Result<(Seq<Tree>, int), ParseError>) -> Result<
    (Seq<Tree>, int),
    ParseError,
> {
    match r {
        Ok((rest, k)) => Ok((ts + rest, k)),
        Err(e) => Err(e),
    }
}

pub proof fn lemma_open_tag_bounds(s: Seq<char>, i: int)
    requires
        0 <= i,
    ensures
        open_tag_at(s, i) matches Ok((_, _, j)) ==> i < j <= s.len(),
{
    if 0 <= i < s.len() && s[i] == '<' {
        lemma_scan_bounds(s, i + 1, CharClass::Alphanumeric);
        let t = tag_end(s, i + 1);
        if t < s.len() && s[t] != '>' {
            lemma_scan_bounds(s, t + 1, CharClass::Not('>'));
        }
    }
}

/// Whether a closing tag `</` starts at `j`.
pub open spec fn closing_at(s: Seq<char>, j: int) -> bool {
    j + 1 < s.len() && s[j] == '<' && s[j + 1] == '/'
}

/// The nodes of a sequence of siblings from `i` on, up to the end of input
/// or to a closing tag, with the position where the sequence ends.
/// Whitespace before each node is skipped.
pub open spec fn nodes_at(s: Seq<char>, i: int) -> Result<(Seq<Tree>, int), ParseError>
    decreases s.len() - i, 1int,
{
    let j = scan(s, i, CharClass::Whitespace);
    if i < 0 || i > s.len() {
        Err(ParseError::OutOfBounds(0))
    } else if j >= s.len() || closing_at(s, j) {
        Ok((Seq::empty(), j))
    } else {
        proof {
            lemma_scan_bounds(s, i, CharClass::Whitespace);
        }
        let first = if s[j] == '<' {
            element_at(s, j)
        } else {
            let k = scan(s, j, CharClass::Not('<'));
            Ok((Tree { content: Content::Text(s.subrange(j, k)), children: Seq::empty() }, k))
        };
        match first {
            Err(e) => Err(e),
            Ok((t, k)) => {
                // A node always ends after it starts (`parse_nodes` relies on
                // it); the test keeps this recursion well founded.
                if j < k <= s.len() {
                    match nodes_at(s, k) {
                        Err(e) => Err(e),
                        Ok((ts, m)) => Ok((seq![t] + ts, m)),
                    }
                } else {
                    Err(ParseError::OutOfBounds(k as usize))
                }
            },
        }
    }
}

/// The element that starts at `i`: an opening tag, the nodes inside, and the
/// closing tag, which must name the same tag; with the position after it.
pub open spec fn element_at(s: Seq<char>, i: int) -> Result<(Tree, int), ParseError>
    decreases s.len() - i, 0int,
{
    if i < 0 {
        Err(ParseError::OutOfBounds(0))
    } else {
        proof {
            lemma_open_tag_bounds(s, i);
        }
        match open_tag_at(s, i) {
            Err(e) => Err(e),
            Ok((tag, attrs, j)) => match nodes_at(s, j) {
                Err(e) => Err(e),
                Ok((kids, k)) => {
                    let e = tag_end(s, k + 2);
                    if k >= s.len() {
                        Err(ParseError::OutOfBounds(k as usize))
                    } else if s[k] != '<' {
                        Err(ParseError::StructuralMismatch(k as usize))
                    } else if k + 1 >= s.len() {
                        Err(ParseError::OutOfBounds((k + 1) as usize))
                    } else if s[k + 1] != '/' {
                        Err(ParseError::StructuralMismatch((k + 1) as usize))
                    } else if s.subrange(k + 2, e) != tag {
                        Err(ParseError::StructuralMismatch((k + 2) as usize))
                    } else if e >= s.len() {
                        Err(ParseError::OutOfBounds(e as usize))
                    } else if s[e] != '>' {
                        Err(ParseError::StructuralMismatch(e as usize))
                    } else {
                        Ok(
                            (
                                Tree {
                                    content: Content::Element { tag, attrs },
                                    children: kids,
                                },
                                e + 1,
                            ),
                        )
                    }
                },
            },
        }
    }
}

/// A whole document: an opening `html` tag and the nodes after it, which
/// become the children of the root.
pub open spec fn document_at(s: Seq<char>, i: int) -> Result<Tree, ParseError> {
    match open_tag_at(s, i) {
        Err(e) => Err(e),
        Ok((tag, attrs, j)) => {
            if tag != seq!['h', 't', 'm', 'l'] {
                Err(ParseError::StructuralMismatch((i + 1) as usize))
            } else {
                match nodes_at(s, j) {
                    Err(e) => Err(e),
                    Ok((kids, _)) => Ok(
                        Tree { content: Content::Element { tag, attrs }, children: kids },
                    ),
                }
            }
        },
    }
}

/// Parsing a single element `<T>…</T>` and visiting the tree in pre-order
/// reports the element `T` first, and as the only node at the top level:
/// every later node lies below it.
pub proof fn lemma_single_element_visited_once(s: Seq<char>)
    requires
        element_at(s, 0) is Ok,
    ensures
        ({
            let v = visit(element_at(s, 0)->Ok_0.0, 0);
            &&& v.len() >= 1
            &&& v[0].0 == 0
            &&& v[0].1 matches Content::Element { tag, .. } && tag == s.subrange(1, tag_end(s, 1))
            &&& forall|i: int| 0 < i < v.len() ==> #[trigger] v[i].0 > 0
        }),
{
    let t = element_at(s, 0)->Ok_0.0;
    lemma_visit_depths(t, 0);
}

/// Whether a pair can be written as `key=value` and read back: no `=` in
/// the key, and no space or `>` in the key or the value.
pub open spec fn plain_pair(e: (String, String)) -> bool {
    &&& free_of(e.0@, '=')
    &&& free_of(e.0@, ' ')
    &&& free_of(e.0@, '>')
    &&& free_of(e.1@, ' ')
    &&& free_of(e.1@, '>')
}

proof fn lemma_pair_text_free(e: (String, String), c: char)
    requires
        free_of(e.0@, c),
        free_of(e.1@, c),
        c != '=',
    ensures
        free_of(pair_text(e), c),
{
    let p = pair_text(e);
    assert forall|k: int| 0 <= k < p.len() implies p[k] != c by {
        if k < e.0@.len() {
            assert(p[k] == e.0@[k]);
        } else if k > e.0@.len() {
            assert(p[k] == e.1@[k - e.0@.len() - 1]);
        }
    }
}

proof fn lemma_pairs_text_free(es: Seq<(String, String)>)
    requires
        forall|i: int| 0 <= i < es.len() ==> plain_pair(#[trigger] es[i]),
    ensures
        free_of(pairs_text(es), '>'),
    decreases es.len(),
{
    if es.len() == 1 {
        lemma_pair_text_free(es[0], '>');
    } else if es.len() > 1 {
        lemma_pairs_text_free(es.drop_last());
        lemma_pair_text_free(es.last(), '>');
        let a = pairs_text(es.drop_last());
        let b = pair_text(es.last());
        let t = a + seq![' '] + b;
        assert forall|k: int| 0 <= k < t.len() implies t[k] != '>' by {
            if k < a.len() {
                assert(t[k] == a[k]);
            } else if k > a.len() {
                assert(t[k] == b[k - a.len() - 1]);
            }
        }
    }
}

proof fn lemma_pairs_split(es: Seq<(String, String)>)
    requires
        es.len() > 0,
        forall|i: int| 0 <= i < es.len() ==> plain_pair(#[trigger] es[i]),
    ensures
        split_seq(pairs_text(es), ' ').len() == es.len(),
        forall|i: int|
            0 <= i < es.len() ==> #[trigger] split_seq(pairs_text(es), ' ')[i] == pair_text(es[i]),
    decreases es.len(),
{
    lemma_pair_text_free(es.last(), ' ');
    if es.len() == 1 {
        lemma_split_single(pair_text(es[0]), ' ');
    } else {
        lemma_pairs_split(es.drop_last());
        lemma_split_append(pairs_text(es.drop_last()), pair_text(es.last()), ' ');
        assert forall|i: int| 0 <= i < es.len() implies #[trigger] split_seq(pairs_text(es), ' ')[i]
            == pair_text(es[i]) by {
            if i < es.len() - 1 {
                assert(es.drop_last()[i] == es[i]);
            }
        }
    }
}

proof fn lemma_attrs_of_pairs(ps: Seq<Seq<char>>, es: Seq<(String, String)>)
    requires
        ps.len() == es.len(),
        forall|i: int| 0 <= i < es.len() ==> #[trigger] ps[i] == pair_text(es[i]),
        forall|i: int| 0 <= i < es.len() ==> plain_pair(#[trigger] es[i]),
    ensures
        all_pairs(ps),
        attrs_of(ps) == map_of(es),
    decreases es.len(),
{
    if es.len() > 0 {
        lemma_attrs_of_pairs(ps.drop_last(), es.drop_last());
        assert forall|k: int| 0 <= k < ps.len() implies eq_index(#[trigger] ps[k]) < ps[k].len() by {
            let e = es[k];
            let p = ps[k];
            assert(p[e.0@.len() as int] == '=');
            crate::parser::lemma_scan_at(p, 0, e.0@.len() as int, CharClass::Not('='));
        }
        let e = es.last();
        let p = ps.last();
        assert(p == pair_text(e));
        crate::parser::lemma_scan_at(p, 0, e.0@.len() as int, CharClass::Not('='));
        assert(p.subrange(0, e.0@.len() as int) =~= e.0@);
        assert(p.subrange(e.0@.len() as int + 1, p.len() as int) =~= e.1@);
    }
}

/// Writing attributes out as `key=value` pairs separated by single spaces,
/// and reading them back as the attribute list of a tag, gives the same
/// attributes: where there is at least one, no key holds `=`, and no key or
/// value holds a space or `>`.
pub proof fn lemma_attributes_round_trip(a: Attributes)
    requires
        a.entries().len() > 0,
        forall|i: int| 0 <= i < a.entries().len() ==> plain_pair(#[trigger] a.entries()[i]),
    ensures
        ({
            let text = seq![' '] + pairs_text(a.entries()) + seq!['>'];
            attributes_at(text, 0) == Ok::<_, ParseError>((a@, text.len() - 1))
        }),
{
    let es = a.entries();
    let body = pairs_text(es);
    let text = seq![' '] + body + seq!['>'];
    lemma_pairs_text_free(es);
    assert forall|k: int| 1 <= k < text.len() - 1 implies accepts(CharClass::Not('>'), #[trigger] text[k]) by {
        assert(text[k] == body[k - 1]);
    }
    crate::parser::lemma_scan_at(text, 1, text.len() - 1, CharClass::Not('>'));
    assert(text.subrange(1, text.len() - 1) =~= body);
    lemma_pairs_split(es);
    lemma_attrs_of_pairs(split_seq(body, ' '), es);
}

/// Parses a subset of HTML into a tree of nodes.
#[derive(Debug)]
pub struct HTMLParser {
    text_parser: TextParser,
}

impl HTMLParser {
    /// The whole input.
    pub closed spec fn input(&self) -> Seq<char> {
        self.text_parser.chars()
    }

    /// The position of the next character to read.
    pub closed spec fn pos(&self) -> int {
        self.text_parser.pos()
    }

    pub closed spec fn wf(&self) -> bool {
        self.text_parser.wf()
    }

    pub fn new(input: String) -> (r: HTMLParser)
        ensures
            r.wf(),
            r.input() == input@,
            r.pos() == 0,
    {
        HTMLParser { text_parser: TextParser::new(input) }
    }

    /// Reads a tag name: the alphanumeric characters from the position on.
    pub fn parse_tag_name(&mut self) -> (r: String)
        requires
            old(self).wf(),
        ensures
            final(self).wf(),
            final(self).input() == old(self).input(),
            final(self).pos() == tag_end(old(self).input(), old(self).pos()),
            r@ == old(self).input().subrange(old(self).pos(), final(self).pos()),
    {
        let alnum = |c: char| -> (r: bool)
            ensures
                r == accepts(CharClass::Alphanumeric, c),
            { c.is_alphanumeric() };
        self.text_parser.scan_with(alnum, Ghost(CharClass::Alphanumeric))
    }

    /// Reads a text node: everything up to the next `<`.
    fn parse_text_node(&mut self) -> (r: Node)
        requires
            old(self).wf(),
        ensures
            final(self).wf(),
            final(self).input() == old(self).input(),
            final(self).pos() == scan(old(self).input(), old(self).pos(), CharClass::Not('<')),
            r@ == (Tree {
                content: Content::Text(old(self).input().subrange(old(self).pos(), final(self).pos())),
                children: Seq::empty(),
            }),
    {
        Node::text(self.text_parser.parse_text_data())
    }

    /// Reads the attribute list of an opening tag, up to its closing `>`,
    /// which stays unread.
    fn parse_element_attributes(&mut self) -> (r: Result<Attributes, ParseError>)
        requires
            old(self).wf(),
        ensures
            final(self).wf(),
            final(self).input() == old(self).input(),
            match attributes_at(old(self).input(), old(self).pos()) {
                Ok((m, j)) => r matches Ok(a) && a@ == m && final(self).pos() == j,
                Err(e) => r == Err::<Attributes, ParseError>(e),
            },
    {
        let mut attrs = Attributes::new();
        if self.text_parser.eol() {
            return Err(ParseError::OutOfBounds(self.text_parser.position()));
        }
        if self.text_parser.get_current_char() == '>' {
            return Ok(attrs);
        }
        self.text_parser.consume_char();
        let start = self.text_parser.position();
        let not_close = |c: char| -> (r: bool)
            ensures
                r == accepts(CharClass::Not('>'), c),
            { c != '>' };
        self.text_parser.scan_with(not_close, Ghost(CharClass::Not('>')));
        let end = self.text_parser.position();
        proof {
            lemma_scan_bounds(self.input(), start as int, CharClass::Not('>'));
        }
        let input = self.text_parser.input_chars();
        let pieces = split_chars(input, start, end, ' ');
        let ghost ps = split_seq(self.input().subrange(start as int, end as int), ' ');
        let mut i: usize = 0;
        while i < pieces.len()
            invariant
                self.wf(),
                self.input() == old(self).input(),
                self.pos() == end,
                start == old(self).pos() + 1,
                old(self).pos() < old(self).input().len(),
                old(self).input()[old(self).pos()] != '>',
                end == scan(self.input(), start as int, CharClass::Not('>')),
                ps == split_seq(self.input().subrange(start as int, end as int), ' '),
                i <= pieces@.len(),
                views(pieces@) == ps,
                attrs@ == attrs_of(ps.subrange(0, i as int)),
                forall|k: int| 0 <= k < i ==> eq_index(#[trigger] ps[k]) < ps[k].len(),
            decreases pieces@.len() - i,
        {
            let piece = &pieces[i];
            let ghost p = ps[i as int];
            assert(piece@ == p);
            let mut e: usize = 0;
            while e < piece.len() && piece[e] != '='
                invariant
                    e <= piece@.len(),
                    forall|k: int| 0 <= k < e ==> accepts(CharClass::Not('='), #[trigger] piece@[k]),
                decreases piece@.len() - e,
            {
                e = e + 1;
            }
            proof {
                crate::parser::lemma_scan_at(p, 0, e as int, CharClass::Not('='));
            }
            if e == piece.len() {
                assert(eq_index(ps[i as int]) == ps[i as int].len());
                assert(!all_pairs(ps));
                return Err(ParseError::StructuralMismatch(end));
            }
            let key = string_of(piece, 0, e);
            let value = string_of(piece, e + 1, piece.len());
            attrs.insert(key, value);
            proof {
                let pre = ps.subrange(0, i as int);
                let post = ps.subrange(0, i + 1);
                assert(post.drop_last() =~= pre);
                assert(post.last() == p);
            }
            i = i + 1;
        }
        assert(ps.subrange(0, ps.len() as int) =~= ps);
        Ok(attrs)
    }

    /// Reads an opening tag `<name attributes>`.
    fn consume_element_tag(&mut self) -> (r: Result<(String, Attributes), ParseError>)
        requires
            old(self).wf(),
        ensures
            final(self).wf(),
            final(self).input() == old(self).input(),
            match open_tag_at(old(self).input(), old(self).pos()) {
                Ok((tag, m, j)) => r matches Ok((t, a)) && t@ == tag && a@ == m && final(self).pos()
                    == j,
                Err(e) => r == Err::<(String, Attributes), ParseError>(e),
            },
    {
        let start = self.text_parser.position();
        if self.text_parser.eol() {
            return Err(ParseError::OutOfBounds(start));
        }
        if self.text_parser.consume_char() != '<' {
            return Err(ParseError::StructuralMismatch(start));
        }
        let tag_name = self.parse_tag_name();
        let attrs = match self.parse_element_attributes() {
            Ok(a) => a,
            Err(e) => return Err(e),
        };
        let j = self.text_parser.position();
        if self.text_parser.eol() {
            return Err(ParseError::OutOfBounds(j));
        }
        if self.text_parser.consume_char() != '>' {
            return Err(ParseError::StructuralMismatch(j));
        }
        Ok((tag_name, attrs))
    }

    /// Reads sibling nodes up to the end of input or to a closing tag,
    /// which stays unread.
    fn parse_nodes(&mut self) -> (r: Result<Vec<Box<Node>>, ParseError>)
        requires
            old(self).wf(),
        ensures
            final(self).wf(),
            final(self).input() == old(self).input(),
            match nodes_at(old(self).input(), old(self).pos()) {
                Ok((ts, k)) => r matches Ok(v) && trees_of(v@) == ts && final(self).pos() == k,
                Err(e) => r == Err::<Vec<Box<Node>>, ParseError>(e),
            },
            r is Ok ==> old(self).pos() <= final(self).pos(),
        decreases old(self).input().len() - old(self).pos(), 1int,
    {
        let ghost s = self.input();
        let ghost i0 = self.pos();
        let mut nodes: Vec<Box<Node>> = Vec::new();
        proof {
            assert(prepend(Seq::empty(), nodes_at(s, i0)) == nodes_at(s, i0)) by {
                match nodes_at(s, i0) {
                    Ok((ts, k)) => {
                        assert(Seq::<Tree>::empty() + ts =~= ts);
                    },
                    Err(_) => {},
                }
            }
            assert(trees_of(nodes@) =~= Seq::<Tree>::empty());
        }
        loop
            invariant
                self.wf(),
                self.input() == s,
                i0 <= self.pos() <= s.len(),
                i0 == old(self).pos(),
                s == old(self).input(),
                nodes_at(s, i0) == prepend(trees_of(nodes@), nodes_at(s, self.pos())),
            decreases s.len() - self.pos(),
        {
            let ghost p = self.pos();
            self.text_parser.remove_whitespaces();
            proof {
                lemma_scan_bounds(s, p, CharClass::Whitespace);
            }
            let ghost j = self.pos();
            let close = String::from_str("</");
            proof {
                reveal_strlit("</");
                assert(close@ =~= seq!['<', '/']);
            }
            if self.text_parser.eol() || self.text_parser.starts_with(close.as_str()) {
                proof {
                    if j < s.len() {
                        assert(self.text_parser.rest().subrange(0, 2) == seq!['<', '/']);
                        assert(self.text_parser.rest()[0] == s[j]);
                        assert(self.text_parser.rest()[1] == s[j + 1]);
                        assert(closing_at(s, j));
                    }
                    assert(trees_of(nodes@) + Seq::<Tree>::empty() =~= trees_of(nodes@));
                }
                return Ok(nodes);
            }
            proof {
                if closing_at(s, j) {
                    assert(self.text_parser.rest().subrange(0, 2) =~= seq!['<', '/']);
                }
            }
            let node = if self.text_parser.get_current_char() == '<' {
                match self.parse_element_node() {
                    Ok(n) => n,
                    Err(e) => {
                        assert(nodes_at(s, p) == Err::<(Seq<Tree>, int), ParseError>(e));
                        return Err(e);
                    },
                }
            } else {
                let n = self.parse_text_node();
                proof {
                    lemma_scan_bounds(s, j + 1, CharClass::Not('<'));
                }
                n
            };
            let ghost t = node@;
            let ghost k = self.pos();
            let ghost old_trees = trees_of(nodes@);
            nodes.push(Box::new(node));
            proof {
                assert(trees_of(nodes@) =~= old_trees.push(t));
                assert(j < k <= s.len());
                assert(nodes_at(s, p) == prepend(seq![t], nodes_at(s, k)));
                match nodes_at(s, k) {
                    Ok((ts, m)) => {
                        assert(old_trees + (seq![t] + ts) =~= old_trees.push(t) + ts);
                    },
                    Err(_) => {},
                }
            }
        }
    }

    /// Reads an element: its opening tag, its children, and its closing tag,
    /// which must name the same tag.
    pub fn parse_element_node(&mut self) -> (r: Result<Node, ParseError>)
        requires
            old(self).wf(),
        ensures
            final(self).wf(),
            final(self).input() == old(self).input(),
            match element_at(old(self).input(), old(self).pos()) {
                Ok((t, k)) => r matches Ok(n) && n@ == t && final(self).pos() == k,
                Err(e) => r == Err::<Node, ParseError>(e),
            },
            r is Ok ==> old(self).pos() < final(self).pos(),
        decreases old(self).input().len() - old(self).pos(), 0int,
    {
        let ghost s = self.input();
        let ghost i = self.pos();
        proof {
            lemma_open_tag_bounds(s, i);
        }
        let (tag_name, attrs) = match self.consume_element_tag() {
            Ok(x) => x,
            Err(e) => return Err(e),
        };
        let children = match self.parse_nodes() {
            Ok(c) => c,
            Err(e) => return Err(e),
        };
        let k = self.text_parser.position();
        if self.text_parser.eol() {
            return Err(ParseError::OutOfBounds(k));
        }
        if self.text_parser.consume_char() != '<' {
            return Err(ParseError::StructuralMismatch(k));
        }
        if self.text_parser.eol() {
            return Err(ParseError::OutOfBounds(k + 1));
        }
        if self.text_parser.consume_char() != '/' {
            return Err(ParseError::StructuralMismatch(k + 1));
        }
        let closing = self.parse_tag_name();
        proof {
            lemma_scan_bounds(s, k + 2, CharClass::Alphanumeric);
        }
        if closing != tag_name {
            return Err(ParseError::StructuralMismatch(k + 2));
        }
        let e = self.text_parser.position();
        if self.text_parser.eol() {
            return Err(ParseError::OutOfBounds(e));
        }
        if self.text_parser.consume_char() != '>' {
            return Err(ParseError::StructuralMismatch(e));
        }
        Ok(Node::element(tag_name, attrs, children))
    }

    /// Reads a document: an opening `html` tag and the nodes after it, which
    /// become the children of the root.
    pub fn parse_document(&mut self) -> (r: Result<Document, ParseError>)
        requires
            old(self).wf(),
        ensures
            final(self).wf(),
            final(self).input() == old(self).input(),
            match document_at(old(self).input(), old(self).pos()) {
                Ok(t) => r matches Ok(d) && d.root_node()@ == t,
                Err(e) => r == Err::<Document, ParseError>(e),
            },
    {
        let start = self.text_parser.position();
        let (document_tag, document_attributes) = match self.consume_element_tag() {
            Ok(x) => x,
            Err(e) => return Err(e),
        };
        let html = String::from_str("html");
        proof {
            reveal_strlit("html");
            assert(html@ =~= seq!['h', 't', 'm', 'l']);
        }
        if document_tag != html {
            return Err(ParseError::StructuralMismatch(start + 1));
        }
        let all_nodes = match self.parse_nodes() {
            Ok(n) => n,
            Err(e) => return Err(e),
        };
        let root = Node::element(document_tag, document_attributes, all_nodes);
        Ok(Document::new(root))
    }
}

} // verus!
