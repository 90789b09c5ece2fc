use vstd::prelude::*;
use crate::text::{chars_of, split_chars, split_seq, string_of, views};

verus! {

/// The map that a list of key/value pairs describes, a later pair winning
/// over an earlier one with the same key.
pub open spec fn map_of(s: Seq<(String, String)>) -> Map<Seq<char>, Seq<char>>
    decreases s.len(),
{
    if s.len() == 0 {
        Map::empty()
    } else {
        map_of(s.drop_last()).insert(s.last().0@, s.last().1@)
    }
}

/// Whether no two pairs of `s` have the same key.
pub open spec fn keys_unique(s: Seq<(String, String)>) -> bool {
    forall|i: int, j: int| 0 <= i < j < s.len() ==> s[i].0@ != s[j].0@
}

pub proof fn lemma_map_of_dom(s: Seq<(String, String)>, k: Seq<char>)
    ensures
        map_of(s).contains_key(k) <==> exists|i: int| 0 <= i < s.len() && s[i].0@ == k,
    decreases s.len(),
{
    if s.len() > 0 {
        lemma_map_of_dom(s.drop_last(), k);
        if map_of(s.drop_last()).contains_key(k) {
            let i = choose|i: int| 0 <= i < s.drop_last().len() && s.drop_last()[i].0@ == k;
            assert(s[i].0@ == k);
        }
        if exists|i: int| 0 <= i < s.len() && s[i].0@ == k {
            let i = choose|i: int| 0 <= i < s.len() && s[i].0@ == k;
            if i < s.len() - 1 {
                assert(s.drop_last()[i].0@ == k);
            }
        }
    }
}

pub proof fn lemma_map_of_value(s: Seq<(String, String)>, i: int)
    requires
        keys_unique(s),
        0 <= i < s.len(),
    ensures
        map_of(s).contains_key(s[i].0@),
        map_of(s)[s[i].0@] == s[i].1@,
    decreases s.len(),
{
    if i < s.len() - 1 {
        assert(keys_unique(s.drop_last()));
        lemma_map_of_value(s.drop_last(), i);
        assert(s.drop_last()[i] == s[i]);
    }
}

/// One pair written as `key=value`.
pub open spec fn pair_text(e: (String, String)) -> Seq<char> {
    e.0@ + seq!['='] + e.1@
}

/// Pairs written as `key=value`, separated by single spaces.
pub open spec fn pairs_text(es: Seq<(String, String)>) -> Seq<char>
    decreases es.len(),
{
    if es.len() == 0 {
        Seq::empty()
    } else if es.len() == 1 {
        pair_text(es[0])
    } else {
        pairs_text(es.drop_last()) + seq![' '] + pair_text(es.last())
    }
}

/// The attributes of an element: a map from names to values.
#[derive(Debug)]
pub struct Attributes {
    entries: Vec<(String, String)>,
}

impl Attributes {
    /// The key/value pairs, in the order in which their keys were first set.
    pub closed spec fn entries(&self) -> Seq<(String, String)> {
        self.entries@
    }

    pub open spec fn view(&self) -> Map<Seq<char>, Seq<char>> {
        map_of(self.entries())
    }

    #[verifier::type_invariant]
    spec fn wf(&self) -> bool {
        keys_unique(self.entries@)
    }

    pub fn new() -> (r: Attributes)
        ensures
            r@ == Map::<Seq<char>, Seq<char>>::empty(),
    {
        Attributes { entries: Vec::new() }
    }

    /// Number of attributes.
    pub fn len(&self) -> (r: usize)
        ensures
            r == self@.len(),
    {
        proof {
            use_type_invariant(self);
            self.lemma_len();
        }
        self.entries.len()
    }

    proof fn lemma_len(&self)
        requires
            keys_unique(self.entries@),
        ensures
            self@.len() == self.entries@.len(),
            self@.dom().finite(),
        decreases self.entries@.len(),
    {
        let s = self.entries@;
        let ks = s.map_values(|p: (String, String)| p.0@);
        assert(self@.dom() =~= ks.to_set()) by {
            assert forall|k: Seq<char>| #[trigger] self@.dom().contains(k) <==> ks.to_set().contains(
                k,
            ) by {
                lemma_map_of_dom(s, k);
                if self@.dom().contains(k) {
                    let i = choose|i: int| 0 <= i < s.len() && s[i].0@ == k;
                    assert(ks[i] == k);
                }
                if ks.to_set().contains(k) {
                    let i = choose|i: int| 0 <= i < ks.len() && #[trigger] ks[i] == k;
                    assert(s[i].0@ == k);
                }
            }
        }
        assert(ks.no_duplicates()) by {
            assert forall|i: int, j: int| 0 <= i < ks.len() && 0 <= j < ks.len() && i != j implies ks[i]
                != ks[j] by {
                if i < j {
                    assert(s[i].0@ != s[j].0@);
                } else {
                    assert(s[j].0@ != s[i].0@);
                }
            }
        }
        ks.unique_seq_to_set();
    }

    /// Sets `key` to `value`, replacing an earlier value of `key`.
    pub fn insert(&mut self, key: String, value: String)
        ensures
            final(self)@ == old(self)@.insert(key@, value@),
    {
        proof {
            use_type_invariant(&*self);
        }
        let mut entries: Vec<(String, String)> = Vec::new();
        std::mem::swap(&mut entries, &mut self.entries);
        let ghost k = key@;
        let ghost v = value@;
        let mut i: usize = 0;
        while i < entries.len()
            invariant
                keys_unique(entries@),
                entries@ == old(self).entries@,
                i <= entries@.len(),
                forall|j: int| 0 <= j < i ==> entries@[j].0@ != k,
                key@ == k,
                value@ == v,
            decreases entries@.len() - i,
        {
            if entries[i].0 == key {
                let ghost before = entries@;
                entries.set(i, (key, value));
                let ghost after = entries@;
                assert(keys_unique(after)) by {
                    assert forall|a: int, b: int| 0 <= a < b < after.len() implies after[a].0@
                        != after[b].0@ by {
                        assert(before[a].0@ != before[b].0@);
                    }
                }
                assert(map_of(after) =~= map_of(before).insert(k, v)) by {
                    assert forall|x: Seq<char>| #[trigger] map_of(after).contains_key(x)
                        <==> map_of(before).insert(k, v).contains_key(x) by {
                        lemma_map_of_dom(after, x);
                        lemma_map_of_dom(before, x);
                        if map_of(after).contains_key(x) {
                            let j = choose|j: int| 0 <= j < after.len() && after[j].0@ == x;
                            if j != i {
                                assert(before[j].0@ == x);
                            }
                        }
                        if map_of(before).contains_key(x) {
                            let j = choose|j: int| 0 <= j < before.len() && before[j].0@ == x;
                            assert(after[j].0@ == x);
                        }
                        if x == k {
                            assert(after[i as int].0@ == x);
                        }
                    }
                    assert forall|x: Seq<char>| #[trigger] map_of(after).contains_key(x)
                        implies map_of(after)[x] == map_of(before).insert(k, v)[x] by {
                        lemma_map_of_dom(after, x);
                        let j = choose|j: int| 0 <= j < after.len() && after[j].0@ == x;
                        lemma_map_of_value(after, j);
                        assert(after[i as int].0@ == k && after[i as int].1@ == v);
                        if j != i {
                            assert(after[j] == before[j]);
                            lemma_map_of_value(before, j);
                        }
                    }
                }
                self.entries = entries;
                return ;
            }
            i = i + 1;
        }
        let ghost before = entries@;
        entries.push((key, value));
        assert(entries@.drop_last() =~= before);
        assert(keys_unique(entries@)) by {
            assert forall|a: int, b: int| 0 <= a < b < entries@.len() implies entries@[a].0@
                != entries@[b].0@ by {
                if b < before.len() {
                    assert(before[a].0@ != before[b].0@);
                }
            }
        }
        self.entries = entries;
    }

    /// The attributes written as `key=value` pairs separated by single spaces.
    pub fn serialize(&self) -> (r: String)
        ensures
            r@ == pairs_text(self.entries()),
    {
        let mut r = String::new();
        let mut i: usize = 0;
        while i < self.entries.len()
            invariant
                i <= self.entries@.len(),
                r@ == pairs_text(self.entries@.subrange(0, i as int)),
            decreases self.entries@.len() - i,
        {
            let ghost before = r@;
            if i > 0 {
                r.push(' ');
            }
            push_all(&mut r, &self.entries[i].0);
            r.push('=');
            push_all(&mut r, &self.entries[i].1);
            proof {
                let es = self.entries@.subrange(0, i + 1);
                assert(es.drop_last() =~= self.entries@.subrange(0, i as int));
                assert(es.last() == self.entries@[i as int]);
                if i == 0 {
                    assert(before =~= Seq::<char>::empty());
                    assert(r@ =~= pair_text(es[0]));
                } else {
                    assert(r@ =~= before + seq![' '] + pair_text(es.last()));
                }
            }
            i = i + 1;
        }
        assert(self.entries@.subrange(0, self.entries@.len() as int) =~= self.entries@);
        r
    }

    /// The value of `key`, if it is set.
    pub fn get(&self, key: &String) -> (r: Option<&String>)
        ensures
            r is None <==> !self@.contains_key(key@),
            r matches Some(v) ==> v@ == self@[key@],
    {
        proof {
            use_type_invariant(self);
        }
        let mut i: usize = 0;
        while i < self.entries.len()
            invariant
                keys_unique(self.entries@),
                i <= self.entries@.len(),
                forall|j: int| 0 <= j < i ==> self.entries@[j].0@ != key@,
            decreases self.entries@.len() - i,
        {
            if self.entries[i].0 == *key {
                proof {
                    lemma_map_of_value(self.entries@, i as int);
                }
                return Some(&self.entries[i].1);
            }
            i = i + 1;
        }
        proof {
            lemma_map_of_dom(self.entries@, key@);
        }
        None
    }
}

/// What a node of the tree holds, beside its children.
pub enum Content {
    Element { tag: Seq<char>, attrs: Map<Seq<char>, Seq<char>> },
    Text(Seq<char>),
    Comment(Seq<char>),
}

/// A node of the tree and, in order, its children.
pub struct Tree {
    pub content: Content,
    pub children: Seq<Tree>,
}

/// The data of an element node: its tag name and its attributes.
#[derive(Debug)]
pub struct ElementData {
    pub tag_name: String,
    pub attributes: Attributes,
}

#[derive(Debug)]
pub enum NodeType {
    Text(String),
    Element(ElementData),
    Comment(String),
}

/// A node of a document tree.
#[derive(Debug)]
pub struct Node {
    pub children: Vec<Box<Node>>,
    pub node_type: NodeType,
}

impl NodeType {
    pub open spec fn view(&self) -> Content {
        match self {
            NodeType::Text(t) => Content::Text(t@),
            NodeType::Element(e) => Content::Element { tag: e.tag_name@, attrs: e.attributes@ },
            NodeType::Comment(c) => Content::Comment(c@),
        }
    }
}

/// The class names that a `class` attribute value lists, each once.
pub open spec fn class_names(m: Map<Seq<char>, Seq<char>>) -> Set<Seq<char>> {
    if m.contains_key(seq!['c', 'l', 'a', 's', 's']) {
        split_seq(m[seq!['c', 'l', 'a', 's', 's']], ' ').to_set()
    } else {
        Set::empty()
    }
}

/// Whether `v` is `s` with repeats left out, in any order.
pub open spec fn lists_once(v: Seq<String>, s: Set<Seq<char>>) -> bool {
    &&& forall|i: int, j: int| 0 <= i < j < v.len() ==> v[i]@ != v[j]@
    &&& forall|c: Seq<char>| s.contains(c) <==> exists|i: int| 0 <= i < v.len() && #[trigger] v[i]@ == c
}

impl ElementData {
    /// The value of the `id` attribute, if there is one.
    pub fn id(&self) -> (r: Option<&String>)
        ensures
            r is None <==> !self.attributes@.contains_key(seq!['i', 'd']),
            r matches Some(v) ==> v@ == self.attributes@[seq!['i', 'd']],
    {
        let key = String::from_str("id");
        proof {
            reveal_strlit("id");
            assert(key@ =~= seq!['i', 'd']);
        }
        self.attributes.get(&key)
    }

    /// The class names that the `class` attribute lists, each once.
    pub fn classes(&self) -> (r: Vec<String>)
        ensures
            lists_once(r@, class_names(self.attributes@)),
    {
        let key = String::from_str("class");
        proof {
            reveal_strlit("class");
            assert(key@ =~= seq!['c', 'l', 'a', 's', 's']);
        }
        let mut r: Vec<String> = Vec::new();
        match self.attributes.get(&key) {
            None => {
                assert(lists_once(r@, class_names(self.attributes@)));
                r
            },
            Some(value) => {
                let chars = chars_of(value.as_str());
                let pieces = split_chars(&chars, 0, chars.len(), ' ');
                assert(chars@.subrange(0, chars@.len() as int) =~= value@);
                let ghost names = split_seq(value@, ' ');
                let mut i: usize = 0;
                while i < pieces.len()
                    invariant
                        i <= pieces@.len(),
                        views(pieces@) == names,
                        forall|a: int, b: int| 0 <= a < b < r@.len() ==> r@[a]@ != r@[b]@,
                        forall|c: Seq<char>|
                            names.subrange(0, i as int).contains(c) <==> exists|k: int|
                                0 <= k < r@.len() && #[trigger] r@[k]@ == c,
                    decreases pieces@.len() - i,
                {
                    let piece = string_of(&pieces[i], 0, pieces[i].len());
                    assert(pieces@[i as int]@.subrange(0, pieces@[i as int]@.len() as int)
                        =~= names[i as int]);
                    let mut seen = false;
                    let mut k: usize = 0;
                    while k < r.len()
                        invariant
                            k <= r@.len(),
                            !seen ==> forall|j: int| 0 <= j < k ==> r@[j]@ != piece@,
                            seen ==> exists|j: int| 0 <= j < r@.len() && #[trigger] r@[j]@ == piece@,
                        decreases r@.len() - k,
                    {
                        if r[k] == piece {
                            seen = true;
                        }
                        k = k + 1;
                    }
                    let ghost old_r = r@;
                    if !seen {
                        r.push(piece);
                    }
                    proof {
                        let pre = names.subrange(0, i as int);
                        let post = names.subrange(0, i + 1);
                        assert(post =~= pre.push(names[i as int]));
                        assert forall|c: Seq<char>| post.contains(c) <==> exists|k: int|
                            0 <= k < r@.len() && #[trigger] r@[k]@ == c by {
                            if post.contains(c) {
                                let j = choose|j: int| 0 <= j < post.len() && post[j] == c;
                                if j < i {
                                    assert(pre[j] == c);
                                    assert(pre.contains(c));
                                    let k = choose|k: int| 0 <= k < old_r.len() && #[trigger] old_r[k]@ == c;
                                    assert(r@[k] == old_r[k]);
                                } else if !seen {
                                    assert(r@[old_r.len() as int]@ == c);
                                }
                            }
                            if exists|k: int| 0 <= k < r@.len() && #[trigger] r@[k]@ == c {
                                let k = choose|k: int| 0 <= k < r@.len() && #[trigger] r@[k]@ == c;
                                if k < old_r.len() {
                                    assert(old_r[k]@ == c);
                                    assert(pre.contains(c));
                                    let j = choose|j: int| 0 <= j < pre.len() && pre[j] == c;
                                    assert(post[j] == c);
                                } else {
                                    assert(post[i as int] == c);
                                }
                            }
                        }
                    }
                    i = i + 1;
                }
                assert(names.subrange(0, names.len() as int) =~= names);
                proof {
                    assert forall|c: Seq<char>| class_names(self.attributes@).contains(c) <==> names.contains(c) by {}
                }
                r
            },
        }
    }
}

impl Node {
    pub open spec fn view(&self) -> Tree
        decreases self,
    {
        Tree {
            content: self.node_type@,
            children: Seq::new(
                self.children@.len(),
                |i: int|
                    if 0 <= i < self.children@.len() {
                        (*self.children@[i]).view()
                    } else {
                        arbitrary()
                    },
            ),
        }
    }
}

/// The trees of a list of nodes.
pub open spec fn trees_of(v: Seq<Box<Node>>) -> Seq<Tree> {
    Seq::new(v.len(), |i: int| (*v[i])@)
}

impl Node {
    /// Appends `child` to the children of this node.
    pub fn add_child(&mut self, child: Node)
        ensures
            final(self).node_type == old(self).node_type,
            final(self).children@ == old(self).children@.push(Box::new(child)),
            final(self)@.content == old(self)@.content,
            final(self)@.children == old(self)@.children.push(child@),
    {
        let ghost c = child;
        self.children.push(Box::new(child));
        assert(final(self)@.children =~= old(self)@.children.push(c@));
    }

    pub fn element(tag_name: String, attributes: Attributes, children: Vec<Box<Node>>) -> (r: Node)
        ensures
            r.node_type == (NodeType::Element(ElementData { tag_name, attributes })),
            r.children == children,
            r@ == (Tree {
                content: Content::Element { tag: tag_name@, attrs: attributes@ },
                children: trees_of(children@),
            }),
    {
        let r = Node {
            children,
            node_type: NodeType::Element(ElementData { tag_name, attributes }),
        };
        assert(r@.children =~= trees_of(r.children@));
        r
    }

    pub fn text(data: String) -> (r: Node)
        ensures
            r.node_type == NodeType::Text(data),
            r.children@.len() == 0,
            r@ == (Tree { content: Content::Text(data@), children: Seq::empty() }),
    {
        let r = Node { children: Vec::new(), node_type: NodeType::Text(data) };
        assert(r@.children =~= Seq::<Tree>::empty());
        r
    }

    pub fn comment(data: String) -> (r: Node)
        ensures
            r.node_type == NodeType::Comment(data),
            r.children@.len() == 0,
    {
        Node { children: Vec::new(), node_type: NodeType::Comment(data) }
    }
}

/// A document: one root node.
#[derive(Debug)]
pub struct Document {
    root: Node,
}

impl Document {
    pub closed spec fn root_node(&self) -> Node {
        self.root
    }

    pub fn new(root: Node) -> (r: Document)
        ensures
            r.root_node() == root,
    {
        Document { root }
    }

    pub fn root(&self) -> (r: &Node)
        ensures
            *r == self.root_node(),
    {
        &self.root
    }
}

/// The nodes of a tree in pre-order, each with its depth below the root,
/// which stands at `depth`.
pub open spec fn visit(t: Tree, depth: nat) -> Seq<(nat, Content)>
    decreases t, 0nat,
{
    seq![(depth, t.content)] + visit_all(t.children, t.children.len(), depth + 1)
}

/// The pre-order visits of the first `k` trees of `ts`, one after another.
pub open spec fn visit_all(ts: Seq<Tree>, k: nat, depth: nat) -> Seq<(nat, Content)>
    decreases ts, k,
{
    if k == 0 || k > ts.len() {
        Seq::empty()
    } else {
        visit_all(ts, (k - 1) as nat, depth) + visit(ts[k - 1], depth)
    }
}

pub proof fn lemma_visit_depths(t: Tree, depth: nat)
    ensures
        visit(t, depth).len() >= 1,
        visit(t, depth)[0] == (depth, t.content),
        forall|i: int| 0 < i < visit(t, depth).len() ==> #[trigger] visit(t, depth)[i].0 > depth,
    decreases t, 0nat,
{
    let rest = visit_all(t.children, t.children.len(), depth + 1);
    lemma_visit_all_depths(t.children, t.children.len(), depth + 1);
    let v = visit(t, depth);
    assert forall|i: int| 0 < i < v.len() implies #[trigger] v[i].0 > depth by {
        assert(v[i] == rest[i - 1]);
    }
}

pub proof fn lemma_visit_all_depths(ts: Seq<Tree>, k: nat, depth: nat)
    ensures
        forall|i: int|
            0 <= i < visit_all(ts, k, depth).len() ==> #[trigger] visit_all(ts, k, depth)[i].0
                >= depth,
    decreases ts, k,
{
    if k != 0 && k <= ts.len() {
        lemma_visit_all_depths(ts, (k - 1) as nat, depth);
        lemma_visit_depths(ts[k - 1], depth);
        let a = visit_all(ts, (k - 1) as nat, depth);
        let b = visit(ts[k - 1], depth);
        assert forall|i: int| 0 <= i < (a + b).len() implies #[trigger] (a + b)[i].0 >= depth by {
            if i >= a.len() {
                assert((a + b)[i] == b[i - a.len()]);
            }
        }
    }
}

/// The label that a node is shown with: `<tag>` for an element, the text
/// for a text node, `<!--text-->` for a comment.
pub open spec fn label(c: Content) -> Seq<char> {
    match c {
        Content::Element { tag, .. } => seq!['<'] + tag + seq!['>'],
        Content::Text(t) => t,
        Content::Comment(t) => seq!['<', '!', '-', '-'] + t + seq!['-', '-', '>'],
    }
}

/// Two spaces per level of depth.
pub open spec fn indent(depth: nat) -> Seq<char>
    decreases depth,
{
    if depth == 0 {
        Seq::empty()
    } else {
        indent((depth - 1) as nat) + seq![' ', ' ']
    }
}

/// One line per visited node: its indentation, its label, and a newline.
pub open spec fn lines(v: Seq<(nat, Content)>) -> Seq<char>
    decreases v.len(),
{
    if v.len() == 0 {
        Seq::empty()
    } else {
        lines(v.drop_last()) + indent(v.last().0) + label(v.last().1) + seq!['\n']
    }
}

pub proof fn lemma_lines_concat(a: Seq<(nat, Content)>, b: Seq<(nat, Content)>)
    ensures
        lines(a + b) == lines(a) + lines(b),
    decreases b.len(),
{
    if b.len() == 0 {
        assert(a + b =~= a);
        assert(lines(b) =~= Seq::<char>::empty());
        assert(lines(a) + lines(b) =~= lines(a));
    } else {
        lemma_lines_concat(a, b.drop_last());
        assert((a + b).drop_last() =~= a + b.drop_last());
        assert((a + b).last() == b.last());
        let l = indent(b.last().0) + label(b.last().1) + seq!['\n'];
        assert(lines(a) + lines(b.drop_last()) + indent(b.last().0) + label(b.last().1) + seq!['\n']
            =~= lines(a) + (lines(b.drop_last()) + indent(b.last().0) + label(b.last().1) + seq![
            '\n']));
    }
}

/// Shows what a value is in one line.
pub trait Representation {
    spec fn repr_spec(&self) -> Seq<char>;

    fn repr(&self) -> (r: String)
        ensures
            r@ == self.repr_spec(),
    ;
}

/// Appends the characters of `t` to `out`.
fn push_all(out: &mut String, t: &String)
    ensures
        final(out)@ == old(out)@ + t@,
{
    let chars = chars_of(t.as_str());
    let mut i: usize = 0;
    while i < chars.len()
        invariant
            i <= chars@.len(),
            chars@ == t@,
            out@ == old(out)@ + t@.subrange(0, i as int),
        decreases chars@.len() - i,
    {
        out.push(chars[i]);
        i = i + 1;
        assert(out@ =~= old(out)@ + t@.subrange(0, i as int));
    }
    assert(t@.subrange(0, t@.len() as int) =~= t@);
}

impl Representation for ElementData {
    open spec fn repr_spec(&self) -> Seq<char> {
        seq!['<'] + self.tag_name@ + seq!['>']
    }

    fn repr(&self) -> (r: String) {
        let mut r = String::new();
        r.push('<');
        push_all(&mut r, &self.tag_name);
        r.push('>');
        assert(r@ =~= seq!['<'] + self.tag_name@ + seq!['>']);
        r
    }
}

impl Representation for Node {
    open spec fn repr_spec(&self) -> Seq<char> {
        label(self.node_type@)
    }

    fn repr(&self) -> (r: String) {
        match &self.node_type {
            NodeType::Element(e) => e.repr(),
            NodeType::Text(t) => t.clone(),
            NodeType::Comment(c) => {
                let mut r = String::new();
                r.push('<');
                r.push('!');
                r.push('-');
                r.push('-');
                push_all(&mut r, c);
                r.push('-');
                r.push('-');
                r.push('>');
                assert(r@ =~= seq!['<', '!', '-', '-'] + c@ + seq!['-', '-', '>']);
                r
            },
        }
    }
}

/// Appends the lines of `node`, which stands at `depth` with indentation
/// `prefix`, and of all nodes below it, in pre-order.
fn render(node: &Node, prefix: &String, Ghost(depth): Ghost<nat>, out: &mut String)
    requires
        prefix@ == indent(depth),
    ensures
        final(out)@ == old(out)@ + lines(visit(node@, depth)),
    decreases node,
{
    push_all(out, prefix);
    let shown = node.repr();
    push_all(out, &shown);
    out.push('\n');
    proof {
        let one = seq![(depth, node@.content)];
        assert(one.drop_last() =~= Seq::<(nat, Content)>::empty());
        assert(one.last() == (depth, node@.content));
        assert(lines(one.drop_last()) == Seq::<char>::empty());
        assert(shown@ == label(node@.content));
        assert(lines(one) =~= indent(depth) + shown@ + seq!['\n']);
        assert(out@ =~= old(out)@ + lines(seq![(depth, node@.content)]));
    }
    let mut child_prefix = prefix.clone();
    child_prefix.push(' ');
    child_prefix.push(' ');
    assert(child_prefix@ =~= indent(depth + 1));
    let ghost kids = node@.children;
    let ghost start = out@;
    let mut i: usize = 0;
    while i < node.children.len()
        invariant
            i <= node.children@.len(),
            kids == node@.children,
            kids.len() == node.children@.len(),
            child_prefix@ == indent(depth + 1),
            out@ == start + lines(visit_all(kids, i as nat, depth + 1)),
        decreases node.children@.len() - i,
    {
        proof {
            assert(kids[i as int] == (*node.children@[i as int])@);
        }
        render(&node.children[i], &child_prefix, Ghost(depth + 1), out);
        proof {
            let before = visit_all(kids, i as nat, depth + 1);
            let v = visit(kids[i as int], depth + 1);
            assert(visit_all(kids, (i + 1) as nat, depth + 1) == before + v);
            lemma_lines_concat(before, v);
        }
        i = i + 1;
    }
    proof {
        lemma_lines_concat(seq![(depth, node@.content)], visit_all(kids, kids.len(), depth + 1));
    }
}

/// Renders a tree in pre-order, one line per node, indented by depth.
pub fn pretty_print_tree(root: &Node) -> (r: String)
    ensures
        r@ == lines(visit(root@, 0)),
{
    let mut out = String::new();
    let prefix = String::new();
    render(root, &prefix, Ghost(0), &mut out);
    assert(out@ =~= lines(visit(root@, 0)));
    out
}

impl Document {
    /// Renders the document's tree, as `pretty_print_tree` does.
    pub fn display(&self) -> (r: String)
        ensures
            r@ == lines(visit(self.root_node()@, 0)),
    {
        pretty_print_tree(&self.root)
    }
}

} // verus!
