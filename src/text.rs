use vstd::prelude::*;

verus! {

/// Whether `char::is_whitespace` holds of `c`.
pub uninterp spec fn is_space(c: char) -> bool;

/// Whether `char::is_alphanumeric` holds of `c`.
pub uninterp spec fn is_alnum(c: char) -> bool;

/// Relies on `char::is_whitespace`: the answer depends on the character alone.
pub assume_specification[ char::is_whitespace ](c: char) -> (r: bool)
    ensures
        r == is_space(c),
;

/// Relies on `char::is_alphanumeric`: the answer depends on the character alone.
pub assume_specification[ char::is_alphanumeric ](c: char) -> (r: bool)
    ensures
        r == is_alnum(c),
;

/// Relies on `String::push`: the character is appended at the end.
pub assume_specification[ String::push ](s: &mut String, ch: char)
    ensures
        final(s)@ == old(s)@.push(ch),
;

/// The pieces of `s` between the occurrences of `sep`, in order, empty pieces
/// included: one piece more than there are separators.
pub open spec fn split_seq(s: Seq<char>, sep: char) -> Seq<Seq<char>>
    decreases s.len(),
{
    if s.len() == 0 {
        seq![Seq::empty()]
    } else {
        let prev = split_seq(s.drop_last(), sep);
        if s.last() == sep {
            prev.push(Seq::empty())
        } else {
            prev.update(prev.len() - 1, prev.last().push(s.last()))
        }
    }
}

/// Whether `c` does not occur in `p`.
pub open spec fn free_of(p: Seq<char>, c: char) -> bool {
    forall|k: int| 0 <= k < p.len() ==> p[k] != c
}

/// A piece without separators splits into itself.
pub proof fn lemma_split_single(p: Seq<char>, sep: char)
    requires
        free_of(p, sep),
    ensures
        split_seq(p, sep) == seq![p],
    decreases p.len(),
{
    if p.len() > 0 {
        lemma_split_single(p.drop_last(), sep);
        assert(p.drop_last().push(p.last()) =~= p);
        assert(seq![p.drop_last()].update(0, p.drop_last().push(p.last())) =~= seq![p]);
    } else {
        assert(p =~= Seq::<char>::empty());
    }
}

/// A separator followed by a piece without separators adds that piece.
pub proof fn lemma_split_append(x: Seq<char>, p: Seq<char>, sep: char)
    requires
        free_of(p, sep),
    ensures
        split_seq(x + seq![sep] + p, sep) == split_seq(x, sep).push(p),
    decreases p.len(),
{
    let whole = x + seq![sep] + p;
    if p.len() == 0 {
        assert(whole.drop_last() =~= x);
        assert(p =~= Seq::<char>::empty());
    } else {
        lemma_split_append(x, p.drop_last(), sep);
        assert(whole.drop_last() =~= x + seq![sep] + p.drop_last());
        assert(whole.last() == p.last());
        let prev = split_seq(x, sep).push(p.drop_last());
        assert(p.drop_last().push(p.last()) =~= p);
        assert(prev.update(prev.len() - 1, prev.last().push(p.last())) =~= split_seq(x, sep).push(p));
    }
}

/// The characters of `s`, one per element.
pub fn chars_of(s: &str) -> (r: Vec<char>)
    ensures
        r@ == s@,
        r@.len() <= usize::MAX,
{
    let n = s.unicode_len();
    let mut v: Vec<char> = Vec::new();
    let mut i: usize = 0;
    while i < n
        invariant
            i <= n,
            n == s@.len(),
            v@ == s@.subrange(0, i as int),
        decreases n - i,
    {
        v.push(s.get_char(i));
        i = i + 1;
        assert(v@ =~= s@.subrange(0, i as int));
    }
    assert(v@ =~= s@);
    v
}

/// A string holding the characters `v[lo..hi]`.
pub fn string_of(v: &Vec<char>, lo: usize, hi: usize) -> (r: String)
    requires
        lo <= hi <= v@.len(),
    ensures
        r@ == v@.subrange(lo as int, hi as int),
{
    let mut r = String::new();
    let mut i: usize = lo;
    while i < hi
        invariant
            lo <= i <= hi <= v@.len(),
            r@ == v@.subrange(lo as int, i as int),
        decreases hi - i,
    {
        r.push(v[i]);
        i = i + 1;
        assert(r@ =~= v@.subrange(lo as int, i as int));
    }
    r
}

/// The character sequences that the vectors of `v` hold.
pub open spec fn views(v: Seq<Vec<char>>) -> Seq<Seq<char>> {
    v.map_values(|p: Vec<char>| p@)
}

/// Splits `v[lo..hi]` on `sep`, as `split_seq` describes.
pub fn split_chars(v: &Vec<char>, lo: usize, hi: usize, sep: char) -> (r: Vec<Vec<char>>)
    requires
        lo <= hi <= v@.len(),
    ensures
        views(r@) == split_seq(v@.subrange(lo as int, hi as int), sep),
{
    let mut pieces: Vec<Vec<char>> = Vec::new();
    let mut cur: Vec<char> = Vec::new();
    let mut i: usize = lo;
    assert(v@.subrange(lo as int, lo as int) =~= Seq::<char>::empty());
    assert(views(pieces@).push(cur@) =~= seq![Seq::<char>::empty()]);
    while i < hi
        invariant
            lo <= i <= hi <= v@.len(),
            views(pieces@).push(cur@) == split_seq(v@.subrange(lo as int, i as int), sep),
        decreases hi - i,
    {
        let ghost before = v@.subrange(lo as int, i as int);
        let c = v[i];
        i = i + 1;
        let ghost after = v@.subrange(lo as int, i as int);
        assert(after.drop_last() =~= before);
        assert(after.last() == c);
        if c == sep {
            let ghost old_dv = views(pieces@);
            let ghost done_v = cur@;
            let done = cur;
            pieces.push(done);
            cur = Vec::new();
            assert(views(pieces@) =~= old_dv.push(done_v));
            assert(views(pieces@).push(cur@) =~= split_seq(before, sep).push(Seq::empty()));
        } else {
            let ghost prev = split_seq(before, sep);
            cur.push(c);
            assert(views(pieces@).push(cur@) =~= prev.update(prev.len() - 1, prev.last().push(c)));
        }
    }
    let ghost old_dv = views(pieces@);
    let ghost cur_v = cur@;
    pieces.push(cur);
    assert(views(pieces@) =~= old_dv.push(cur_v));
    assert(views(pieces@) =~= split_seq(v@.subrange(lo as int, hi as int), sep));
    pieces
}

} // verus!
