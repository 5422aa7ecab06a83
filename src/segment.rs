//! Dot-delimited names: splitting them into segments and ordering segments.
use vstd::prelude::*;
use vstd::string::StrSliceExecFns;

verus! {

/// Splits `s` at every `c`, keeping empty pieces (`"a..b"` gives `a`, ``, `b`).
pub open spec fn split_on(s: Seq<char>, c: char) -> Seq<Seq<char>>
    decreases s.len(),
{
    if s.len() == 0 {
        seq![Seq::<char>::empty()]
    } else {
        let parts = split_on(s.drop_last(), c);
        if s.last() == c {
            parts.push(Seq::<char>::empty())
        } else {
            parts.update(parts.len() - 1, parts.last().push(s.last()))
        }
    }
}

/// The segments of a file name: its stem (the name without its last
/// extension) split at each dot. A name without a dot is its own stem.
pub open spec fn name_segments(name: Seq<char>) -> Seq<Seq<char>> {
    let parts = split_on(name, '.');
    if parts.len() >= 2 {
        parts.drop_last()
    } else {
        parts
    }
}

/// The character sequences of a list of segments.
pub open spec fn view_segments(segs: Seq<Vec<char>>) -> Seq<Seq<char>> {
    segs.map_values(|v: Vec<char>| v@)
}

/// `p` is a non-empty prefix of `q`.
pub open spec fn is_prefix_path(p: Seq<Seq<char>>, q: Seq<Seq<char>>) -> bool {
    0 < p.len() <= q.len() && p == q.subrange(0, p.len() as int)
}

/// The non-empty prefixes of the segment path `q`: the nodes that inserting
/// `q` into a tree makes sure exist.
pub open spec fn prefixes_of(q: Seq<Seq<char>>) -> Set<Seq<Seq<char>>> {
    Set::new(|p: Seq<Seq<char>>| is_prefix_path(p, q))
}

/// The extension of file name `name`: what follows its last dot, where that
/// dot does not start the name.
pub open spec fn extension_of(name: Seq<char>) -> Option<Seq<char>> {
    let parts = split_on(name, '.');
    if parts.len() >= 2 && !(parts.len() == 2 && parts[0].len() == 0) {
        Some(parts.last())
    } else {
        None
    }
}

/// Every segment is non-empty (and so there is at least one).
pub open spec fn segments_well_formed(segs: Seq<Seq<char>>) -> bool {
    segs.len() > 0 && forall|i: int| 0 <= i < segs.len() ==> (#[trigger] segs[i]).len() > 0
}

/// Strict lexicographic order on character sequences, by code point; a proper
/// prefix comes first.
pub open spec fn lex_lt(a: Seq<char>, b: Seq<char>) -> bool
    decreases a.len(),
{
    if a.len() == 0 {
        b.len() > 0
    } else if b.len() == 0 {
        false
    } else if a[0] != b[0] {
        a[0] < b[0]
    } else {
        lex_lt(a.drop_first(), b.drop_first())
    }
}

pub proof fn lemma_lex_irreflexive(a: Seq<char>)
    ensures
        !lex_lt(a, a),
    decreases a.len(),
{
    if a.len() > 0 {
        lemma_lex_irreflexive(a.drop_first());
    }
}

pub proof fn lemma_lex_trichotomy(a: Seq<char>, b: Seq<char>)
    ensures
        lex_lt(a, b) || a == b || lex_lt(b, a),
        !(lex_lt(a, b) && lex_lt(b, a)),
    decreases a.len(),
{
    if a.len() > 0 && b.len() > 0 && a[0] == b[0] {
        lemma_lex_trichotomy(a.drop_first(), b.drop_first());
        if a.drop_first() == b.drop_first() {
            assert(a =~= seq![a[0]] + a.drop_first());
            assert(b =~= seq![b[0]] + b.drop_first());
        }
    } else if a.len() == 0 && b.len() == 0 {
        assert(a =~= b);
    }
}

pub proof fn lemma_lex_transitive(a: Seq<char>, b: Seq<char>, c: Seq<char>)
    requires
        lex_lt(a, b),
        lex_lt(b, c),
    ensures
        lex_lt(a, c),
    decreases a.len(),
{
    if a.len() > 0 && b.len() > 0 && c.len() > 0 && a[0] == b[0] && b[0] == c[0] {
        lemma_lex_transitive(a.drop_first(), b.drop_first(), c.drop_first());
    }
}

pub proof fn lemma_split_nonempty(s: Seq<char>, c: char)
    ensures
        split_on(s, c).len() >= 1,
    decreases s.len(),
{
    if s.len() > 0 {
        lemma_split_nonempty(s.drop_last(), c);
    }
}

/// The characters of `s`, in order. Each is read by position, which costs
/// time linear in `s`: meant for names and paths, not for whole files.
pub(crate) fn chars_of(s: &str) -> (r: Vec<char>)
    ensures
        r@ == s@,
{
    let n = s.unicode_len();
    let mut out: Vec<char> = Vec::new();
    let mut i: usize = 0;
    while i < n
        invariant
            n == s@.len(),
            i <= n,
            out@ == s@.subrange(0, i as int),
        decreases n - i,
    {
        out.push(s.get_char(i));
        assert(s@.subrange(0, i + 1) =~= s@.subrange(0, i as int).push(s@[i as int]));
        i = i + 1;
    }
    assert(s@.subrange(0, n as int) =~= s@);
    out
}

/// Relies on `String`'s `FromIterator<&char>`: a string of exactly these characters.
#[verifier::external_body]
pub(crate) fn string_of(v: &Vec<char>) -> (r: String)
    ensures
        r@ == v@,
{
    v.iter().collect()
}

/// Whether two character sequences are equal.
pub fn chars_equal(a: &Vec<char>, b: &Vec<char>) -> (r: bool)
    ensures
        r == (a@ == b@),
{
    if a.len() != b.len() {
        return false;
    }
    let mut i: usize = 0;
    while i < a.len()
        invariant
            a.len() == b.len(),
            i <= a.len(),
            a@.subrange(0, i as int) == b@.subrange(0, i as int),
        decreases a.len() - i,
    {
        if a[i] != b[i] {
            return false;
        }
        assert(a@.subrange(0, i + 1) =~= a@.subrange(0, i as int).push(a@[i as int]));
        assert(b@.subrange(0, i + 1) =~= b@.subrange(0, i as int).push(b@[i as int]));
        i = i + 1;
    }
    assert(a@ =~= a@.subrange(0, a.len() as int));
    assert(b@ =~= b@.subrange(0, b.len() as int));
    true
}

/// Whether `a` comes strictly before `b` in lexicographic order.
pub fn lex_less(a: &Vec<char>, b: &Vec<char>) -> (r: bool)
    ensures
        r == lex_lt(a@, b@),
{
    let mut i: usize = 0;
    assert(a@.skip(0) =~= a@);
    assert(b@.skip(0) =~= b@);
    while i < a.len() && i < b.len()
        invariant
            i <= a.len(),
            i <= b.len(),
            lex_lt(a@, b@) == lex_lt(a@.skip(i as int), b@.skip(i as int)),
        decreases a.len() - i,
    {
        if a[i] != b[i] {
            return a[i] < b[i];
        }
        assert(a@.skip(i as int).drop_first() =~= a@.skip(i + 1));
        assert(b@.skip(i as int).drop_first() =~= b@.skip(i + 1));
        i = i + 1;
    }
    a.len() < b.len()
}

/// The segments of file name `name`, as `name_segments` gives them.
pub fn segments_of_name(name: &str) -> (r: Vec<Vec<char>>)
    ensures
        view_segments(r@) == name_segments(name@),
{
    let chars = chars_of(name);
    let mut parts = split_chars(&chars, '.');
    if parts.len() >= 2 {
        parts.pop();
    }
    assert(view_segments(parts@) =~= name_segments(name@));
    parts
}

/// Whether file name `name` has the extension `ext`.
pub fn has_extension(name: &str, ext: &str) -> (r: bool)
    ensures
        r == (extension_of(name@) == Some(ext@)),
{
    let chars = chars_of(name);
    let parts = split_chars(&chars, '.');
    let n = parts.len();
    if n >= 2 && !(n == 2 && parts[0].len() == 0) {
        let e = chars_of(ext);
        chars_equal(&parts[n - 1], &e)
    } else {
        false
    }
}

/// Whether every segment is non-empty and there is at least one.
pub fn check_segments(segs: &Vec<Vec<char>>) -> (r: bool)
    ensures
        r == segments_well_formed(view_segments(segs@)),
{
    if segs.len() == 0 {
        return false;
    }
    let mut i: usize = 0;
    while i < segs.len()
        invariant
            i <= segs@.len(),
            forall|k: int| 0 <= k < i ==> (#[trigger] segs@[k])@.len() > 0,
        decreases segs@.len() - i,
    {
        if segs[i].len() == 0 {
            assert(view_segments(segs@)[i as int].len() == 0);
            return false;
        }
        i = i + 1;
    }
    assert forall|k: int| 0 <= k < view_segments(segs@).len() implies (
    #[trigger] view_segments(segs@)[k]).len() > 0 by {
        assert(segs@[k]@.len() > 0);
    }
    true
}

/// Splits `s` at every `c`; the pieces are exactly `split_on(s, c)`.
pub fn split_chars(s: &Vec<char>, c: char) -> (r: Vec<Vec<char>>)
    ensures
        r@.len() == split_on(s@, c).len(),
        forall|i: int| 0 <= i < r@.len() ==> (#[trigger] r@[i])@ == split_on(s@, c)[i],
{
    let mut parts: Vec<Vec<char>> = Vec::new();
    let mut cur: Vec<char> = Vec::new();
    let mut i: usize = 0;
    while i < s.len()
        invariant
            i <= s.len(),
            parts@.len() + 1 == split_on(s@.subrange(0, i as int), c).len(),
            forall|k: int|
                0 <= k < parts@.len() ==> (#[trigger] parts@[k])@ == split_on(
                    s@.subrange(0, i as int),
                    c,
                )[k],
            cur@ == split_on(s@.subrange(0, i as int), c).last(),
        decreases s.len() - i,
    {
        let ghost prev = s@.subrange(0, i as int);
        assert(s@.subrange(0, i + 1).drop_last() =~= prev);
        if s[i] == c {
            parts.push(cur);
            cur = Vec::new();
        } else {
            cur.push(s[i]);
        }
        i = i + 1;
    }
    assert(s@.subrange(0, s.len() as int) =~= s@);
    parts.push(cur);
    parts
}

} // verus!
