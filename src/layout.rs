//! Which relocation paths can coincide: the flat, nested and scratch paths of
//! namespaces whose segments hold neither `.` nor `/`.
use vstd::prelude::*;

use crate::index::index_of;
use crate::relocate::{
    apply_step, apply_steps, children_plan, flat_path, index_steps, join, lemma_index_merged,
    nested_path, node_plan, relocation_plan, scratch_path, Files, Step,
};
use crate::segment::{name_segments, segments_well_formed};
use crate::tree::{lemma_paths_of_names_members, paths_of_names, Tree};
use crate::segment::split_on;
use vstd::utf8::encode_utf8;

verus! {

/// `s` does not hold the character `c`.
pub open spec fn free_of(s: Seq<char>, c: char) -> bool {
    forall|i: int| 0 <= i < s.len() ==> s[i] != c
}

/// A namespace segment that can name a file and a directory: non-empty, with
/// neither `.` nor `/`.
pub open spec fn segment_ok(s: Seq<char>) -> bool {
    s.len() > 0 && free_of(s, '.') && free_of(s, '/')
}

/// Every segment of `q` is a usable segment.
pub open spec fn segments_ok(q: Seq<Seq<char>>) -> bool {
    forall|i: int| 0 <= i < q.len() ==> segment_ok(#[trigger] q[i])
}

proof fn lemma_join_free(q: Seq<Seq<char>>, sep: char, c: char)
    requires
        c != sep,
        forall|i: int| 0 <= i < q.len() ==> free_of(#[trigger] q[i], c),
    ensures
        free_of(join(q, sep), c),
    decreases q.len(),
{
    if q.len() > 1 {
        lemma_join_free(q.drop_last(), sep, c);
        let a = join(q.drop_last(), sep);
        assert(q.last() == q[q.len() - 1]);
        assert forall|i: int| 0 <= i < join(q, sep).len() implies join(q, sep)[i] != c by {
            if i < a.len() {
                assert(join(q, sep)[i] == a[i]);
            } else if i > a.len() {
                assert(join(q, sep)[i] == q.last()[i - a.len() - 1]);
            }
        }
    } else if q.len() == 1 {
        assert(q[0] == q[0]);
    }
}

proof fn lemma_join_has_sep(q: Seq<Seq<char>>, sep: char)
    requires
        q.len() >= 2,
    ensures
        !free_of(join(q, sep), sep),
{
    let a = join(q.drop_last(), sep);
    assert(join(q, sep)[a.len() as int] == sep);
}

proof fn lemma_split_append_free(s: Seq<char>, t: Seq<char>, c: char)
    requires
        free_of(t, c),
    ensures
        split_on(s + t, c) == split_on(s, c).update(
            split_on(s, c).len() - 1,
            split_on(s, c).last() + t,
        ),
        split_on(s + t, c).len() == split_on(s, c).len(),
    decreases t.len(),
{
    crate::segment::lemma_split_nonempty(s, c);
    if t.len() == 0 {
        assert(s + t =~= s);
        assert(split_on(s, c).last() + t =~= split_on(s, c).last());
        assert(split_on(s, c).update(split_on(s, c).len() - 1, split_on(s, c).last())
            =~= split_on(s, c));
    } else {
        let t0 = t.drop_last();
        lemma_split_append_free(s, t0, c);
        assert((s + t).drop_last() =~= s + t0);
        assert((s + t).last() == t.last());
        assert(t.last() == t[t.len() - 1]);
        let parts = split_on(s + t0, c);
        assert(split_on(s, c).last() + t =~= (split_on(s, c).last() + t0).push(t.last()));
        assert(split_on(s + t, c) =~= parts.update(parts.len() - 1, parts.last().push(t.last())));
    }
}

/// Splitting joined segments at the separator gives them back, where no
/// segment holds the separator.
proof fn lemma_split_join(q: Seq<Seq<char>>, sep: char)
    requires
        q.len() >= 1,
        forall|i: int| 0 <= i < q.len() ==> free_of(#[trigger] q[i], sep),
    ensures
        split_on(join(q, sep), sep) == q,
    decreases q.len(),
{
    if q.len() == 1 {
        assert(free_of(q[0], sep));
        lemma_split_append_free(Seq::empty(), q[0], sep);
        assert(Seq::<char>::empty() + q[0] =~= q[0]);
        assert(split_on(Seq::<char>::empty(), sep) =~= seq![Seq::<char>::empty()]);
        assert(Seq::<char>::empty() + q[0] =~= q[0]);
        assert(split_on(q[0], sep) =~= q);
    } else {
        let init = q.drop_last();
        lemma_split_join(init, sep);
        let a = join(init, sep);
        assert(free_of(q.last(), sep)) by {
            assert(q.last() == q[q.len() - 1]);
        }
        let b = a + seq![sep];
        lemma_split_append_free(b, q.last(), sep);
        assert(b.drop_last() =~= a);
        assert(split_on(b, sep) == split_on(a, sep).push(Seq::<char>::empty()));
        assert(Seq::<char>::empty() + q.last() =~= q.last());
        assert(split_on(join(q, sep), sep) =~= q);
    }
}

/// Joining usable segments is injective.
proof fn lemma_join_injective(q: Seq<Seq<char>>, r: Seq<Seq<char>>, sep: char)
    requires
        q.len() >= 1,
        r.len() >= 1,
        forall|i: int| 0 <= i < q.len() ==> free_of(#[trigger] q[i], sep),
        forall|i: int| 0 <= i < r.len() ==> free_of(#[trigger] r[i], sep),
        join(q, sep) == join(r, sep),
    ensures
        q == r,
{
    lemma_split_join(q, sep);
    lemma_split_join(r, sep);
}

#[verifier::spinoff_prover]
proof fn lemma_cancel_suffix(a: Seq<char>, b: Seq<char>, e: Seq<char>)
    requires
        a + e == b + e,
    ensures
        a == b,
{
    let ae = a + e;
    let be = b + e;
    assert(ae.len() == a.len() + e.len());
    assert(be.len() == b.len() + e.len());
    assert(ae.len() == be.len());
    assert(a =~= (a + e).subrange(0, a.len() as int));
    assert(b =~= (b + e).subrange(0, b.len() as int));
}

proof fn lemma_segments_free(q: Seq<Seq<char>>)
    requires
        segments_ok(q),
    ensures
        forall|i: int| 0 <= i < q.len() ==> free_of(#[trigger] q[i], '.'),
        forall|i: int| 0 <= i < q.len() ==> free_of(#[trigger] q[i], '/'),
{
    assert forall|i: int| 0 <= i < q.len() implies free_of(#[trigger] q[i], '.') by {
        assert(segment_ok(q[i]));
    }
    assert forall|i: int| 0 <= i < q.len() implies free_of(#[trigger] q[i], '/') by {
        assert(segment_ok(q[i]));
    }
}

/// Distinct namespaces have distinct nested, flat and scratch paths; a
/// flat path is a nested one only for the same one-segment namespace; a
/// scratch path is never a nested one, and is a flat one only for the
/// one-segment namespace's child `tmp`.
pub proof fn lemma_paths_distinct(q: Seq<Seq<char>>, r: Seq<Seq<char>>, ext: Seq<char>)
    requires
        q.len() >= 1,
        r.len() >= 1,
        segments_ok(q),
        segments_ok(r),
    ensures
        nested_path(q, ext) == nested_path(r, ext) ==> q == r,
        flat_path(q, ext) == flat_path(r, ext) ==> q == r,
        scratch_path(q, ext) == scratch_path(r, ext) ==> q == r,
        flat_path(q, ext) == nested_path(r, ext) ==> q == r && q.len() == 1,
        scratch_path(r, ext) != nested_path(q, ext),
        scratch_path(r, ext) == flat_path(q, ext) ==> r.len() == 1 && q == r.push("tmp"@),
{
    lemma_segments_free(q);
    lemma_segments_free(r);
    let jq = join(q, '/');
    let jr = join(r, '/');
    let dq = join(q, '.');
    let dr = join(r, '.');
    lemma_join_free(q, '/', '.');
    lemma_join_free(r, '/', '.');
    lemma_join_free(q, '.', '/');
    lemma_join_free(r, '.', '/');
    assert(".tmp."@ =~= seq!['.', 't', 'm', 'p', '.']) by {
        reveal_strlit(".tmp.");
    }
    if nested_path(q, ext) == nested_path(r, ext) {
        lemma_cancel_suffix(jq + seq!['.'], jr + seq!['.'], ext);
        lemma_cancel_suffix(jq, jr, seq!['.']);
        lemma_join_injective(q, r, '/');
    }
    if flat_path(q, ext) == flat_path(r, ext) {
        lemma_cancel_suffix(dq + seq!['.'], dr + seq!['.'], ext);
        lemma_cancel_suffix(dq, dr, seq!['.']);
        lemma_join_injective(q, r, '.');
    }
    if scratch_path(q, ext) == scratch_path(r, ext) {
        lemma_cancel_suffix(jq + ".tmp."@, jr + ".tmp."@, ext);
        lemma_cancel_suffix(jq, jr, ".tmp."@);
        lemma_join_injective(q, r, '/');
    }
    if flat_path(q, ext) == nested_path(r, ext) {
        lemma_cancel_suffix(dq + seq!['.'], jr + seq!['.'], ext);
        lemma_cancel_suffix(dq, jr, seq!['.']);
        if q.len() >= 2 {
            lemma_join_has_sep(q, '.');
        }
        if r.len() >= 2 {
            lemma_join_has_sep(r, '/');
        }
        assert(dq == q[0]);
        assert(jr == r[0]);
        assert(q =~= r);
    }
    if scratch_path(r, ext) == nested_path(q, ext) {
        lemma_cancel_suffix(jr + ".tmp."@, jq + seq!['.'], ext);
        let a = jr + ".tmp."@;
        let b = jq + seq!['.'];
        assert(a.len() == b.len());
        assert(a[jr.len() as int] == '.');
        assert(b[jr.len() as int] == jq[jr.len() as int]);
    }
    if scratch_path(r, ext) == flat_path(q, ext) {
        lemma_cancel_suffix(jr + ".tmp."@, dq + seq!['.'], ext);
        let a = jr + ".tmp."@;
        let b = dq + seq!['.'];
        assert(jr + seq!['.', 't', 'm', 'p'] =~= a.drop_last());
        assert(dq =~= b.drop_last());
        if r.len() >= 2 {
            lemma_join_has_sep(r, '/');
            let k = choose|k: int| 0 <= k < jr.len() && jr[k] == '/';
            assert(dq[k] == jr[k]);
        }
        assert(jr == r[0]);
        let tmp = seq!['t', 'm', 'p'];
        assert("tmp"@ =~= tmp) by {
            reveal_strlit("tmp");
        }
        let two = seq![r[0], tmp];
        assert(two.drop_last() =~= seq![r[0]]);
        assert(join(seq![r[0]], '.') == r[0]);
        assert(two.last() == tmp);
        assert(join(two, '.') =~= r[0] + seq!['.'] + tmp);
        assert(dq =~= join(two, '.'));
        assert(free_of(tmp, '.'));
        assert forall|i: int| 0 <= i < two.len() implies free_of(#[trigger] two[i], '.') by {
            if i == 0 {
                assert(two[0] == r[0]);
            }
        }
        lemma_join_injective(q, two, '.');
        assert(r.push("tmp"@) =~= two);
    }
}

/// Every child name of the tree, at every level, is a usable segment, and
/// child names are unique.
pub open spec fn tree_ok(t: Tree) -> bool
    decreases t,
{
    &&& t.wf()
    &&& forall|i: int| 0 <= i < t.children@.len() ==> segment_ok((#[trigger] t.children@[i]).0@)
    &&& forall|i: int| 0 <= i < t.children@.len() ==> tree_ok((#[trigger] t.children@[i]).1)
}

/// The node at relative path `r` below `t` (`t` itself for the empty path)
/// is a leaf.
pub open spec fn leaf_at(t: Tree, r: Seq<Seq<char>>) -> bool
    decreases r.len(),
{
    if r.len() == 0 {
        t.children@.len() == 0
    } else {
        exists|i: int|
            0 <= i < t.children@.len() && (#[trigger] t.children@[i]).0@ == r[0] && leaf_at(
                t.children@[i].1,
                r.drop_first(),
            )
    }
}

/// `n` is the node at relative path `r` below `t` (`t` itself for the empty
/// path).
pub open spec fn holds_node(t: Tree, r: Seq<Seq<char>>, n: Tree) -> bool
    decreases r.len(),
{
    if r.len() == 0 {
        n == t
    } else {
        exists|i: int|
            0 <= i < t.children@.len() && (#[trigger] t.children@[i]).0@ == r[0] && holds_node(
                t.children@[i].1,
                r.drop_first(),
                n,
            )
    }
}

/// The bytes of file `x` where node `n` is marked as having a generated
/// file of its own and the file is there; nothing otherwise.
pub open spec fn own_bytes(fs: Files, n: Tree, x: Seq<char>) -> Seq<u8> {
    if n.has_file && fs.contains_key(x) {
        fs[x]
    } else {
        Seq::empty()
    }
}

/// The node at relative path `r` below `t` needs its flat file: it is a leaf,
/// which is moved, or it is marked as having a generated file of its own.
pub open spec fn file_needed(t: Tree, r: Seq<Seq<char>>) -> bool {
    leaf_at(t, r) || t.marked(r)
}

/// After relocating the node `t` at `p` from `fs` to `res`: each non-leaf
/// node below has its index, followed by its former flat file, at its nested
/// path; and no flat file of two or more segments is left.
spec fn merged_below(t: Tree, p: Seq<Seq<char>>, ext: Seq<char>, fs: Files, res: Files) -> bool {
    &&& forall|r: Seq<Seq<char>>, n: Tree|
        #[trigger] holds_node(t, r, n) && n.children@.len() > 0 ==> res.contains_key(
            nested_path(p + r, ext),
        ) && res[nested_path(p + r, ext)] == encode_utf8(index_of(n.key_set())) + own_bytes(
            fs,
            n,
            flat_path(p + r, ext),
        )
    &&& forall|r: Seq<Seq<char>>, n: Tree|
        #[trigger] holds_node(t, r, n) && (p + r).len() >= 2 && (n.has_file
            || n.children@.len() == 0) ==> !res.contains_key(flat_path(p + r, ext))
}

/// `x` is one of the three paths of namespace `q`.
pub open spec fn touched(q: Seq<Seq<char>>, ext: Seq<char>, x: Seq<char>) -> bool {
    x == flat_path(q, ext) || x == nested_path(q, ext) || x == scratch_path(q, ext)
}

/// `x` is a path of the node at `p` or of a node below it: the only paths
/// that the node's steps read or write.
pub open spec fn in_foot(t: Tree, p: Seq<Seq<char>>, ext: Seq<char>, x: Seq<char>) -> bool
    decreases t,
{
    touched(p, ext, x) || exists|j: int|
        0 <= j < t.children@.len() && in_foot(
            (#[trigger] t.children@[j]).1,
            p.push(t.children@[j].0@),
            ext,
            x,
        )
}

/// `fs2` agrees with `fs1` on `x`.
pub open spec fn same_at(fs1: Files, fs2: Files, x: Seq<char>) -> bool {
    fs2.contains_key(x) == fs1.contains_key(x) && (fs1.contains_key(x) ==> fs2[x] == fs1[x])
}

/// `q` starts with `p`.
pub open spec fn extends(q: Seq<Seq<char>>, p: Seq<Seq<char>>) -> bool {
    p.len() <= q.len() && q.subrange(0, p.len() as int) == p
}

proof fn lemma_apply_concat(fs: Files, a: Seq<Step>, b: Seq<Step>)
    ensures
        apply_steps(fs, a + b) == match apply_steps(fs, a) {
            Some(f) => apply_steps(f, b),
            None => None,
        },
    decreases a.len(),
{
    if a.len() == 0 {
        assert(a + b =~= b);
    } else {
        assert((a + b)[0] == a[0]);
        assert((a + b).drop_first() =~= a.drop_first() + b);
        match apply_step(fs, a[0]) {
            Some(f) => lemma_apply_concat(f, a.drop_first(), b),
            None => {},
        }
    }
}

proof fn lemma_foot_witness(t: Tree, p: Seq<Seq<char>>, ext: Seq<char>, x: Seq<char>)
    requires
        in_foot(t, p, ext, x),
        tree_ok(t),
        segments_ok(p),
    ensures
        exists|q: Seq<Seq<char>>| touched(q, ext, x) && extends(q, p) && segments_ok(q),
    decreases t,
{
    if touched(p, ext, x) {
        assert(extends(p, p)) by {
            assert(p.subrange(0, p.len() as int) =~= p);
        }
    } else {
        let j = choose|j: int|
            0 <= j < t.children@.len() && in_foot(
                (#[trigger] t.children@[j]).1,
                p.push(t.children@[j].0@),
                ext,
                x,
            );
        let c = t.children@[j];
        let pj = p.push(c.0@);
        assert(segment_ok(c.0@));
        assert(segments_ok(pj)) by {
            assert forall|i: int| 0 <= i < pj.len() implies segment_ok(#[trigger] pj[i]) by {
                if i < p.len() {
                    assert(pj[i] == p[i]);
                }
            }
        }
        assert(tree_ok(c.1));
        lemma_foot_witness(c.1, pj, ext, x);
        let q = choose|q: Seq<Seq<char>>| touched(q, ext, x) && extends(q, pj) && segments_ok(q);
        assert(q.subrange(0, p.len() as int) =~= pj.subrange(0, p.len() as int));
        assert(pj.subrange(0, p.len() as int) =~= p);
    }
}

/// The paths of a namespace under child `j` are never those of a namespace
/// under a different child `i`.
proof fn lemma_siblings_apart(
    t: Tree,
    p: Seq<Seq<char>>,
    ext: Seq<char>,
    i: int,
    j: int,
    q: Seq<Seq<char>>,
    x: Seq<char>,
)
    requires
        tree_ok(t),
        segments_ok(p),
        0 <= i < t.children@.len(),
        0 <= j < t.children@.len(),
        i != j,
        touched(q, ext, x),
        extends(q, p.push(t.children@[i].0@)),
        segments_ok(q),
    ensures
        !in_foot(t.children@[j].1, p.push(t.children@[j].0@), ext, x),
{
    let pj = p.push(t.children@[j].0@);
    assert(segment_ok(t.children@[j].0@));
    assert(segments_ok(pj)) by {
        assert forall|k: int| 0 <= k < pj.len() implies segment_ok(#[trigger] pj[k]) by {
            if k < p.len() {
                assert(pj[k] == p[k]);
            }
        }
    }
    assert(tree_ok(t.children@[j].1));
    if in_foot(t.children@[j].1, pj, ext, x) {
        lemma_foot_witness(t.children@[j].1, pj, ext, x);
        let q2 = choose|q2: Seq<Seq<char>>| touched(q2, ext, x) && extends(q2, pj) && segments_ok(q2);
        let n = p.len() as int;
        assert(q[n] == p.push(t.children@[i].0@)[n]);
        assert(q2[n] == pj[n]);
        assert(q[n] == t.children@[i].0@);
        assert(q2[n] == t.children@[j].0@);
        assert(t.children@[i].0@ != t.children@[j].0@);
        lemma_paths_distinct(q, q2, ext);
        lemma_paths_distinct(q2, q, ext);
        if q.len() == 1 && q2 == q.push("tmp"@) {
            assert(q2[0] == q[0]);
        }
        if q2.len() == 1 && q == q2.push("tmp"@) {
            assert(q[0] == q2[0]);
        }
    }
}

proof fn lemma_concat_ok(p: Seq<Seq<char>>, r: Seq<Seq<char>>)
    requires
        segments_ok(p),
        segments_ok(r),
    ensures
        segments_ok(p + r),
{
    assert forall|k: int| 0 <= k < (p + r).len() implies segment_ok(#[trigger] (p + r)[k]) by {
        if k < p.len() {
            assert((p + r)[k] == p[k]);
        } else {
            assert((p + r)[k] == r[k - p.len()]);
        }
    }
}

proof fn lemma_leaf_segments(t: Tree, r: Seq<Seq<char>>)
    requires
        tree_ok(t),
        leaf_at(t, r),
    ensures
        segments_ok(r),
    decreases r.len(),
{
    if r.len() > 0 {
        let i = choose|i: int|
            0 <= i < t.children@.len() && (#[trigger] t.children@[i]).0@ == r[0] && leaf_at(
                t.children@[i].1,
                r.drop_first(),
            );
        assert(tree_ok(t.children@[i].1));
        assert(segment_ok(t.children@[i].0@));
        lemma_leaf_segments(t.children@[i].1, r.drop_first());
        assert forall|k: int| 0 <= k < r.len() implies segment_ok(#[trigger] r[k]) by {
            if k > 0 {
                assert(r[k] == r.drop_first()[k - 1]);
            }
        }
    }
}

proof fn lemma_marked_segments(t: Tree, r: Seq<Seq<char>>)
    requires
        tree_ok(t),
        t.marked(r),
    ensures
        segments_ok(r),
    decreases r.len(),
{
    if r.len() > 0 {
        let i = choose|i: int|
            0 <= i < t.children@.len() && (#[trigger] t.children@[i]).0@ == r[0]
                && t.children@[i].1.marked(r.drop_first());
        assert(tree_ok(t.children@[i].1));
        assert(segment_ok(t.children@[i].0@));
        lemma_marked_segments(t.children@[i].1, r.drop_first());
        assert forall|k: int| 0 <= k < r.len() implies segment_ok(#[trigger] r[k]) by {
            if k > 0 {
                assert(r[k] == r.drop_first()[k - 1]);
            }
        }
    }
}

proof fn lemma_needed_segments(t: Tree, r: Seq<Seq<char>>)
    requires
        tree_ok(t),
        file_needed(t, r),
    ensures
        segments_ok(r),
{
    if leaf_at(t, r) {
        lemma_leaf_segments(t, r);
    } else {
        lemma_marked_segments(t, r);
    }
}

/// The node at `r` is marked exactly where the path `r` is.
proof fn lemma_holds_marked(t: Tree, r: Seq<Seq<char>>, n: Tree)
    requires
        tree_ok(t),
        holds_node(t, r, n),
    ensures
        t.marked(r) == n.has_file,
    decreases r.len(),
{
    if r.len() > 0 {
        let i = choose|i: int|
            0 <= i < t.children@.len() && (#[trigger] t.children@[i]).0@ == r[0] && holds_node(
                t.children@[i].1,
                r.drop_first(),
                n,
            );
        assert(tree_ok(t.children@[i].1));
        lemma_holds_marked(t.children@[i].1, r.drop_first(), n);
        Tree::lemma_marked_at(t, i, r);
    }
}

proof fn lemma_push_ok(p: Seq<Seq<char>>, s: Seq<char>)
    requires
        segments_ok(p),
        segment_ok(s),
    ensures
        segments_ok(p.push(s)),
{
    assert forall|k: int| 0 <= k < p.push(s).len() implies segment_ok(#[trigger] p.push(s)[k]) by {
        if k < p.len() {
            assert(p.push(s)[k] == p[k]);
        }
    }
}

proof fn lemma_extends_push(p: Seq<Seq<char>>, s: Seq<char>, r: Seq<Seq<char>>)
    ensures
        extends(p.push(s) + r, p.push(s)),
{
    assert((p.push(s) + r).subrange(0, p.len() + 1 as int) =~= p.push(s));
}

/// Relocating the node at `p` moves every leaf below it, bytes unchanged,
/// and touches no path outside its footprint.
#[verifier::spinoff_prover]
proof fn lemma_node_plan(t: Tree, p: Seq<Seq<char>>, ext: Seq<char>, fs: Files)
    requires
        tree_ok(t),
        p.len() >= 1,
        segments_ok(p),
        forall|r: Seq<Seq<char>>| #[trigger] file_needed(t, r) ==> fs.contains_key(flat_path(p + r, ext)),
    ensures
        apply_steps(fs, node_plan(t, p, ext)) is Some,
        forall|r: Seq<Seq<char>>| #[trigger]
            leaf_at(t, r) ==> apply_steps(fs, node_plan(t, p, ext))->0.contains_key(
                nested_path(p + r, ext),
            ) && apply_steps(fs, node_plan(t, p, ext))->0[nested_path(p + r, ext)] == fs[flat_path(
                p + r,
                ext,
            )],
        forall|x: Seq<char>|
            !in_foot(t, p, ext, x) ==> #[trigger] same_at(
                fs,
                apply_steps(fs, node_plan(t, p, ext))->0,
                x,
            ),
    decreases t, t.children@.len() + 1,
{
    let e: Seq<Seq<char>> = Seq::empty();
    assert(p + e =~= p);
    if t.children@.len() == 0 {
        assert(leaf_at(t, e));
        assert(file_needed(t, e));
        let flat = flat_path(p, ext);
        let nested = nested_path(p, ext);
        let steps = node_plan(t, p, ext);
        let next = fs.remove(flat).insert(nested, fs[flat]);
        assert(apply_step(fs, steps[0]) == Some(next));
        assert(apply_steps(next, steps.drop_first()) == Some(next));
        assert forall|r: Seq<Seq<char>>| #[trigger] leaf_at(t, r) implies r.len() == 0 by {}
    } else {
        let kids = children_plan(t, p, ext, 0);
        let idx = index_steps(t, p, ext);
        assert forall|j: int, r: Seq<Seq<char>>|
            0 <= j < t.children@.len() && #[trigger] file_needed(t.children@[j].1, r) implies fs.contains_key(
            flat_path(p.push(t.children@[j].0@) + r, ext)) by {
            let full = seq![t.children@[j].0@] + r;
            assert(full.drop_first() =~= r);
            assert(full[0] == t.children@[j].0@);
            assert(leaf_at(t.children@[j].1, r) ==> leaf_at(t, full));
            assert(t.children@[j].1.marked(r) ==> t.marked(full));
            assert(file_needed(t, full));
            assert(p + full =~= p.push(t.children@[j].0@) + r);
        }
        lemma_children_plan(t, p, ext, fs, 0);
        let fs1 = apply_steps(fs, kids)->0;
        assert forall|j: int| 0 <= j < t.children@.len() implies !in_foot(
            (#[trigger] t.children@[j]).1,
            p.push(t.children@[j].0@),
            ext,
            flat_path(p, ext),
        ) by {
            lemma_flat_outside_children(t, p, ext, j);
        }
        assert(same_at(fs, fs1, flat_path(p, ext)));
        assert(t.has_file ==> t.marked(e));
        assert(t.has_file ==> file_needed(t, e));
        lemma_index_merged(t, p, ext, fs1);
        let fs2 = apply_steps(fs1, idx)->0;
        lemma_apply_concat(fs, kids, idx);
        assert(node_plan(t, p, ext) == kids + idx);
        assert forall|r: Seq<Seq<char>>| #[trigger] leaf_at(t, r) implies fs2.contains_key(
            nested_path(p + r, ext),
        ) && fs2[nested_path(p + r, ext)] == fs[flat_path(p + r, ext)] by {
            assert(r.len() > 0);
            let i = choose|i: int|
                0 <= i < t.children@.len() && (#[trigger] t.children@[i]).0@ == r[0] && leaf_at(
                    t.children@[i].1,
                    r.drop_first(),
                );
            let pi = p.push(t.children@[i].0@);
            assert(p + r =~= pi + r.drop_first());
            lemma_leaf_segments(t, r);
            lemma_concat_ok(p, r);
            lemma_paths_distinct(p + r, p, ext);
            lemma_paths_distinct(p, p + r, ext);
            assert(p + r != p) by {
                assert((p + r).len() != p.len());
            }
        }
        assert forall|x: Seq<char>| !in_foot(t, p, ext, x) implies #[trigger] same_at(fs, fs2, x) by {
            assert(!touched(p, ext, x));
            assert(x != nested_path(p, ext) && x != flat_path(p, ext) && x != scratch_path(p, ext));
            assert(fs2.contains_key(x) == fs1.contains_key(x));
            assert(fs1.contains_key(x) ==> fs2[x] == fs1[x]);
            assert forall|j: int| 0 <= j < t.children@.len() implies !in_foot(
                (#[trigger] t.children@[j]).1,
                p.push(t.children@[j].0@),
                ext,
                x,
            ) by {}
            assert(same_at(fs, fs1, x));
        }
    }
}

/// Relocating the children from the `i`-th on moves every leaf below them,
/// bytes unchanged, and touches no path outside their footprints.
proof fn lemma_children_plan(t: Tree, p: Seq<Seq<char>>, ext: Seq<char>, fs: Files, i: int)
    requires
        tree_ok(t),
        segments_ok(p),
        0 <= i <= t.children@.len(),
        forall|j: int, r: Seq<Seq<char>>|
            i <= j < t.children@.len() && #[trigger] file_needed(t.children@[j].1, r)
                ==> fs.contains_key(flat_path(p.push(t.children@[j].0@) + r, ext)),
    ensures
        apply_steps(fs, children_plan(t, p, ext, i)) is Some,
        forall|j: int, r: Seq<Seq<char>>|
            i <= j < t.children@.len() && #[trigger] leaf_at(t.children@[j].1, r) ==> ({
                let res = apply_steps(fs, children_plan(t, p, ext, i))->0;
                let q = p.push(t.children@[j].0@) + r;
                res.contains_key(nested_path(q, ext)) && res[nested_path(q, ext)] == fs[flat_path(
                    q,
                    ext,
                )]
            }),
        forall|x: Seq<char>|
            (forall|j: int|
                i <= j < t.children@.len() ==> !in_foot(
                    (#[trigger] t.children@[j]).1,
                    p.push(t.children@[j].0@),
                    ext,
                    x,
                )) ==> #[trigger] same_at(fs, apply_steps(fs, children_plan(t, p, ext, i))->0, x),
    decreases t, t.children@.len() - i,
{
    if i >= t.children@.len() {
        assert(children_plan(t, p, ext, i) =~= Seq::<Step>::empty());
    } else {
        let c = t.children@[i];
        let pi = p.push(c.0@);
        assert(segment_ok(c.0@));
        assert(tree_ok(c.1));
        lemma_push_ok(p, c.0@);
        assert forall|r: Seq<Seq<char>>| #[trigger] file_needed(c.1, r) implies fs.contains_key(
            flat_path(pi + r, ext),
        ) by {}
        lemma_node_plan(c.1, pi, ext, fs);
        let first = node_plan(c.1, pi, ext);
        let rest = children_plan(t, p, ext, i + 1);
        let fs1 = apply_steps(fs, first)->0;
        assert forall|j: int, r: Seq<Seq<char>>|
            i + 1 <= j < t.children@.len() && #[trigger] file_needed(t.children@[j].1, r) implies fs1.contains_key(
            flat_path(p.push(t.children@[j].0@) + r, ext)) by {
            let pj = p.push(t.children@[j].0@);
            assert(segment_ok(t.children@[j].0@));
            assert(tree_ok(t.children@[j].1));
            lemma_push_ok(p, t.children@[j].0@);
            lemma_needed_segments(t.children@[j].1, r);
            lemma_concat_ok(pj, r);
            lemma_extends_push(p, t.children@[j].0@, r);
            lemma_siblings_apart(t, p, ext, j, i, pj + r, flat_path(pj + r, ext));
            assert(same_at(fs, fs1, flat_path(pj + r, ext)));
        }
        lemma_children_plan(t, p, ext, fs1, i + 1);
        let fs2 = apply_steps(fs1, rest)->0;
        lemma_apply_concat(fs, first, rest);
        assert(children_plan(t, p, ext, i) == first + rest);
        assert forall|j: int, r: Seq<Seq<char>>|
            i <= j < t.children@.len() && #[trigger] leaf_at(t.children@[j].1, r) implies ({
            let q = p.push(t.children@[j].0@) + r;
            fs2.contains_key(nested_path(q, ext)) && fs2[nested_path(q, ext)] == fs[flat_path(q, ext)]
        }) by {
            let pj = p.push(t.children@[j].0@);
            let q = pj + r;
            if j == i {
                lemma_leaf_segments(c.1, r);
                lemma_concat_ok(pi, r);
                lemma_extends_push(p, c.0@, r);
                assert forall|k: int| i + 1 <= k < t.children@.len() implies !in_foot(
                    (#[trigger] t.children@[k]).1,
                    p.push(t.children@[k].0@),
                    ext,
                    nested_path(q, ext),
                ) by {
                    lemma_siblings_apart(t, p, ext, i, k, q, nested_path(q, ext));
                }
                assert(same_at(fs1, fs2, nested_path(q, ext)));
            } else {
                assert(file_needed(t.children@[j].1, r));
                assert(segment_ok(t.children@[j].0@));
                assert(tree_ok(t.children@[j].1));
                lemma_push_ok(p, t.children@[j].0@);
                lemma_leaf_segments(t.children@[j].1, r);
                lemma_concat_ok(pj, r);
                lemma_extends_push(p, t.children@[j].0@, r);
                lemma_siblings_apart(t, p, ext, j, i, q, flat_path(q, ext));
                assert(same_at(fs, fs1, flat_path(q, ext)));
            }
        }
        assert forall|x: Seq<char>|
            (forall|j: int|
                i <= j < t.children@.len() ==> !in_foot(
                    (#[trigger] t.children@[j]).1,
                    p.push(t.children@[j].0@),
                    ext,
                    x,
                )) implies #[trigger] same_at(fs, fs2, x) by {
            assert(!in_foot(t.children@[i].1, pi, ext, x));
            assert(same_at(fs, fs1, x));
            assert(same_at(fs1, fs2, x));
        }
    }
}

/// After the whole relocation of a tree, every leaf namespace's file stands
/// at its nested path with exactly the bytes its flat file had before; the
/// relocation does not fail. This holds where child names hold neither `.`
/// nor `/`, the flat file of every leaf and marked namespace is present, and
/// the top-level index name is no leaf's nested path.
pub proof fn lemma_relocation_keeps_leaf_files(
    t: Tree,
    ext: Seq<char>,
    index_name: Seq<char>,
    fs: Files,
)
    requires
        tree_ok(t),
        forall|q: Seq<Seq<char>>|
            #[trigger] file_needed(t, q) && q.len() > 0 ==> fs.contains_key(flat_path(q, ext)),
        forall|q: Seq<Seq<char>>| #[trigger] leaf_at(t, q) ==> nested_path(q, ext) != index_name,
    ensures
        apply_steps(fs, relocation_plan(t, ext, index_name)) is Some,
        forall|q: Seq<Seq<char>>|
            #[trigger] leaf_at(t, q) && q.len() > 0 ==> ({
                let res = apply_steps(fs, relocation_plan(t, ext, index_name))->0;
                res.contains_key(nested_path(q, ext)) && res[nested_path(q, ext)] == fs[flat_path(
                    q,
                    ext,
                )]
            }),
{
    let e: Seq<Seq<char>> = Seq::empty();
    assert(segments_ok(e));
    assert forall|j: int, r: Seq<Seq<char>>|
        0 <= j < t.children@.len() && #[trigger] file_needed(t.children@[j].1, r) implies fs.contains_key(
        flat_path(e.push(t.children@[j].0@) + r, ext)) by {
        let full = seq![t.children@[j].0@] + r;
        assert(full.drop_first() =~= r);
        assert(full[0] == t.children@[j].0@);
        assert(leaf_at(t.children@[j].1, r) ==> leaf_at(t, full));
        assert(t.children@[j].1.marked(r) ==> t.marked(full));
        assert(file_needed(t, full));
        assert(e.push(t.children@[j].0@) + r =~= full);
    }
    lemma_children_plan(t, e, ext, fs, 0);
    let kids = children_plan(t, e, ext, 0);
    let last = seq![Step::Write(index_name, index_of(t.key_set()))];
    let fs1 = apply_steps(fs, kids)->0;
    let fs2 = fs1.insert(index_name, vstd::utf8::encode_utf8(index_of(t.key_set())));
    assert(apply_step(fs1, last[0]) == Some(fs2));
    assert(apply_steps(fs2, last.drop_first()) == Some(fs2));
    assert(apply_steps(fs1, last) == Some(fs2));
    lemma_apply_concat(fs, kids, last);
    assert forall|q: Seq<Seq<char>>| #[trigger] leaf_at(t, q) && q.len() > 0 implies fs2.contains_key(
        nested_path(q, ext),
    ) && fs2[nested_path(q, ext)] == fs[flat_path(q, ext)] by {
        let i = choose|i: int|
            0 <= i < t.children@.len() && (#[trigger] t.children@[i]).0@ == q[0] && leaf_at(
                t.children@[i].1,
                q.drop_first(),
            );
        assert(e.push(t.children@[i].0@) + q.drop_first() =~= q);
    }
}

proof fn lemma_node_segments(t: Tree, r: Seq<Seq<char>>, n: Tree)
    requires
        tree_ok(t),
        holds_node(t, r, n),
    ensures
        segments_ok(r),
    decreases r.len(),
{
    if r.len() > 0 {
        let i = choose|i: int|
            0 <= i < t.children@.len() && (#[trigger] t.children@[i]).0@ == r[0] && holds_node(
                t.children@[i].1,
                r.drop_first(),
                n,
            );
        assert(tree_ok(t.children@[i].1));
        assert(segment_ok(t.children@[i].0@));
        lemma_node_segments(t.children@[i].1, r.drop_first(), n);
        assert forall|k: int| 0 <= k < r.len() implies segment_ok(#[trigger] r[k]) by {
            if k > 0 {
                assert(r[k] == r.drop_first()[k - 1]);
            }
        }
    }
}

/// A node's own flat path lies outside its children's footprints.
proof fn lemma_flat_outside_children(t: Tree, p: Seq<Seq<char>>, ext: Seq<char>, j: int)
    requires
        tree_ok(t),
        p.len() >= 1,
        segments_ok(p),
        0 <= j < t.children@.len(),
    ensures
        !in_foot(t.children@[j].1, p.push(t.children@[j].0@), ext, flat_path(p, ext)),
{
    let pj = p.push(t.children@[j].0@);
    assert(segment_ok(t.children@[j].0@));
    assert(tree_ok(t.children@[j].1));
    lemma_push_ok(p, t.children@[j].0@);
    if in_foot(t.children@[j].1, pj, ext, flat_path(p, ext)) {
        lemma_foot_witness(t.children@[j].1, pj, ext, flat_path(p, ext));
        let q = choose|q: Seq<Seq<char>>|
            touched(q, ext, flat_path(p, ext)) && extends(q, pj) && segments_ok(q);
        lemma_paths_distinct(p, q, ext);
        lemma_paths_distinct(q, p, ext);
    }
}

/// The children's leaf files are present where the node's are.
proof fn lemma_child_leaves_present(t: Tree, p: Seq<Seq<char>>, ext: Seq<char>, fs: Files)
    requires
        forall|r: Seq<Seq<char>>| #[trigger] file_needed(t, r) ==> fs.contains_key(flat_path(p + r, ext)),
    ensures
        forall|j: int, r: Seq<Seq<char>>|
            0 <= j < t.children@.len() && #[trigger] file_needed(t.children@[j].1, r)
                ==> fs.contains_key(flat_path(p.push(t.children@[j].0@) + r, ext)),
{
    assert forall|j: int, r: Seq<Seq<char>>|
        0 <= j < t.children@.len() && #[trigger] file_needed(t.children@[j].1, r) implies fs.contains_key(
        flat_path(p.push(t.children@[j].0@) + r, ext)) by {
        let full = seq![t.children@[j].0@] + r;
        assert(full.drop_first() =~= r);
        assert(full[0] == t.children@[j].0@);
        assert(leaf_at(t.children@[j].1, r) ==> leaf_at(t, full));
        assert(t.children@[j].1.marked(r) ==> t.marked(full));
        assert(file_needed(t, full));
        assert(p + full =~= p.push(t.children@[j].0@) + r);
    }
}

#[verifier::spinoff_prover]
proof fn lemma_node_plan_merges(t: Tree, p: Seq<Seq<char>>, ext: Seq<char>, fs: Files)
    requires
        tree_ok(t),
        p.len() >= 1,
        segments_ok(p),
        forall|r: Seq<Seq<char>>| #[trigger] file_needed(t, r) ==> fs.contains_key(flat_path(p + r, ext)),
    ensures
        merged_below(t, p, ext, fs, apply_steps(fs, node_plan(t, p, ext))->0),
    decreases t, t.children@.len() + 1,
{
    let e: Seq<Seq<char>> = Seq::empty();
    assert(p + e =~= p);
    lemma_paths_distinct(p, p, ext);
    if t.children@.len() == 0 {
        assert(leaf_at(t, e));
        assert(file_needed(t, e));
        let flat = flat_path(p, ext);
        let nested = nested_path(p, ext);
        let steps = node_plan(t, p, ext);
        let next = fs.remove(flat).insert(nested, fs[flat]);
        assert(apply_step(fs, steps[0]) == Some(next));
        assert(apply_steps(next, steps.drop_first()) == Some(next));
        assert forall|r: Seq<Seq<char>>, n: Tree| #[trigger] holds_node(t, r, n) implies r.len() == 0
            && n == t by {}
    } else {
        let kids = children_plan(t, p, ext, 0);
        let idx = index_steps(t, p, ext);
        lemma_child_leaves_present(t, p, ext, fs);
        lemma_children_plan(t, p, ext, fs, 0);
        lemma_children_plan_merges(t, p, ext, fs, 0);
        let fs1 = apply_steps(fs, kids)->0;
        assert forall|j: int| 0 <= j < t.children@.len() implies !in_foot(
            (#[trigger] t.children@[j]).1,
            p.push(t.children@[j].0@),
            ext,
            flat_path(p, ext),
        ) by {
            lemma_flat_outside_children(t, p, ext, j);
        }
        assert(same_at(fs, fs1, flat_path(p, ext)));
        assert(t.has_file ==> t.marked(e));
        assert(t.has_file ==> file_needed(t, e));
        lemma_index_merged(t, p, ext, fs1);
        let fs2 = apply_steps(fs1, idx)->0;
        lemma_apply_concat(fs, kids, idx);
        assert(node_plan(t, p, ext) == kids + idx);
        assert forall|r: Seq<Seq<char>>, n: Tree|
            #[trigger] holds_node(t, r, n) && n.children@.len() > 0 implies fs2.contains_key(
            nested_path(p + r, ext)) && fs2[nested_path(p + r, ext)] == encode_utf8(
            index_of(n.key_set()),
        ) + own_bytes(fs, n, flat_path(p + r, ext)) by {
            if r.len() == 0 {
                assert(n == t);
                assert(p + r =~= p);
                if t.has_file {
                    assert(fs.contains_key(flat_path(p, ext)));
                    assert(fs1[flat_path(p, ext)] == fs[flat_path(p, ext)]);
                }
                assert(encode_utf8(index_of(n.key_set())) + Seq::<u8>::empty() =~= encode_utf8(
                    index_of(n.key_set()),
                ));
            }
            if r.len() > 0 {
                let i = choose|i: int|
                    0 <= i < t.children@.len() && (#[trigger] t.children@[i]).0@ == r[0]
                        && holds_node(t.children@[i].1, r.drop_first(), n);
                let pi = p.push(t.children@[i].0@);
                assert(p + r =~= pi + r.drop_first());
                assert(merged_below(t.children@[i].1, pi, ext, fs, fs1));
                assert(holds_node(t.children@[i].1, r.drop_first(), n));
                lemma_node_segments(t, r, n);
                lemma_concat_ok(p, r);
                lemma_paths_distinct(p + r, p, ext);
                lemma_paths_distinct(p, p + r, ext);
                assert((p + r).len() != p.len());
                let x = nested_path(p + r, ext);
                assert(x != nested_path(p, ext));
                assert(x != flat_path(p, ext) && x != scratch_path(p, ext));
                assert(fs2.contains_key(x) == fs1.contains_key(x));
                assert(fs1.contains_key(x) ==> fs2[x] == fs1[x]);
                assert(fs1.contains_key(x));
                assert(flat_path(p + r, ext) == flat_path(pi + r.drop_first(), ext));
            }
        }
        assert forall|r: Seq<Seq<char>>, n: Tree|
            #[trigger] holds_node(t, r, n) && (p + r).len() >= 2 && (n.has_file
                || n.children@.len() == 0) implies !fs2.contains_key(
            flat_path(p + r, ext),
        ) by {
            if r.len() > 0 {
                let i = choose|i: int|
                    0 <= i < t.children@.len() && (#[trigger] t.children@[i]).0@ == r[0]
                        && holds_node(t.children@[i].1, r.drop_first(), n);
                let pi = p.push(t.children@[i].0@);
                assert(p + r =~= pi + r.drop_first());
                assert(merged_below(t.children@[i].1, pi, ext, fs, fs1));
                assert(holds_node(t.children@[i].1, r.drop_first(), n));
                assert((pi + r.drop_first()).len() >= 2);
                lemma_node_segments(t, r, n);
                lemma_concat_ok(p, r);
                lemma_paths_distinct(p + r, p, ext);
                lemma_paths_distinct(p, p + r, ext);
                assert((p + r).len() != p.len());
            }
        }
    }
}

proof fn lemma_children_plan_merges(t: Tree, p: Seq<Seq<char>>, ext: Seq<char>, fs: Files, i: int)
    requires
        tree_ok(t),
        segments_ok(p),
        0 <= i <= t.children@.len(),
        forall|j: int, r: Seq<Seq<char>>|
            i <= j < t.children@.len() && #[trigger] file_needed(t.children@[j].1, r)
                ==> fs.contains_key(flat_path(p.push(t.children@[j].0@) + r, ext)),
    ensures
        forall|j: int|
            i <= j < t.children@.len() ==> merged_below(
                (#[trigger] t.children@[j]).1,
                p.push(t.children@[j].0@),
                ext,
                fs,
                apply_steps(fs, children_plan(t, p, ext, i))->0,
            ),
    decreases t, t.children@.len() - i,
{
    if i < t.children@.len() {
        let c = t.children@[i];
        let pi = p.push(c.0@);
        assert(segment_ok(c.0@));
        assert(tree_ok(c.1));
        lemma_push_ok(p, c.0@);
        assert forall|r: Seq<Seq<char>>| #[trigger] file_needed(c.1, r) implies fs.contains_key(
            flat_path(pi + r, ext),
        ) by {}
        lemma_node_plan(c.1, pi, ext, fs);
        lemma_node_plan_merges(c.1, pi, ext, fs);
        let first = node_plan(c.1, pi, ext);
        let rest = children_plan(t, p, ext, i + 1);
        let fs1 = apply_steps(fs, first)->0;
        assert forall|j: int, r: Seq<Seq<char>>|
            i + 1 <= j < t.children@.len() && #[trigger] file_needed(t.children@[j].1, r) implies fs1.contains_key(
            flat_path(p.push(t.children@[j].0@) + r, ext)) by {
            let pj = p.push(t.children@[j].0@);
            assert(segment_ok(t.children@[j].0@));
            assert(tree_ok(t.children@[j].1));
            lemma_push_ok(p, t.children@[j].0@);
            lemma_needed_segments(t.children@[j].1, r);
            lemma_concat_ok(pj, r);
            lemma_extends_push(p, t.children@[j].0@, r);
            lemma_siblings_apart(t, p, ext, j, i, pj + r, flat_path(pj + r, ext));
            assert(same_at(fs, fs1, flat_path(pj + r, ext)));
        }
        lemma_children_plan(t, p, ext, fs1, i + 1);
        lemma_children_plan_merges(t, p, ext, fs1, i + 1);
        let fs2 = apply_steps(fs1, rest)->0;
        lemma_apply_concat(fs, first, rest);
        assert(children_plan(t, p, ext, i) == first + rest);
        assert forall|j: int| i <= j < t.children@.len() implies merged_below(
            (#[trigger] t.children@[j]).1,
            p.push(t.children@[j].0@),
            ext,
            fs,
            fs2,
        ) by {
            let cj = t.children@[j];
            let pj = p.push(cj.0@);
            assert(segment_ok(cj.0@));
            assert(tree_ok(cj.1));
            lemma_push_ok(p, cj.0@);
            if j == i {
                assert(merged_below(c.1, pi, ext, fs, fs1));
                assert forall|r: Seq<Seq<char>>, n: Tree| #[trigger] holds_node(cj.1, r, n) implies same_at(
                    fs1, fs2, nested_path(pj + r, ext)) && same_at(fs1, fs2, flat_path(pj + r, ext)) by {
                    lemma_node_segments(cj.1, r, n);
                    lemma_concat_ok(pj, r);
                    lemma_extends_push(p, cj.0@, r);
                    assert forall|k: int| i + 1 <= k < t.children@.len() implies !in_foot(
                        (#[trigger] t.children@[k]).1,
                        p.push(t.children@[k].0@),
                        ext,
                        nested_path(pj + r, ext),
                    ) && !in_foot(
                        t.children@[k].1,
                        p.push(t.children@[k].0@),
                        ext,
                        flat_path(pj + r, ext),
                    ) by {
                        lemma_siblings_apart(t, p, ext, i, k, pj + r, nested_path(pj + r, ext));
                        lemma_siblings_apart(t, p, ext, i, k, pj + r, flat_path(pj + r, ext));
                    }
                }
            } else {
                assert(merged_below(cj.1, pj, ext, fs1, fs2));
                assert forall|r: Seq<Seq<char>>, n: Tree| #[trigger] holds_node(cj.1, r, n) implies same_at(
                    fs, fs1, flat_path(pj + r, ext)) by {
                    lemma_node_segments(cj.1, r, n);
                    lemma_concat_ok(pj, r);
                    lemma_extends_push(p, cj.0@, r);
                    lemma_siblings_apart(t, p, ext, j, i, pj + r, flat_path(pj + r, ext));
                }
            }
        }
    }
}

/// After the whole relocation of a tree, every namespace that has
/// sub-namespaces has its index (one export line per child, sorted) at its
/// nested path; where the namespace is dual-role (marked as having a
/// generated file of its own) the index is followed directly by the bytes
/// that file had. No flat file of a leaf or of a dual-role namespace of two
/// or more segments is left. This holds where child names hold neither `.`
/// nor `/`, the flat file of every leaf and marked namespace is present, and
/// the top-level index name is no namespace's nested or flat path.
pub proof fn lemma_relocation_merges_namespace_files(
    t: Tree,
    ext: Seq<char>,
    index_name: Seq<char>,
    fs: Files,
)
    requires
        tree_ok(t),
        forall|q: Seq<Seq<char>>|
            #[trigger] file_needed(t, q) && q.len() > 0 ==> fs.contains_key(flat_path(q, ext)),
        forall|q: Seq<Seq<char>>, n: Tree|
            #[trigger] holds_node(t, q, n) && q.len() > 0 ==> nested_path(q, ext) != index_name
                && flat_path(q, ext) != index_name,
    ensures
        apply_steps(fs, relocation_plan(t, ext, index_name)) is Some,
        forall|q: Seq<Seq<char>>, n: Tree|
            #[trigger] holds_node(t, q, n) && q.len() > 0 && n.children@.len() > 0 ==> ({
                let res = apply_steps(fs, relocation_plan(t, ext, index_name))->0;
                let index = encode_utf8(index_of(n.key_set()));
                &&& res.contains_key(nested_path(q, ext))
                &&& n.has_file ==> res[nested_path(q, ext)] == index + fs[flat_path(q, ext)]
                &&& !n.has_file ==> res[nested_path(q, ext)] == index
            }),
        forall|q: Seq<Seq<char>>, n: Tree|
            #[trigger] holds_node(t, q, n) && q.len() >= 2 && (n.has_file || n.children@.len()
                == 0) ==> !apply_steps(fs, relocation_plan(t, ext, index_name))->0.contains_key(
                flat_path(q, ext),
            ),
{
    let e: Seq<Seq<char>> = Seq::empty();
    assert(segments_ok(e));
    assert forall|j: int, r: Seq<Seq<char>>|
        0 <= j < t.children@.len() && #[trigger] file_needed(t.children@[j].1, r) implies fs.contains_key(
        flat_path(e.push(t.children@[j].0@) + r, ext)) by {
        let full = seq![t.children@[j].0@] + r;
        assert(full.drop_first() =~= r);
        assert(full[0] == t.children@[j].0@);
        assert(leaf_at(t.children@[j].1, r) ==> leaf_at(t, full));
        assert(t.children@[j].1.marked(r) ==> t.marked(full));
        assert(file_needed(t, full));
        assert(e.push(t.children@[j].0@) + r =~= full);
    }
    lemma_children_plan(t, e, ext, fs, 0);
    lemma_children_plan_merges(t, e, ext, fs, 0);
    let kids = children_plan(t, e, ext, 0);
    let last = seq![Step::Write(index_name, index_of(t.key_set()))];
    let fs1 = apply_steps(fs, kids)->0;
    let fs2 = fs1.insert(index_name, encode_utf8(index_of(t.key_set())));
    assert(apply_step(fs1, last[0]) == Some(fs2));
    assert(apply_steps(fs2, last.drop_first()) == Some(fs2));
    assert(apply_steps(fs1, last) == Some(fs2));
    lemma_apply_concat(fs, kids, last);
    assert forall|q: Seq<Seq<char>>, n: Tree| #[trigger] holds_node(t, q, n) && q.len() > 0 implies ({
        let index = encode_utf8(index_of(n.key_set()));
        &&& n.children@.len() > 0 ==> fs2.contains_key(nested_path(q, ext))
        &&& n.children@.len() > 0 && n.has_file ==> fs2[nested_path(q, ext)] == index + fs[flat_path(
            q,
            ext,
        )]
        &&& n.children@.len() > 0 && !n.has_file ==> fs2[nested_path(q, ext)] == index
        &&& q.len() >= 2 && (n.has_file || n.children@.len() == 0) ==> !fs2.contains_key(
            flat_path(q, ext),
        )
    }) by {
        lemma_holds_marked(t, q, n);
        assert(n.has_file ==> file_needed(t, q));
        assert(encode_utf8(index_of(n.key_set())) + Seq::<u8>::empty() =~= encode_utf8(
            index_of(n.key_set()),
        ));
        let i = choose|i: int|
            0 <= i < t.children@.len() && (#[trigger] t.children@[i]).0@ == q[0] && holds_node(
                t.children@[i].1,
                q.drop_first(),
                n,
            );
        let pi = e.push(t.children@[i].0@);
        assert(pi + q.drop_first() =~= q);
        assert(merged_below(t.children@[i].1, pi, ext, fs, fs1));
        assert(holds_node(t.children@[i].1, q.drop_first(), n));
    }
}

/// The pieces of a split never hold the separator, nor a character that the
/// whole string lacks.
proof fn lemma_split_pieces_free(s: Seq<char>, c: char, d: char)
    ensures
        forall|i: int| 0 <= i < split_on(s, c).len() ==> free_of(#[trigger] split_on(s, c)[i], c),
        free_of(s, d) ==> forall|i: int|
            0 <= i < split_on(s, c).len() ==> free_of(#[trigger] split_on(s, c)[i], d),
    decreases s.len(),
{
    if s.len() > 0 {
        let init = s.drop_last();
        lemma_split_pieces_free(init, c, d);
        crate::segment::lemma_split_nonempty(init, c);
        let parts = split_on(init, c);
        assert(s.last() == s[s.len() - 1]);
        if free_of(s, d) {
            assert(free_of(init, d)) by {
                assert forall|k: int| 0 <= k < init.len() implies init[k] != d by {
                    assert(init[k] == s[k]);
                }
            }
        }
        if s.last() != c {
            let l = parts.last();
            assert(l == parts[parts.len() - 1]);
            assert forall|k: int| 0 <= k < l.push(s.last()).len() implies l.push(s.last())[k] != c by {
                if k < l.len() {
                    assert(l.push(s.last())[k] == l[k]);
                }
            }
        }
    }
}

/// A child-name path of the tree of well-formed names without `/` has usable
/// segments.
pub proof fn lemma_name_paths_ok(names: Seq<Seq<char>>, p: Seq<Seq<char>>)
    requires
        paths_of_names(names).contains(p),
        forall|i: int|
            0 <= i < names.len() ==> segments_well_formed(name_segments(#[trigger] names[i])),
        forall|i: int| 0 <= i < names.len() ==> free_of(#[trigger] names[i], '/'),
    ensures
        segments_ok(p),
{
    lemma_paths_of_names_members(names, p);
    let i = choose|i: int|
        0 <= i < names.len() && crate::segment::is_prefix_path(p, name_segments(#[trigger] names[i]));
    let n = names[i];
    let segs = name_segments(n);
    lemma_split_pieces_free(n, '.', '/');
    assert(segments_well_formed(segs));
    assert forall|k: int| 0 <= k < p.len() implies segment_ok(#[trigger] p[k]) by {
        assert(p[k] == segs[k]);
        assert(segs[k] == split_on(n, '.')[k]);
        assert(segs[k].len() > 0);
    }
}

/// A tree with unique child names whose every node path has usable segments
/// is `tree_ok`.
pub proof fn lemma_tree_ok_from_paths(t: Tree)
    requires
        t.wf(),
        forall|p: Seq<Seq<char>>| #[trigger] t.has_path(p) ==> segments_ok(p),
    ensures
        tree_ok(t),
    decreases t,
{
    assert forall|i: int| 0 <= i < t.children@.len() implies segment_ok(
        (#[trigger] t.children@[i]).0@,
    ) by {
        let p = seq![t.children@[i].0@];
        assert(t.has_path(p));
        assert(p[0] == t.children@[i].0@);
    }
    assert forall|i: int| 0 <= i < t.children@.len() implies tree_ok(
        (#[trigger] t.children@[i]).1,
    ) by {
        let c = t.children@[i];
        assert(c.1.wf());
        assert forall|r: Seq<Seq<char>>| #[trigger] c.1.has_path(r) implies segments_ok(r) by {
            let full = seq![c.0@] + r;
            assert(full.drop_first() =~= r);
            assert(full[0] == c.0@);
            assert(t.has_path(full));
            assert forall|k: int| 0 <= k < r.len() implies segment_ok(#[trigger] r[k]) by {
                assert(r[k] == full[k + 1]);
            }
        }
        lemma_tree_ok_from_paths(c.1);
    }
}

} // verus!
