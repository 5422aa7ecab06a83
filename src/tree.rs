//! The namespace tree: one node per dot-delimited segment, built from the
//! file names of a flat output directory.
use vstd::prelude::*;

use crate::error::Error;
use crate::index::{
    export_lines, index_header, index_of, lemma_sorted_insert, lemma_sorted_unique, sorted_names,
    strictly_sorted,
};
use crate::segment::{
    chars_equal, chars_of, check_segments, is_prefix_path, lemma_lex_trichotomy, lex_less, lex_lt,
    name_segments, prefixes_of, segments_of_name, segments_well_formed, string_of, view_segments,
};

verus! {

/// The character sequences of a list of strings.
pub open spec fn view_strings(names: Seq<String>) -> Seq<Seq<char>> {
    names.map_values(|s: String| s@)
}

/// The nodes of the tree that holds the file names `names`: every non-empty
/// prefix of the segments of each of them.
pub open spec fn paths_of_names(names: Seq<Seq<char>>) -> Set<Seq<Seq<char>>>
    decreases names.len(),
{
    if names.len() == 0 {
        Set::empty()
    } else {
        paths_of_names(names.drop_last()).union(prefixes_of(name_segments(names.last())))
    }
}

/// The namespaces that have a generated file of their own in the tree of
/// the file names `names`: one for each name.
pub open spec fn files_of_names(names: Seq<Seq<char>>) -> Set<Seq<Seq<char>>> {
    names.map_values(|n: Seq<char>| name_segments(n)).to_set()
}

/// Some name of `names` does not split into non-empty segments.
pub open spec fn some_malformed(names: Seq<Seq<char>>) -> bool {
    exists|i: int| 0 <= i < names.len() && !segments_well_formed(name_segments(#[trigger] names[i]))
}

pub proof fn lemma_paths_of_names_members(names: Seq<Seq<char>>, p: Seq<Seq<char>>)
    ensures
        paths_of_names(names).contains(p) == exists|i: int|
            0 <= i < names.len() && is_prefix_path(p, name_segments(#[trigger] names[i])),
    decreases names.len(),
{
    if names.len() > 0 {
        let init = names.drop_last();
        lemma_paths_of_names_members(init, p);
        if paths_of_names(init).contains(p) {
            let i = choose|i: int|
                0 <= i < init.len() && is_prefix_path(p, name_segments(#[trigger] init[i]));
            assert(names[i] == init[i]);
        }
        if exists|i: int| 0 <= i < names.len() && is_prefix_path(p, name_segments(#[trigger] names[i])) {
            let i = choose|i: int|
                0 <= i < names.len() && is_prefix_path(p, name_segments(#[trigger] names[i]));
            if i < names.len() - 1 {
                assert(init[i] == names[i]);
            }
        }
    }
}

/// The tree built from a set of file names does not depend on the order in
/// which, or the number of times, each name is inserted: two lists that hold
/// the same names give the same nodes, with the same nodes marked as having
/// a file of their own.
pub proof fn lemma_insertion_order_irrelevant(a: Seq<Seq<char>>, b: Seq<Seq<char>>)
    requires
        a.to_set() == b.to_set(),
    ensures
        paths_of_names(a) == paths_of_names(b),
        files_of_names(a) == files_of_names(b),
{
    let f = |n: Seq<char>| name_segments(n);
    a.lemma_to_set_map_commutes(f);
    b.lemma_to_set_map_commutes(f);
    assert forall|p: Seq<Seq<char>>| paths_of_names(a).contains(p) implies paths_of_names(b).contains(p) by {
        lemma_paths_of_names_members(a, p);
        lemma_paths_of_names_members(b, p);
        let i = choose|i: int| 0 <= i < a.len() && is_prefix_path(p, name_segments(#[trigger] a[i]));
        assert(a.to_set().contains(a[i]));
        assert(b.to_set().contains(a[i]));
        let j = choose|j: int| 0 <= j < b.len() && b[j] == a[i];
        assert(is_prefix_path(p, name_segments(b[j])));
    }
    assert forall|p: Seq<Seq<char>>| paths_of_names(b).contains(p) implies paths_of_names(a).contains(p) by {
        lemma_paths_of_names_members(a, p);
        lemma_paths_of_names_members(b, p);
        let i = choose|i: int| 0 <= i < b.len() && is_prefix_path(p, name_segments(#[trigger] b[i]));
        assert(b.to_set().contains(b[i]));
        assert(a.to_set().contains(b[i]));
        let j = choose|j: int| 0 <= j < a.len() && a[j] == b[i];
        assert(is_prefix_path(p, name_segments(a[j])));
    }
    assert(paths_of_names(a) =~= paths_of_names(b));
}

/// The index file of a node is a function of the node's descendants alone:
/// two nodes with the same paths below them (for instance two trees built from
/// the same names in any order, or one node read twice) give the same text.
pub proof fn lemma_index_deterministic(a: Tree, b: Tree)
    requires
        a.paths() == b.paths(),
    ensures
        index_of(a.key_set()) == index_of(b.key_set()),
{
    a.lemma_key_set_is_top_paths();
    b.lemma_key_set_is_top_paths();
    assert forall|k: Seq<char>| a.key_set().contains(k) == b.key_set().contains(k) by {
        assert(a.paths().contains(seq![k]) == a.has_path(seq![k]));
        assert(b.paths().contains(seq![k]) == b.has_path(seq![k]));
        assert(a.paths().contains(seq![k]) == b.paths().contains(seq![k]));
    }
    assert(a.key_set() =~= b.key_set());
}

/// Child `x` of `a` has a namesake in `b` with the same paths below it.
pub open spec fn matched_child(a: Tree, b: Tree, x: int) -> bool {
    exists|y: int|
        0 <= y < b.children@.len() && #[trigger] b.children@[y].0@ == a.children@[x].0@
            && a.children@[x].1.paths() == b.children@[y].1.paths()
}

/// Child `y` of `b` has a namesake in `a`.
pub open spec fn named_in(b: Tree, a: Tree, y: int) -> bool {
    exists|x: int| 0 <= x < a.children@.len() && #[trigger] a.children@[x].0@ == b.children@[y].0@
}

/// A node of the namespace hierarchy: each child is keyed by one segment.
#[derive(Debug)]
pub struct Tree {
    /// The children, each with its segment. The names are kept unique (see
    /// `wf`) in a `Vec` rather than a map: the index and the relocation plan
    /// walk the children in a fixed order, and the proofs about them go by
    /// position, which vstd's `Seq` view of a `Vec` gives directly.
    pub children: Vec<(Vec<char>, Tree)>,
    /// The namespace of this node has a generated file of its own: set on the
    /// last segment of every inserted name. A node with children that has
    /// one is dual-role; its index is merged with that file.
    pub has_file: bool,
}

impl Tree {
    /// Child keys are unique at every level.
    pub open spec fn wf(self) -> bool
        decreases self,
    {
        &&& forall|i: int, j: int|
            0 <= i < j < self.children@.len() ==> self.children@[i].0@ != self.children@[j].0@
        &&& forall|i: int|
            0 <= i < self.children@.len() ==> (#[trigger] self.children@[i]).1.wf()
    }

    /// `p` is the segment path of a node below this one.
    pub open spec fn has_path(self, p: Seq<Seq<char>>) -> bool
        decreases p.len(),
    {
        p.len() > 0 && exists|i: int|
            0 <= i < self.children@.len() && (#[trigger] self.children@[i]).0@ == p[0] && (
            p.len() == 1 || self.children@[i].1.has_path(p.drop_first()))
    }

    /// The node at segment path `p` (this node for the empty path) has a
    /// generated file of its own.
    pub open spec fn marked(self, p: Seq<Seq<char>>) -> bool
        decreases p.len(),
    {
        if p.len() == 0 {
            self.has_file
        } else {
            exists|i: int|
                0 <= i < self.children@.len() && (#[trigger] self.children@[i]).0@ == p[0]
                    && self.children@[i].1.marked(p.drop_first())
        }
    }

    /// The segment paths of the nodes below this one that have a generated
    /// file of their own.
    pub open spec fn files(self) -> Set<Seq<Seq<char>>> {
        Set::new(|p: Seq<Seq<char>>| p.len() > 0 && self.marked(p))
    }

    /// The segment paths of all nodes below this one.
    pub open spec fn paths(self) -> Set<Seq<Seq<char>>> {
        Set::new(|p: Seq<Seq<char>>| self.has_path(p))
    }

    /// The names of the direct children.
    pub open spec fn key_set(self) -> Set<Seq<char>> {
        self.children@.map_values(|c: (Vec<char>, Tree)| c.0@).to_set()
    }

    /// A node without children.
    pub open spec fn spec_is_leaf(self) -> bool {
        self.children@.len() == 0
    }

    pub fn new() -> (r: Tree)
        ensures
            r.wf(),
            forall|p| !r.has_path(p),
            forall|p| !r.marked(p),
            !r.has_file,
    {
        Tree { children: Vec::new(), has_file: false }
    }

    /// With unique keys, a path through child `i` is a path below that child.
    proof fn lemma_has_path_at(t: Tree, i: int, p: Seq<Seq<char>>)
        requires
            t.wf(),
            0 <= i < t.children@.len(),
            p.len() > 0,
            t.children@[i].0@ == p[0],
        ensures
            t.has_path(p) == (p.len() == 1 || t.children@[i].1.has_path(p.drop_first())),
    {
        if t.has_path(p) {
            let j = choose|j: int|
                0 <= j < t.children@.len() && (#[trigger] t.children@[j]).0@ == p[0] && (p.len()
                    == 1 || t.children@[j].1.has_path(p.drop_first()));
            assert(j == i);
        }
    }

    /// No path starts with a key that no child has.
    proof fn lemma_has_path_absent(t: Tree, p: Seq<Seq<char>>)
        requires
            p.len() > 0,
            forall|j: int| 0 <= j < t.children@.len() ==> (#[trigger] t.children@[j]).0@ != p[0],
        ensures
            !t.has_path(p),
    {
    }

    /// Two nodes whose children agree but at `i` agree on the paths that avoid key `i`.
    proof fn lemma_has_path_same_except(a: Tree, b: Tree, i: int, p: Seq<Seq<char>>)
        requires
            0 <= i < a.children@.len(),
            a.children@.len() == b.children@.len(),
            a.children@[i].0@ == b.children@[i].0@,
            forall|j: int| 0 <= j < a.children@.len() && j != i ==> a.children@[j] == b.children@[j],
            p.len() > 0,
            p[0] != a.children@[i].0@,
        ensures
            a.has_path(p) == b.has_path(p),
    {
        if a.has_path(p) {
            let j = choose|j: int|
                0 <= j < a.children@.len() && (#[trigger] a.children@[j]).0@ == p[0] && (p.len()
                    == 1 || a.children@[j].1.has_path(p.drop_first()));
            assert(b.children@[j] == a.children@[j]);
        }
        if b.has_path(p) {
            let j = choose|j: int|
                0 <= j < b.children@.len() && (#[trigger] b.children@[j]).0@ == p[0] && (p.len()
                    == 1 || b.children@[j].1.has_path(p.drop_first()));
            assert(b.children@[j] == a.children@[j]);
        }
    }

    pub proof fn lemma_marked_at(t: Tree, i: int, p: Seq<Seq<char>>)
        requires
            t.wf(),
            0 <= i < t.children@.len(),
            p.len() > 0,
            t.children@[i].0@ == p[0],
        ensures
            t.marked(p) == t.children@[i].1.marked(p.drop_first()),
    {
        if t.marked(p) {
            let j = choose|j: int|
                0 <= j < t.children@.len() && (#[trigger] t.children@[j]).0@ == p[0]
                    && t.children@[j].1.marked(p.drop_first());
            assert(j == i);
        }
    }

    proof fn lemma_marked_same_except(a: Tree, b: Tree, i: int, p: Seq<Seq<char>>)
        requires
            0 <= i < a.children@.len(),
            a.children@.len() == b.children@.len(),
            a.children@[i].0@ == b.children@[i].0@,
            forall|j: int| 0 <= j < a.children@.len() && j != i ==> a.children@[j] == b.children@[j],
            p.len() > 0,
            p[0] != a.children@[i].0@,
        ensures
            a.marked(p) == b.marked(p),
    {
        if a.marked(p) {
            let j = choose|j: int|
                0 <= j < a.children@.len() && (#[trigger] a.children@[j]).0@ == p[0]
                    && a.children@[j].1.marked(p.drop_first());
            assert(b.children@[j] == a.children@[j]);
        }
        if b.marked(p) {
            let j = choose|j: int|
                0 <= j < b.children@.len() && (#[trigger] b.children@[j]).0@ == p[0]
                    && b.children@[j].1.marked(p.drop_first());
            assert(b.children@[j] == a.children@[j]);
        }
    }

    proof fn lemma_has_path_children(a: Tree, b: Tree, p: Seq<Seq<char>>)
        requires
            a.children == b.children,
        ensures
            a.has_path(p) == b.has_path(p),
    {
    }

    /// Index of the child named `key`, if there is one.
    fn find_child(&self, key: &Vec<char>) -> (r: Option<usize>)
        requires
            self.wf(),
        ensures
            match r {
                Some(i) => i < self.children@.len() && self.children@[i as int].0@ == key@,
                None => forall|j: int|
                    0 <= j < self.children@.len() ==> (#[trigger] self.children@[j]).0@ != key@,
            },
    {
        let mut i: usize = 0;
        while i < self.children.len()
            invariant
                i <= self.children@.len(),
                forall|j: int| 0 <= j < i ==> (#[trigger] self.children@[j]).0@ != key@,
            decreases self.children@.len() - i,
        {
            if chars_equal(&self.children[i].0, key) {
                return Some(i);
            }
            i = i + 1;
        }
        None
    }

    /// Descends along `segs[start..]`, creating the nodes that are missing.
    fn insert_segments(&mut self, segs: &Vec<Vec<char>>, start: usize)
        requires
            old(self).wf(),
            start < segs@.len(),
        ensures
            final(self).wf(),
            forall|p: Seq<Seq<char>>|
                #[trigger] final(self).has_path(p) == (old(self).has_path(p) || is_prefix_path(
                    p,
                    view_segments(segs@).skip(start as int),
                )),
            final(self).has_file == old(self).has_file,
            forall|p: Seq<Seq<char>>|
                p.len() > 0 ==> (#[trigger] final(self).marked(p) == (old(self).marked(p) || p
                    == view_segments(segs@).skip(start as int))),
        decreases segs@.len() - start,
    {
        let ghost q = view_segments(segs@).skip(start as int);
        let ghost old_self = *self;
        let ghost found = false;
        let idx = match self.find_child(&segs[start]) {
            Some(i) => {
                proof {
                    found = true;
                }
                i
            },
            None => {
                let seg = segs[start].clone();
                self.children.push((seg, Tree::new()));
                let ghost mid = *self;
                assert forall|p: Seq<Seq<char>>| p.len() > 0 implies #[trigger] mid.marked(p)
                    == old_self.marked(p) by {
                    let last = mid.children@.len() - 1;
                    if p[0] == q[0] {
                        Tree::lemma_marked_at(mid, last, p);
                        assert(!mid.children@[last].1.marked(p.drop_first()));
                        if old_self.marked(p) {
                            let j = choose|j: int|
                                0 <= j < old_self.children@.len() && (#[trigger] old_self.children@[
                                    j]).0@ == p[0] && old_self.children@[j].1.marked(p.drop_first());
                        }
                    } else {
                        if old_self.marked(p) {
                            let j = choose|j: int|
                                0 <= j < old_self.children@.len() && (#[trigger] old_self.children@[
                                    j]).0@ == p[0] && old_self.children@[j].1.marked(p.drop_first());
                            assert(mid.children@[j] == old_self.children@[j]);
                        }
                        if mid.marked(p) {
                            let j = choose|j: int|
                                0 <= j < mid.children@.len() && (#[trigger] mid.children@[j]).0@
                                    == p[0] && mid.children@[j].1.marked(p.drop_first());
                            assert(mid.children@[j] == old_self.children@[j]);
                        }
                    }
                }
                assert forall|p: Seq<Seq<char>>|
                    #[trigger] mid.has_path(p) == (old_self.has_path(p) || (p.len() == 1 && p[0]
                        == q[0])) by {
                    if p.len() > 0 && old_self.has_path(p) {
                        let j = choose|j: int|
                            0 <= j < old_self.children@.len() && (#[trigger] old_self.children@[
                                j]).0@ == p[0] && (p.len() == 1 || old_self.children@[j].1.has_path(
                                p.drop_first()));
                        assert(mid.children@[j] == old_self.children@[j]);
                    }
                    if p.len() > 0 && mid.has_path(p) {
                        let j = choose|j: int|
                            0 <= j < mid.children@.len() && (#[trigger] mid.children@[j]).0@
                                == p[0] && (p.len() == 1 || mid.children@[j].1.has_path(
                                p.drop_first()));
                        if j < old_self.children@.len() {
                            assert(old_self.children@[j] == mid.children@[j]);
                        }
                    }
                    if p.len() == 1 && p[0] == q[0] {
                        assert(mid.children@[mid.children@.len() - 1].0@ == p[0]);
                    }
                }
                self.children.len() - 1
            },
        };
        let ghost before = *self;
        assert(q[0] == segs@[start as int]@);
        let ghost child_b = before.children@[idx as int].1;
        let ghost last_seg = start == segs.len() - 1;
        let (k, mut t) = self.children.remove(idx);
        if start < segs.len() - 1 {
            t.insert_segments(segs, start + 1);
            assert(view_segments(segs@).skip(start + 1) =~= q.drop_first());
        } else {
            assert(before.children@[idx as int].1.wf());
            t.has_file = true;
            assert(t.children == child_b.children);
            assert(t.wf());
            assert forall|r: Seq<Seq<char>>| #[trigger] t.has_path(r) == child_b.has_path(r) by {
                Tree::lemma_has_path_children(t, child_b, r);
            }
            assert forall|r: Seq<Seq<char>>| r.len() > 0 implies #[trigger] t.marked(r)
                == child_b.marked(r) by {}
            assert(q.len() == 1);
        }
        self.children.insert(idx, (k, t));
        assert(self.children@ =~= before.children@.update(idx as int, (k, t)));
        assert(self.wf()) by {
            assert forall|i: int| 0 <= i < self.children@.len() implies (
            #[trigger] self.children@[i]).1.wf() by {
                if i != idx {
                    assert(self.children@[i] == before.children@[i]);
                }
            }
        }
        assert forall|p: Seq<Seq<char>>| p.len() > 0 implies #[trigger] self.marked(p) == (
        old_self.marked(p) || p == q) by {
            assert(before.marked(p) == old_self.marked(p));
            if p[0] == q[0] {
                Tree::lemma_marked_at(*self, idx as int, p);
                Tree::lemma_marked_at(before, idx as int, p);
                if p.len() > 1 && !last_seg {
                    if p.drop_first() == q.drop_first() {
                        assert(p =~= seq![q[0]] + q.drop_first());
                        assert(q =~= seq![q[0]] + q.drop_first());
                    }
                }
                if p.len() == 1 && last_seg {
                    assert(p =~= q);
                }
            } else {
                Tree::lemma_marked_same_except(*self, before, idx as int, p);
            }
        }
        assert(self.wf()) by {
            assert forall|i: int| 0 <= i < self.children@.len() implies (
            #[trigger] self.children@[i]).1.wf() by {
                if i != idx {
                    assert(self.children@[i] == before.children@[i]);
                }
            }
        }
        assert forall|p: Seq<Seq<char>>|
            #[trigger] self.has_path(p) == (old_self.has_path(p) || is_prefix_path(p, q)) by {
            if p.len() > 0 {
                if p[0] == q[0] {
                    Tree::lemma_has_path_at(*self, idx as int, p);
                    Tree::lemma_has_path_at(before, idx as int, p);
                    if found {
                        Tree::lemma_has_path_at(old_self, idx as int, p);
                    } else {
                        Tree::lemma_has_path_absent(old_self, p);
                    }
                    if p.len() > 1 {
                        let tail = p.drop_first();
                        if start < segs@.len() - 1 {
                            assert(view_segments(segs@).skip(start + 1) =~= q.drop_first());
                        }
                        if is_prefix_path(p, q) {
                            assert(tail =~= q.drop_first().subrange(0, tail.len() as int));
                        }
                        if start < segs@.len() - 1 && is_prefix_path(tail, q.drop_first()) {
                            assert forall|k: int| 0 <= k < p.len() implies p[k] == q[k] by {
                                if k > 0 {
                                    assert(p[k] == tail[k - 1]);
                                    assert(tail[k - 1] == q.drop_first()[k - 1]);
                                }
                            }
                            assert(p =~= q.subrange(0, p.len() as int));
                        }
                    } else {
                        assert(p =~= q.subrange(0, 1));
                    }
                } else {
                    Tree::lemma_has_path_same_except(*self, before, idx as int, p);
                }
            }
        }
    }

    /// Inserts the file name `name` (for instance `a.b.c.rs`): its stem is split
    /// at each dot, and one node is made sure to exist for each prefix of the
    /// segments. A name with an empty segment is refused and the tree is left
    /// as it was.
    pub fn insert_path(&mut self, name: &str) -> (r: Result<(), Error>)
        requires
            old(self).wf(),
        ensures
            final(self).wf(),
            r is Ok == segments_well_formed(name_segments(name@)),
            r is Ok ==> final(self).paths() == old(self).paths().union(
                prefixes_of(name_segments(name@)),
            ),
            r is Ok ==> final(self).files() == old(self).files().insert(name_segments(name@)),
            final(self).has_file == old(self).has_file,
            match r {
                Ok(_) => true,
                Err(Error::MalformedName { name: n }) => n@ == name@ && *final(self) == *old(self),
                Err(_) => false,
            },
    {
        let segs = segments_of_name(name);
        if !check_segments(&segs) {
            return Err(Error::MalformedName { name: name.to_owned() });
        }
        let ghost old_self = *self;
        self.insert_segments(&segs, 0);
        assert(view_segments(segs@).skip(0) =~= view_segments(segs@));
        assert(self.paths() =~= old_self.paths().union(prefixes_of(name_segments(name@))));
        assert(self.files() =~= old_self.files().insert(name_segments(name@)));
        Ok(())
    }

    /// The tree of the file names `names`, inserted in order; refused with the
    /// first name that has an empty segment.
    pub fn from_names(names: &Vec<String>) -> (r: Result<Tree, Error>)
        ensures
            r is Ok == !some_malformed(view_strings(names@)),
            match r {
                Ok(t) => t.wf() && t.paths() == paths_of_names(view_strings(names@)) && t.files()
                    == files_of_names(view_strings(names@)) && !t.has_file,
                Err(Error::MalformedName { name: n }) => exists|i: int|
                    0 <= i < names@.len() && names@[i]@ == n@ && !segments_well_formed(
                        name_segments(n@),
                    ),
                Err(_) => false,
            },
    {
        let mut tree = Tree::new();
        let mut i: usize = 0;
        assert(tree.files() =~= files_of_names(view_strings(names@).subrange(0, 0)));
        assert(tree.paths() =~= paths_of_names(view_strings(names@).subrange(0, 0)));
        while i < names.len()
            invariant
                i <= names@.len(),
                tree.wf(),
                tree.paths() == paths_of_names(view_strings(names@).subrange(0, i as int)),
                tree.files() == files_of_names(view_strings(names@).subrange(0, i as int)),
                !tree.has_file,
                forall|k: int|
                    0 <= k < i ==> segments_well_formed(name_segments(#[trigger] names@[k]@)),
            decreases names@.len() - i,
        {
            let r = tree.insert_path(names[i].as_str());
            if r.is_err() {
                assert(!segments_well_formed(name_segments(view_strings(names@)[i as int])));
                return Err(Error::MalformedName { name: names[i].clone() });
            }
            assert(view_strings(names@).subrange(0, i + 1).drop_last() =~= view_strings(
                names@,
            ).subrange(0, i as int));
            proof {
                let pre = view_strings(names@).subrange(0, i as int);
                let f = |n: Seq<char>| name_segments(n);
                assert(view_strings(names@).subrange(0, i + 1) =~= pre.push(names@[i as int]@));
                assert(pre.push(names@[i as int]@).map_values(f) =~= pre.map_values(f).push(
                    name_segments(names@[i as int]@),
                ));
                pre.map_values(f).lemma_push_to_set_commute(name_segments(names@[i as int]@));
            }
            i = i + 1;
        }
        assert(view_strings(names@).subrange(0, names@.len() as int) =~= view_strings(names@));
        assert forall|k: int| 0 <= k < view_strings(names@).len() implies segments_well_formed(
            name_segments(#[trigger] view_strings(names@)[k]),
        ) by {
            assert(view_strings(names@)[k] == names@[k]@);
        }
        Ok(tree)
    }

    /// The names of the direct children, each once, in increasing order.
    pub fn sorted_keys(&self) -> (r: Vec<Vec<char>>)
        ensures
            view_segments(r@) == sorted_names(self.key_set()),
    {
        let mut out: Vec<Vec<char>> = Vec::new();
        let mut i: usize = 0;
        let ghost keys = self.children@.map_values(|c: (Vec<char>, Tree)| c.0@);
        assert(view_segments(out@).to_set() =~= keys.subrange(0, 0).to_set());
        while i < self.children.len()
            invariant
                i <= self.children@.len(),
                keys == self.children@.map_values(|c: (Vec<char>, Tree)| c.0@),
                strictly_sorted(view_segments(out@)),
                view_segments(out@).to_set() == keys.subrange(0, i as int).to_set(),
            decreases self.children@.len() - i,
        {
            let key = &self.children[i].0;
            let mut j: usize = 0;
            while j < out.len() && lex_less(&out[j], key)
                invariant
                    j <= out@.len(),
                    forall|m: int| 0 <= m < j ==> lex_lt(#[trigger] out@[m]@, key@),
                decreases out@.len() - j,
            {
                j = j + 1;
            }
            let ghost before = view_segments(out@);
            assert(keys[i as int] == key@);
            assert(keys.subrange(0, i + 1) =~= keys.subrange(0, i as int).push(key@));
            proof {
                keys.subrange(0, i as int).lemma_push_to_set_commute(key@);
            }
            assert(keys.subrange(0, i + 1).to_set() =~= keys.subrange(0, i as int).to_set().insert(
                key@,
            ));
            if j < out.len() && chars_equal(&out[j], key) {
                assert(before[j as int] == key@);
                assert(before.to_set().contains(key@));
                assert(before.to_set().insert(key@) =~= before.to_set());
            } else {
                proof {
                    if j < out.len() {
                        lemma_lex_trichotomy(out@[j as int]@, key@);
                    }
                    lemma_sorted_insert(before, j as int, key@);
                }
                out.insert(j, key.clone());
                assert(view_segments(out@) =~= before.insert(j as int, key@));
            }
            i = i + 1;
        }
        assert(keys.subrange(0, self.children@.len() as int) =~= keys);
        let ghost v = view_segments(out@);
        assert(strictly_sorted(v) && v.to_set() == self.key_set());
        let ghost w = sorted_names(self.key_set());
        assert(strictly_sorted(w) && w.to_set() == self.key_set());
        proof {
            lemma_sorted_unique(v, w);
        }
        out
    }

    /// The index file of this node: a fixed header, one `pub mod <name>;` line
    /// for each direct child in increasing order of name, and an empty line.
    /// It depends on the set of child names alone.
    pub fn generate_module(&self) -> (r: String)
        ensures
            r@ == index_of(self.key_set()),
    {
        let keys = self.sorted_keys();
        let mut module = String::from_str("// Module generated with `grpc_build`\n");
        let mut i: usize = 0;
        while i < keys.len()
            invariant
                i <= keys@.len(),
                module@ == index_header() + export_lines(view_segments(keys@).subrange(0, i as int)),
            decreases keys@.len() - i,
        {
            module.append("pub mod ");
            let name = string_of(&keys[i]);
            module.append(name.as_str());
            module.append(";\n");
            assert(view_segments(keys@).subrange(0, i + 1).drop_last() =~= view_segments(
                keys@,
            ).subrange(0, i as int));
            assert(module@ =~= index_header() + export_lines(view_segments(keys@).subrange(0, i + 1)));
            i = i + 1;
        }
        module.append("\n");
        assert(view_segments(keys@).subrange(0, keys@.len() as int) =~= view_segments(keys@));
        module
    }

    /// The children's names are the one-segment paths.
    pub proof fn lemma_key_set_is_top_paths(self)
        ensures
            forall|k: Seq<char>| #[trigger] self.key_set().contains(k) == self.has_path(seq![k]),
    {
        assert forall|k: Seq<char>| #[trigger] self.key_set().contains(k) == self.has_path(seq![k]) by {
            let keys = self.children@.map_values(|c: (Vec<char>, Tree)| c.0@);
            if self.key_set().contains(k) {
                let i = choose|i: int| 0 <= i < keys.len() && keys[i] == k;
                assert(self.children@[i].0@ == seq![k][0]);
            }
            if self.has_path(seq![k]) {
                let i = choose|i: int|
                    0 <= i < self.children@.len() && (#[trigger] self.children@[i]).0@ == seq![k][0]
                        && (seq![k].len() == 1 || self.children@[i].1.has_path(seq![k].drop_first()));
                assert(keys[i] == k);
            }
        }
    }

    /// Whether this node has no children.
    pub fn is_leaf(&self) -> (r: bool)
        ensures
            r == self.spec_is_leaf(),
    {
        self.children.len() == 0
    }

    /// The child named `name`, if there is one.
    pub fn get(&self, name: &str) -> (r: Option<&Tree>)
        requires
            self.wf(),
        ensures
            r is Some == self.key_set().contains(name@),
            match r {
                Some(t) => exists|i: int|
                    0 <= i < self.children@.len() && self.children@[i].0@ == name@
                        && self.children@[i].1 == *t,
                None => true,
            },
    {
        let key = chars_of(name);
        let ghost keys = self.children@.map_values(|c: (Vec<char>, Tree)| c.0@);
        match self.find_child(&key) {
            Some(i) => {
                assert(keys[i as int] == name@);
                Some(&self.children[i].1)
            },
            None => {
                assert forall|j: int| 0 <= j < keys.len() implies keys[j] != name@ by {
                    assert(keys[j] == self.children@[j].0@);
                }
                None
            },
        }
    }

    /// The names of the direct children, each once, in increasing order.
    pub fn child_names(&self) -> (r: Vec<String>)
        ensures
            view_strings(r@) == sorted_names(self.key_set()),
    {
        let keys = self.sorted_keys();
        let mut out: Vec<String> = Vec::new();
        let mut i: usize = 0;
        while i < keys.len()
            invariant
                i <= keys@.len(),
                view_strings(out@) == view_segments(keys@).subrange(0, i as int),
            decreases keys@.len() - i,
        {
            let name = string_of(&keys[i]);
            assert(name@ == view_segments(keys@)[i as int]);
            let ghost prev = out@;
            out.push(name);
            assert(out@ == prev.push(name));
            assert(view_strings(out@) =~= view_strings(prev).push(name@));
            assert(view_strings(out@) =~= view_segments(keys@).subrange(0, i + 1));
            i = i + 1;
        }
        assert(view_segments(keys@).subrange(0, keys@.len() as int) =~= view_segments(keys@));
        out
    }

    /// Children matched both ways, with the same paths below, give the same paths.
    proof fn lemma_same_paths_from_matching(a: Tree, b: Tree)
        requires
            a.wf(),
            b.wf(),
            forall|x: int| 0 <= x < a.children@.len() ==> #[trigger] matched_child(a, b, x),
            forall|y: int| 0 <= y < b.children@.len() ==> #[trigger] named_in(b, a, y),
        ensures
            a.paths() == b.paths(),
    {
        assert forall|p: Seq<Seq<char>>| #[trigger] a.has_path(p) == b.has_path(p) by {
            if a.has_path(p) {
                let x = choose|x: int|
                    0 <= x < a.children@.len() && (#[trigger] a.children@[x]).0@ == p[0] && (
                    p.len() == 1 || a.children@[x].1.has_path(p.drop_first()));
                assert(matched_child(a, b, x));
                let y = choose|y: int|
                    0 <= y < b.children@.len() && #[trigger] b.children@[y].0@
                        == a.children@[x].0@ && a.children@[x].1.paths()
                        == b.children@[y].1.paths();
                Tree::lemma_has_path_at(b, y, p);
                if p.len() > 1 {
                    assert(a.children@[x].1.paths().contains(p.drop_first()));
                }
            }
            if b.has_path(p) {
                let y = choose|y: int|
                    0 <= y < b.children@.len() && (#[trigger] b.children@[y]).0@ == p[0]
                        && (p.len() == 1 || b.children@[y].1.has_path(p.drop_first()));
                assert(named_in(b, a, y));
                let x = choose|x: int|
                    0 <= x < a.children@.len() && #[trigger] a.children@[x].0@
                        == b.children@[y].0@;
                assert(matched_child(a, b, x));
                let y2 = choose|y2: int|
                    0 <= y2 < b.children@.len() && #[trigger] b.children@[y2].0@
                        == a.children@[x].0@ && a.children@[x].1.paths()
                        == b.children@[y2].1.paths();
                assert(y2 == y);
                Tree::lemma_has_path_at(a, x, p);
                if p.len() > 1 {
                    assert(b.children@[y].1.paths().contains(p.drop_first()));
                }
            }
        }
        assert(a.paths() =~= b.paths());
    }

    /// Whether the two trees have the same nodes, whatever the order of
    /// their children; which nodes are marked as having a file of their own
    /// is not compared.
    pub fn same_paths(&self, other: &Tree) -> (r: bool)
        requires
            self.wf(),
            other.wf(),
        ensures
            r == (self.paths() == other.paths()),
        decreases self,
    {
        let mut i: usize = 0;
        while i < self.children.len()
            invariant
                self.wf(),
                other.wf(),
                i <= self.children@.len(),
                forall|a: int| 0 <= a < i ==> #[trigger] matched_child(*self, *other, a),
            decreases self.children@.len() - i,
        {
            let key = &self.children[i].0;
            match other.find_child(key) {
                None => {
                    proof {
                        let p = seq![key@];
                        Tree::lemma_has_path_at(*self, i as int, p);
                        Tree::lemma_has_path_absent(*other, p);
                        assert(self.paths().contains(p) && !other.paths().contains(p));
                    }
                    return false;
                },
                Some(j) => {
                    assert(self.children@[i as int].1.wf());
                    assert(other.children@[j as int].1.wf());
                    let same = self.children[i].1.same_paths(&other.children[j].1);
                    if same {
                        assert(matched_child(*self, *other, i as int));
                    }
                    if !same {
                        proof {
                            let a = self.children@[i as int].1;
                            let b = other.children@[j as int].1;
                            let q = if exists|q: Seq<Seq<char>>| a.has_path(q) && !b.has_path(q) {
                                choose|q: Seq<Seq<char>>| a.has_path(q) && !b.has_path(q)
                            } else {
                                assert(!(a.paths() =~= b.paths()));
                                choose|q: Seq<Seq<char>>| b.has_path(q) && !a.has_path(q)
                            };
                            let p = seq![key@] + q;
                            assert(p.drop_first() =~= q);
                            assert(q.len() > 0);
                            Tree::lemma_has_path_at(*self, i as int, p);
                            Tree::lemma_has_path_at(*other, j as int, p);
                            assert(self.paths().contains(p) != other.paths().contains(p));
                        }
                        return false;
                    }
                },
            }
            i = i + 1;
        }
        assert(i == self.children@.len());
        let mut j: usize = 0;
        while j < other.children.len()
            invariant
                self.wf(),
                other.wf(),
                j <= other.children@.len(),
                forall|a: int|
                    0 <= a < self.children@.len() ==> #[trigger] matched_child(*self, *other, a),
                forall|b: int| 0 <= b < j ==> #[trigger] named_in(*other, *self, b),
            decreases other.children@.len() - j,
        {
            let found = self.find_child(&other.children[j].0);
            if let Some(x) = found {
                assert(self.children@[x as int].0@ == other.children@[j as int].0@);
                assert(named_in(*other, *self, j as int));
            }
            if found.is_none() {
                proof {
                    let p = seq![other.children@[j as int].0@];
                    Tree::lemma_has_path_at(*other, j as int, p);
                    Tree::lemma_has_path_absent(*self, p);
                    assert(other.paths().contains(p) && !self.paths().contains(p));
                }
                return false;
            }
            j = j + 1;
        }
        proof {
            Tree::lemma_same_paths_from_matching(*self, *other);
        }
        true
    }

    /// This tree with `child` as the child named `name`, in place of any
    /// child of that name.
    pub fn with_child(self, name: &str, child: Tree) -> (r: Tree)
        requires
            self.wf(),
            child.wf(),
        ensures
            r.wf(),
            forall|p: Seq<Seq<char>>|
                #[trigger] r.has_path(p) == (p.len() > 0 && if p[0] == name@ {
                    p.len() == 1 || child.has_path(p.drop_first())
                } else {
                    self.has_path(p)
                }),
    {
        let key = chars_of(name);
        let mut t = self;
        let ghost old_t = t;
        match t.find_child(&key) {
            Some(i) => {
                t.children.remove(i);
                t.children.insert(i, (key, child));
                assert(t.children@ =~= old_t.children@.update(i as int, (key, child)));
                assert forall|p: Seq<Seq<char>>|
                    #[trigger] t.has_path(p) == (p.len() > 0 && if p[0] == name@ {
                        p.len() == 1 || child.has_path(p.drop_first())
                    } else {
                        old_t.has_path(p)
                    }) by {
                    if p.len() > 0 {
                        if p[0] == name@ {
                            Tree::lemma_has_path_at(t, i as int, p);
                        } else {
                            Tree::lemma_has_path_same_except(t, old_t, i as int, p);
                        }
                    }
                }
            },
            None => {
                t.children.push((key, child));
                let ghost last: int = t.children@.len() - 1;
                assert forall|p: Seq<Seq<char>>|
                    #[trigger] t.has_path(p) == (p.len() > 0 && if p[0] == name@ {
                        p.len() == 1 || child.has_path(p.drop_first())
                    } else {
                        old_t.has_path(p)
                    }) by {
                    if p.len() > 0 {
                        if p[0] == name@ {
                            Tree::lemma_has_path_at(t, last, p);
                            Tree::lemma_has_path_absent(old_t, p);
                        } else if old_t.has_path(p) {
                            let j = choose|j: int|
                                0 <= j < old_t.children@.len() && (#[trigger] old_t.children@[
                                    j]).0@ == p[0] && (p.len() == 1 || old_t.children@[j].1.has_path(
                                    p.drop_first()));
                            assert(t.children@[j] == old_t.children@[j]);
                        } else if t.has_path(p) {
                            let j = choose|j: int|
                                0 <= j < t.children@.len() && (#[trigger] t.children@[j]).0@
                                    == p[0] && (p.len() == 1 || t.children@[j].1.has_path(
                                    p.drop_first()));
                            assert(t.children@[j] == old_t.children@[j]);
                        }
                    }
                }
            },
        }
        t
    }
}

} // verus!
