//! Planning the relocation of flat generated files into nested directories.
//!
//! The plan is a list of file operations; it is computed from the tree alone
//! and carried out by the caller, in order, against the output directory.
use vstd::prelude::*;

use vstd::utf8::encode_utf8;

use crate::index::index_of;
use crate::error::Error;
use crate::segment::{
    chars_equal, chars_of, extension_of, has_extension, split_chars, split_on, string_of,
    view_segments,
};
use crate::layout::{free_of, lemma_name_paths_ok, lemma_tree_ok_from_paths, segments_ok, tree_ok};
use crate::tree::{files_of_names, paths_of_names, some_malformed, view_strings};
use crate::tree::Tree;

verus! {

/// One file operation of a relocation plan, over paths relative to the output
/// directory.
#[derive(Debug)]
pub enum FileOp {
    /// Create the parent directory of `to` if it is missing, then move the
    /// file `from` to `to`.
    Move { from: String, to: String },
    /// Write `contents` to the file `path`, replacing what is there.
    Write { path: String, contents: String },
    /// Append the bytes of the file `from` to the file `to`, then remove
    /// `from`. `from` and `to` must name different files.
    Merge { from: String, to: String },
}

/// The mathematical content of a `FileOp`.
pub enum Step {
    Move(Seq<char>, Seq<char>),
    Write(Seq<char>, Seq<char>),
    Merge(Seq<char>, Seq<char>),
}

impl View for FileOp {
    type V = Step;

    open spec fn view(&self) -> Step {
        match self {
            FileOp::Move { from, to } => Step::Move(from@, to@),
            FileOp::Write { path, contents } => Step::Write(path@, contents@),
            FileOp::Merge { from, to } => Step::Merge(from@, to@),
        }
    }
}

/// The steps of a list of operations.
pub open spec fn view_ops(ops: Seq<FileOp>) -> Seq<Step> {
    ops.map_values(|o: FileOp| o@)
}

/// The segments joined with `sep` between each two.
pub open spec fn join(segs: Seq<Seq<char>>, sep: char) -> Seq<char>
    decreases segs.len(),
{
    if segs.len() == 0 {
        Seq::empty()
    } else if segs.len() == 1 {
        segs[0]
    } else {
        join(segs.drop_last(), sep) + seq![sep] + segs.last()
    }
}

/// Where the compiler left the file of namespace `p`: `a.b.c.<ext>`.
pub open spec fn flat_path(p: Seq<Seq<char>>, ext: Seq<char>) -> Seq<char> {
    join(p, '.') + seq!['.'] + ext
}

/// Where the file of namespace `p` belongs: `a/b/c.<ext>`.
pub open spec fn nested_path(p: Seq<Seq<char>>, ext: Seq<char>) -> Seq<char> {
    join(p, '/') + seq!['.'] + ext
}

/// The scratch file in which the index of namespace `p` is assembled.
pub open spec fn scratch_path(p: Seq<Seq<char>>, ext: Seq<char>) -> Seq<char> {
    join(p, '/') + ".tmp."@ + ext
}

/// The steps that write the index of the non-leaf node `t` at `p`. Where the
/// namespace has a generated file of its own (a dual-role node), the index
/// text goes to a scratch file, the namespace's flat file is appended to it,
/// and the result takes the nested place; otherwise the index is written to
/// the nested place directly.
pub open spec fn index_steps(t: Tree, p: Seq<Seq<char>>, ext: Seq<char>) -> Seq<Step> {
    if t.has_file {
        seq![
            Step::Write(scratch_path(p, ext), index_of(t.key_set())),
            Step::Merge(flat_path(p, ext), scratch_path(p, ext)),
            Step::Move(scratch_path(p, ext), nested_path(p, ext)),
        ]
    } else {
        seq![Step::Write(nested_path(p, ext), index_of(t.key_set()))]
    }
}

/// The steps that relocate the node `t` at path `p` and everything below it:
/// a leaf is moved; a non-leaf has its children relocated first, in order,
/// and then its index written.
pub open spec fn node_plan(t: Tree, p: Seq<Seq<char>>, ext: Seq<char>) -> Seq<Step>
    decreases t, t.children@.len() + 1,
{
    if t.children@.len() == 0 {
        seq![Step::Move(flat_path(p, ext), nested_path(p, ext))]
    } else {
        children_plan(t, p, ext, 0) + index_steps(t, p, ext)
    }
}

/// The steps of the children of `t` from the `i`-th on, each child's in turn.
pub open spec fn children_plan(t: Tree, p: Seq<Seq<char>>, ext: Seq<char>, i: int) -> Seq<Step>
    decreases t, t.children@.len() - i,
{
    if i < 0 || i >= t.children@.len() {
        Seq::empty()
    } else {
        node_plan(t.children@[i].1, p.push(t.children@[i].0@), ext) + children_plan(
            t,
            p,
            ext,
            i + 1,
        )
    }
}

/// The whole relocation of a tree: every top-level node in turn, then the
/// top-level index written under `index_name`.
pub open spec fn relocation_plan(t: Tree, ext: Seq<char>, index_name: Seq<char>) -> Seq<Step> {
    children_plan(t, Seq::empty(), ext, 0) + seq![Step::Write(index_name, index_of(t.key_set()))]
}

/// A directory's files: relative path to contents.
pub type Files = Map<Seq<char>, Seq<u8>>;

/// The directory after one step, or `None` where the step fails (a missing
/// file, or a merge of a file into itself).
pub open spec fn apply_step(fs: Files, s: Step) -> Option<Files> {
    match s {
        Step::Move(from, to) => if fs.contains_key(from) {
            Some(fs.remove(from).insert(to, fs[from]))
        } else {
            None
        },
        Step::Write(path, text) => Some(fs.insert(path, encode_utf8(text))),
        Step::Merge(from, to) => if from == to || !fs.contains_key(from) || !fs.contains_key(to) {
            None
        } else {
            Some(fs.remove(from).insert(to, fs[to] + fs[from]))
        },
    }
}

/// The directory after the steps in order, or `None` where one fails.
pub open spec fn apply_steps(fs: Files, steps: Seq<Step>) -> Option<Files>
    decreases steps.len(),
{
    if steps.len() == 0 {
        Some(fs)
    } else {
        match apply_step(fs, steps[0]) {
            Some(next) => apply_steps(next, steps.drop_first()),
            None => None,
        }
    }
}

proof fn lemma_join_len(p: Seq<Seq<char>>, a: char, b: char)
    ensures
        join(p, a).len() == join(p, b).len(),
    decreases p.len(),
{
    if p.len() > 1 {
        lemma_join_len(p.drop_last(), a, b);
    }
}

/// A non-leaf node's steps end with its index steps, after those of all its
/// children. Once its children are in place, and where the node is
/// dual-role its flat file is present, the index steps succeed and leave at
/// the node's nested place the index text, followed directly by the bytes of
/// the flat file for a dual-role node; that flat file and the scratch file
/// are gone, and no other path changes.
pub proof fn lemma_index_merged(t: Tree, p: Seq<Seq<char>>, ext: Seq<char>, fs: Files)
    requires
        !t.spec_is_leaf(),
        t.has_file ==> fs.contains_key(flat_path(p, ext)),
    ensures
        node_plan(t, p, ext) == children_plan(t, p, ext, 0) + index_steps(t, p, ext),
        ({
            let flat = flat_path(p, ext);
            let nested = nested_path(p, ext);
            let scratch = scratch_path(p, ext);
            let index = encode_utf8(index_of(t.key_set()));
            let after = apply_steps(fs, index_steps(t, p, ext));
            &&& after is Some
            &&& after->0.contains_key(nested)
            &&& t.has_file ==> after->0[nested] == index + fs[flat]
            &&& !t.has_file ==> after->0[nested] == index
            &&& t.has_file && flat != nested ==> !after->0.contains_key(flat)
            &&& t.has_file ==> !after->0.contains_key(scratch)
            &&& forall|x: Seq<char>|
                x != nested && (t.has_file ==> x != flat && x != scratch) ==> (
                #[trigger] after->0.contains_key(x) == fs.contains_key(x) && (fs.contains_key(x)
                    ==> after->0[x] == fs[x]))
        }),
{
    let flat = flat_path(p, ext);
    let nested = nested_path(p, ext);
    let scratch = scratch_path(p, ext);
    let index = encode_utf8(index_of(t.key_set()));
    let steps = index_steps(t, p, ext);
    if t.has_file {
        lemma_join_len(p, '.', '/');
        assert(".tmp."@.len() == 5) by {
            reveal_strlit(".tmp.");
        }
        assert(flat.len() != scratch.len());
        assert(nested.len() != scratch.len());
        let fs1 = fs.insert(scratch, index);
        assert(apply_step(fs, steps[0]) == Some(fs1));
        let fs2 = fs1.remove(flat).insert(scratch, index + fs[flat]);
        assert(fs1[scratch] == index);
        assert(apply_step(fs1, steps[1]) == Some(fs2));
        let fs3 = fs2.remove(scratch).insert(nested, fs2[scratch]);
        assert(apply_step(fs2, steps[2]) == Some(fs3));
        let s3 = steps.drop_first().drop_first();
        assert(s3[0] == steps[2]);
        assert(s3.drop_first().len() == 0);
        assert(apply_steps(fs3, s3.drop_first()) == Some(fs3));
        assert(apply_steps(fs2, s3) == Some(fs3));
        assert(steps.drop_first()[0] == steps[1]);
        assert(apply_steps(fs1, steps.drop_first()) == Some(fs3));
    } else {
        let fs1 = fs.insert(nested, index);
        assert(apply_step(fs, steps[0]) == Some(fs1));
        assert(steps.drop_first().len() == 0);
        assert(apply_steps(fs1, steps.drop_first()) == Some(fs1));
    }
}

/// Appends the characters of `s` to `r`.
fn push_all(r: &mut Vec<char>, s: &Vec<char>)
    ensures
        final(r)@ == old(r)@ + s@,
{
    let ghost start = r@;
    let mut i: usize = 0;
    while i < s.len()
        invariant
            i <= s@.len(),
            r@ == start + s@.subrange(0, i as int),
        decreases s@.len() - i,
    {
        r.push(s[i]);
        assert(s@.subrange(0, i + 1) =~= s@.subrange(0, i as int).push(s@[i as int]));
        i = i + 1;
    }
    assert(s@.subrange(0, s@.len() as int) =~= s@);
}

/// The segments of `p` joined with `sep`, followed by `suffix`.
fn joined_path(p: &Vec<Vec<char>>, sep: char, suffix: &Vec<char>) -> (r: String)
    ensures
        r@ == join(view_segments(p@), sep) + suffix@,
{
    let mut out: Vec<char> = Vec::new();
    let mut i: usize = 0;
    assert(view_segments(p@).subrange(0, 0) =~= Seq::<Seq<char>>::empty());
    while i < p.len()
        invariant
            i <= p@.len(),
            out@ == join(view_segments(p@).subrange(0, i as int), sep),
        decreases p@.len() - i,
    {
        let ghost segs = view_segments(p@).subrange(0, i + 1);
        assert(segs.drop_last() =~= view_segments(p@).subrange(0, i as int));
        if i > 0 {
            out.push(sep);
        }
        push_all(&mut out, &p[i]);
        if i == 0 {
            assert(out@ =~= segs[0]);
        } else {
            assert(out@ =~= join(segs.drop_last(), sep) + seq![sep] + segs.last());
        }
        i = i + 1;
    }
    assert(view_segments(p@).subrange(0, p@.len() as int) =~= view_segments(p@));
    push_all(&mut out, suffix);
    string_of(&out)
}

impl Tree {
    /// Appends to `out` the relocation steps of this node, found at path `p`.
    fn plan_node(&self, p: &mut Vec<Vec<char>>, ext: &Vec<char>, out: &mut Vec<FileOp>)
        ensures
            final(p)@ == old(p)@,
            view_ops(final(out)@) == view_ops(old(out)@) + node_plan(
                *self,
                view_segments(old(p)@),
                ext@,
            ),
        decreases self, self.children@.len() + 1,
    {
        let ghost start = view_ops(out@);
        let ghost path = view_segments(p@);
        let mut dot_ext: Vec<char> = Vec::new();
        dot_ext.push('.');
        push_all(&mut dot_ext, ext);
        assert(dot_ext@ =~= seq!['.'] + ext@);
        if self.children.len() == 0 {
            let from = joined_path(p, '.', &dot_ext);
            let to = joined_path(p, '/', &dot_ext);
            assert(from@ =~= flat_path(path, ext@));
            assert(to@ =~= nested_path(path, ext@));
            let op = FileOp::Move { from, to };
            assert(op@ == Step::Move(flat_path(path, ext@), nested_path(path, ext@)));
            assert(node_plan(*self, path, ext@) == seq![op@]);
            let ghost prev = out@;
            out.push(op);
            assert(view_ops(out@) =~= view_ops(prev).push(op@));
            assert(view_ops(out@) =~= start + node_plan(*self, path, ext@));
        } else {
            self.plan_children(p, ext, out, 0);
            let ghost mid = view_ops(out@);
            let contents = self.generate_module();
            if self.has_file {
                let mut tmp_ext: Vec<char> = Vec::new();
                tmp_ext.push('.');
                tmp_ext.push('t');
                tmp_ext.push('m');
                tmp_ext.push('p');
                tmp_ext.push('.');
                push_all(&mut tmp_ext, ext);
                assert(tmp_ext@ =~= ".tmp."@ + ext@) by {
                    reveal_strlit(".tmp.");
                }
                let scratch = joined_path(p, '/', &tmp_ext);
                assert(scratch@ =~= scratch_path(path, ext@));
                let op1 = FileOp::Write { path: scratch, contents };
                let ghost prev1 = out@;
                out.push(op1);
                assert(view_ops(out@) =~= view_ops(prev1).push(op1@));
                let flat = joined_path(p, '.', &dot_ext);
                let scratch = joined_path(p, '/', &tmp_ext);
                assert(flat@ =~= flat_path(path, ext@));
                assert(scratch@ =~= scratch_path(path, ext@));
                let op2 = FileOp::Merge { from: flat, to: scratch };
                let ghost prev2 = out@;
                out.push(op2);
                assert(view_ops(out@) =~= view_ops(prev2).push(op2@));
                let scratch = joined_path(p, '/', &tmp_ext);
                let nested = joined_path(p, '/', &dot_ext);
                assert(scratch@ =~= scratch_path(path, ext@));
                assert(nested@ =~= nested_path(path, ext@));
                let op3 = FileOp::Move { from: scratch, to: nested };
                let ghost prev3 = out@;
                out.push(op3);
                assert(view_ops(out@) =~= view_ops(prev3).push(op3@));
                assert(op1@ == index_steps(*self, path, ext@)[0]);
                assert(op2@ == index_steps(*self, path, ext@)[1]);
                assert(op3@ == index_steps(*self, path, ext@)[2]);
            } else {
                let nested = joined_path(p, '/', &dot_ext);
                assert(nested@ =~= nested_path(path, ext@));
                let op = FileOp::Write { path: nested, contents };
                let ghost prev = out@;
                out.push(op);
                assert(view_ops(out@) =~= view_ops(prev).push(op@));
                assert(op@ == index_steps(*self, path, ext@)[0]);
            }
            assert(view_ops(out@) =~= mid + index_steps(*self, path, ext@));
        }
    }

    /// Appends to `out` the relocation steps of the children from the `i`-th on.
    fn plan_children(&self, p: &mut Vec<Vec<char>>, ext: &Vec<char>, out: &mut Vec<FileOp>, i: usize)
        requires
            i <= self.children@.len(),
        ensures
            final(p)@ == old(p)@,
            view_ops(final(out)@) == view_ops(old(out)@) + children_plan(
                *self,
                view_segments(old(p)@),
                ext@,
                i as int,
            ),
        decreases self, self.children@.len() - i,
    {
        let ghost start = view_ops(out@);
        let ghost path = view_segments(p@);
        if i >= self.children.len() {
            assert(view_ops(out@) =~= start + children_plan(*self, path, ext@, i as int));
            return;
        }
        let child = &self.children[i];
        p.push(child.0.clone());
        assert(view_segments(p@) =~= path.push(self.children@[i as int].0@));
        child.1.plan_node(p, ext, out);
        p.pop();
        assert(p@ =~= old(p)@);
        self.plan_children(p, ext, out, i + 1);
        assert(view_ops(out@) =~= start + children_plan(*self, path, ext@, i as int));
    }

    /// The operations that relocate the flat files of this tree's namespaces
    /// (named `a.b.c.<ext>` in the output directory) to nested directories
    /// (`a/b/c.<ext>`), write an index file for every namespace that has
    /// sub-namespaces (keeping the namespace's own file after the index
    /// lines), and write the top-level index under `index_name`. Deeper
    /// namespaces come before shallower ones.
    pub fn plan_relocation(&self, ext: &str, index_name: &str) -> (r: Vec<FileOp>)
        ensures
            view_ops(r@) == relocation_plan(*self, ext@, index_name@),
    {
        let ext_chars = chars_of(ext);
        let mut p: Vec<Vec<char>> = Vec::new();
        let mut out: Vec<FileOp> = Vec::new();
        self.plan_children(&mut p, &ext_chars, &mut out, 0);
        assert(view_segments(Seq::<Vec<char>>::empty()) =~= Seq::<Seq<char>>::empty());
        let ghost mid = view_ops(out@);
        let contents = self.generate_module();
        let op = FileOp::Write { path: index_name.to_owned(), contents };
        let ghost prev = out@;
        out.push(op);
        assert(view_ops(out@) =~= view_ops(prev).push(op@));
        assert(view_ops(out@) =~= mid + seq![Step::Write(index_name@, index_of(self.key_set()))]);
        out
    }
}

/// The components of path `p`: its pieces between slashes, without empty
/// pieces (repeated or trailing slashes) and without `.` pieces.
pub open spec fn path_components(p: Seq<char>) -> Seq<Seq<char>> {
    split_on(p, '/').filter(|c: Seq<char>| c.len() > 0 && c != seq!['.'])
}

/// Path `p` starts at the root directory.
pub open spec fn is_absolute(p: Seq<char>) -> bool {
    p.len() > 0 && p[0] == '/'
}

/// The two paths name the same file once `.` components and repeated
/// slashes are set aside (`d/./f.rs` and `d//f.rs` are `d/f.rs`).
pub open spec fn same_location(a: Seq<char>, b: Seq<char>) -> bool {
    is_absolute(a) == is_absolute(b) && path_components(a) == path_components(b)
}

/// The components of path `p`, as `path_components` gives them.
pub fn components_of(p: &str) -> (r: Vec<Vec<char>>)
    ensures
        view_segments(r@) == path_components(p@),
{
    let ghost pred = |c: Seq<char>| c.len() > 0 && c != seq!['.'];
    let chars = chars_of(p);
    let parts = split_chars(&chars, '/');
    let ghost all = view_segments(parts@);
    assert(all =~= split_on(p@, '/'));
    let mut out: Vec<Vec<char>> = Vec::new();
    let mut i: usize = 0;
    assert(all.subrange(0, 0).filter(pred) =~= Seq::<Seq<char>>::empty());
    while i < parts.len()
        invariant
            i <= parts@.len(),
            all == view_segments(parts@),
            pred == (|c: Seq<char>| c.len() > 0 && c != seq!['.']),
            view_segments(out@) == all.subrange(0, i as int).filter(pred),
        decreases parts@.len() - i,
    {
        assert(all.subrange(0, i + 1) =~= all.subrange(0, i as int).push(all[i as int]));
        proof {
            all.subrange(0, i as int).lemma_filter_push(all[i as int], pred);
        }
        let piece = &parts[i];
        let dot = piece.len() == 1 && piece[0] == '.';
        if dot {
            assert(piece@ =~= seq!['.']);
        }
        if piece.len() > 0 && !dot {
            let ghost prev = out@;
            out.push(piece.clone());
            assert(view_segments(out@) =~= view_segments(prev).push(all[i as int]));
        }
        i = i + 1;
    }
    assert(all.subrange(0, parts@.len() as int) =~= all);
    out
}

/// Whether two lists of components are equal.
fn components_equal(a: &Vec<Vec<char>>, b: &Vec<Vec<char>>) -> (r: bool)
    ensures
        r == (view_segments(a@) == view_segments(b@)),
{
    if a.len() != b.len() {
        assert(view_segments(a@).len() != view_segments(b@).len());
        return false;
    }
    let mut i: usize = 0;
    while i < a.len()
        invariant
            a@.len() == b@.len(),
            i <= a@.len(),
            forall|k: int| 0 <= k < i ==> (#[trigger] a@[k])@ == b@[k]@,
        decreases a@.len() - i,
    {
        if !chars_equal(&a[i], &b[i]) {
            assert(view_segments(a@)[i as int] != view_segments(b@)[i as int]);
            return false;
        }
        i = i + 1;
    }
    assert(view_segments(a@) =~= view_segments(b@));
    true
}

/// Refuses to merge a file into itself: where `from` and `to` name the same
/// file once `.` components and repeated slashes are set aside. Symbolic
/// links and `..` are not followed here: a caller that can reach the
/// filesystem canonicalises both paths first.
pub fn check_merge(from: &str, to: &str) -> (r: Result<(), Error>)
    ensures
        r is Ok == !same_location(from@, to@),
        match r {
            Ok(_) => true,
            Err(Error::SelfMerge { path }) => path@ == from@,
            Err(_) => false,
        },
{
    let a = chars_of(from);
    let b = chars_of(to);
    let abs_a = a.len() > 0 && a[0] == '/';
    let abs_b = b.len() > 0 && b[0] == '/';
    let ca = components_of(from);
    let cb = components_of(to);
    if abs_a == abs_b && components_equal(&ca, &cb) {
        Err(Error::SelfMerge { path: from.to_owned() })
    } else {
        Ok(())
    }
}

/// A file of the flat output that stands for a namespace: it has extension
/// `ext` and is not the top-level index `index_name`.
pub open spec fn is_namespace_file(name: Seq<char>, ext: Seq<char>, index_name: Seq<char>) -> bool {
    extension_of(name) == Some(ext) && name != index_name
}

/// The names of `names` that stand for namespaces, in the order given.
pub fn select_namespace_files(names: &Vec<String>, ext: &str, index_name: &str) -> (r: Vec<String>)
    ensures
        view_strings(r@) == view_strings(names@).filter(
            |n: Seq<char>| is_namespace_file(n, ext@, index_name@),
        ),
{
    let ghost pred = |n: Seq<char>| is_namespace_file(n, ext@, index_name@);
    let index_chars = chars_of(index_name);
    let mut out: Vec<String> = Vec::new();
    let mut i: usize = 0;
    assert(view_strings(names@).subrange(0, 0).filter(pred) =~= Seq::<Seq<char>>::empty());
    while i < names.len()
        invariant
            i <= names@.len(),
            index_chars@ == index_name@,
            pred == (|n: Seq<char>| is_namespace_file(n, ext@, index_name@)),
            view_strings(out@) == view_strings(names@).subrange(0, i as int).filter(pred),
        decreases names@.len() - i,
    {
        let ghost all = view_strings(names@);
        assert(all.subrange(0, i + 1) =~= all.subrange(0, i as int).push(all[i as int]));
        proof {
            all.subrange(0, i as int).lemma_filter_push(all[i as int], pred);
        }
        let name_chars = chars_of(names[i].as_str());
        let keep = has_extension(names[i].as_str(), ext) && !chars_equal(&name_chars, &index_chars);
        if keep {
            let ghost prev = out@;
            out.push(names[i].clone());
            assert(view_strings(out@) =~= view_strings(prev).push(names@[i as int]@));
        }
        i = i + 1;
    }
    assert(view_strings(names@).subrange(0, names@.len() as int) =~= view_strings(names@));
    out
}

/// The relocation of a flat output directory whose files are named `names`:
/// the namespace files among them (extension `ext`, other than `index_name`)
/// make the tree, whose relocation plan is returned. Refused where a
/// namespace file name has an empty segment.
pub fn plan_refactor(names: &Vec<String>, ext: &str, index_name: &str) -> (r: Result<
    Vec<FileOp>,
    Error,
>)
    ensures
        ({
            let selected = view_strings(names@).filter(
                |n: Seq<char>| is_namespace_file(n, ext@, index_name@),
            );
            &&& r is Ok == !some_malformed(selected)
            &&& r is Ok ==> exists|t: Tree|
                {
                    &&& t.wf()
                    &&& t.paths() == paths_of_names(selected)
                    &&& t.files() == files_of_names(selected)
                    &&& view_ops(r->Ok_0@) == relocation_plan(t, ext@, index_name@)
                    &&& (forall|i: int|
                        0 <= i < selected.len() ==> free_of(#[trigger] selected[i], '/'))
                        ==> tree_ok(t)
                }
        }),
{
    let selected = select_namespace_files(names, ext, index_name);
    let tree = Tree::from_names(&selected)?;
    let ghost sel = view_strings(selected@);
    proof {
        if forall|i: int| 0 <= i < sel.len() ==> free_of(#[trigger] sel[i], '/') {
            assert forall|p: Seq<Seq<char>>| #[trigger] tree.has_path(p) implies segments_ok(p) by {
                assert(tree.paths().contains(p));
                lemma_name_paths_ok(sel, p);
            }
            lemma_tree_ok_from_paths(tree);
        }
    }
    let ops = tree.plan_relocation(ext, index_name);
    Ok(ops)
}

} // verus!
