//! The rendered directory tree.  A flat list of collected paths is
//! rebuilt into a nested `Directory` value whose children are sorted
//! by name, and the tree is printed depth first with box-drawing
//! connectors: within one directory all files come before all
//! subdirectories, the final child of the combined list gets the
//! closing connector, and children of a node inherit its indent plus
//! one four-character unit.

use crate::fs_model::FileEntry;
use vstd::multiset::Multiset;
use crate::fs_model::lemma_comps_view_push;
use crate::order::lex_le;
use crate::order::lex_lt;
use crate::pattern::comps_view;
use vstd::prelude::*;

verus! {

broadcast use vstd::std_specs::vec::axiom_vec_index_decreases;

/// One directory of the rendered tree: its display name, the names of
/// its files, and its subdirectories, both lists sorted by name.
pub struct Directory {
    pub name: String,
    pub files: Vec<String>,
    pub subdirectories: Vec<Directory>,
}

pub open spec fn files_view(d: Directory) -> Seq<Seq<char>> {
    comps_view(d.files@)
}

pub open spec fn subdir_names(d: Directory) -> Seq<Seq<char>> {
    d.subdirectories@.map_values(|s: Directory| s.name@)
}

/// Weakly sorted: duplicate file names stay side by side and both are
/// printed, a recorded quirk of duplicate entries.
pub open spec fn sorted_le(s: Seq<Seq<char>>) -> bool {
    forall|i: int, j: int| 0 <= i < j < s.len() ==> lex_le(s[i], s[j])
}

/// Strictly sorted: subdirectory names never repeat.
pub open spec fn sorted_lt(s: Seq<Seq<char>>) -> bool {
    forall|i: int, j: int| 0 <= i < j < s.len() ==> lex_lt(s[i], s[j])
}

/// The connector that opens a printed line: the closing elbow for the
/// last child of a directory, the tee for every other child.
pub open spec fn connector(is_last: bool) -> Seq<char> {
    if is_last {
        "└── "@
    } else {
        "├── "@
    }
}

/// The indent unit a child inherits: blank below a last sibling, a
/// continuation bar below any other.
pub open spec fn indent_unit(is_last: bool) -> Seq<char> {
    if is_last {
        "    "@
    } else {
        "│   "@
    }
}

pub open spec fn newline() -> Seq<char> {
    "\n"@
}

/// The lines for the files of `d` from index `i` on.  A file is the
/// last child only when it is the final file and no subdirectory
/// follows it.
pub open spec fn render_file_lines(d: Directory, i: int, indent: Seq<char>) -> Seq<char>
    decreases d.files@.len() - i,
{
    if i < 0 || i >= d.files@.len() {
        Seq::empty()
    } else {
        let is_last = d.subdirectories@.len() == 0 && i == d.files@.len() - 1;
        indent + connector(is_last) + d.files@[i]@ + newline() + render_file_lines(
            d,
            i + 1,
            indent,
        )
    }
}

/// The lines for the subdirectories of `d` from index `k` on; the
/// final subdirectory is always the last child of the combined list.
pub open spec fn render_subdir_lines(d: Directory, k: int, indent: Seq<char>) -> Seq<char>
    decreases d, d.subdirectories@.len() - k,
{
    if k < 0 || k >= d.subdirectories@.len() {
        Seq::empty()
    } else {
        let is_last = k == d.subdirectories@.len() - 1;
        render_node(d.subdirectories@[k], indent, is_last, false) + render_subdir_lines(
            d,
            k + 1,
            indent,
        )
    }
}

/// The full rendering of one node: its own line (omitted for the
/// synthetic root, whose children keep the root's indent), then its
/// files, then its subdirectories.
pub open spec fn render_node(d: Directory, indent: Seq<char>, is_last: bool, is_root: bool) -> Seq<
    char,
>
    decreases d, d.subdirectories@.len() + 1,
{
    let own = if is_root {
        Seq::empty()
    } else {
        indent + connector(is_last) + d.name@ + newline()
    };
    let child_indent = if is_root {
        indent
    } else {
        indent + indent_unit(is_last)
    };
    own + render_file_lines(d, 0, child_indent) + render_subdir_lines(d, 0, child_indent)
}

impl Directory {
    /// A fresh directory with no children.
    pub fn new(name: String) -> (d: Directory)
        ensures
            d.name == name,
            d.files@ =~= Seq::<String>::empty(),
            d.subdirectories@ =~= Seq::<Directory>::empty(),
    {
        Directory { name, files: Vec::new(), subdirectories: Vec::new() }
    }

    /// Appends a file name as the directory's final child file.
    pub fn add_file(&mut self, file: String)
        ensures
            final(self).name == old(self).name,
            final(self).files@ == old(self).files@.push(file),
            final(self).subdirectories == old(self).subdirectories,
    {
        self.files.push(file);
    }
}

/// Renders one node and everything below it.  The caller of the root
/// passes an empty indent and marks it both last and root; the root
/// itself prints no line.
pub fn directory_tree_to_string(
    directory: &Directory,
    indent: &str,
    is_last: bool,
    is_root: bool,
) -> (r: String)
    ensures
        r@ == render_node(*directory, indent@, is_last, is_root),
    decreases *directory,
{
    let ghost own = if is_root {
        Seq::<char>::empty()
    } else {
        indent@ + connector(is_last) + directory.name@ + newline()
    };
    let ghost ci = if is_root {
        indent@
    } else {
        indent@ + indent_unit(is_last)
    };
    let mut tree = String::new();
    if !is_root {
        tree.append(indent);
        if is_last {
            tree.append("└── ");
        } else {
            tree.append("├── ");
        }
        tree.append(directory.name.as_str());
        tree.append("\n");
    }
    proof {
        assert(tree@ =~= own);
    }
    let mut child_indent = String::from_str(indent);
    if !is_root {
        if is_last {
            child_indent.append("    ");
        } else {
            child_indent.append("│   ");
        }
    }
    proof {
        assert(child_indent@ =~= ci);
        assert(tree@ + render_file_lines(*directory, 0, ci) =~= own + render_file_lines(
            *directory,
            0,
            ci,
        ));
    }
    let mut i: usize = 0;
    while i < directory.files.len()
        invariant
            i <= directory.files@.len(),
            child_indent@ == ci,
            tree@ + render_file_lines(*directory, i as int, ci) == own + render_file_lines(
                *directory,
                0,
                ci,
            ),
        decreases directory.files@.len() - i,
    {
        let ghost before = tree@;
        let is_last_file = directory.subdirectories.len() == 0 && i + 1 == directory.files.len();
        tree.append(child_indent.as_str());
        if is_last_file {
            tree.append("└── ");
        } else {
            tree.append("├── ");
        }
        tree.append(directory.files[i].as_str());
        tree.append("\n");
        proof {
            let line = ci + connector(is_last_file) + directory.files@[i as int]@ + newline();
            assert(tree@ =~= before + line);
            assert(render_file_lines(*directory, i as int, ci) == line + render_file_lines(
                *directory,
                i + 1,
                ci,
            ));
            assert((before + line) + render_file_lines(*directory, i + 1, ci) =~= before + (line
                + render_file_lines(*directory, i + 1, ci)));
        }
        i = i + 1;
    }
    proof {
        assert(render_file_lines(*directory, directory.files@.len() as int, ci)
            =~= Seq::<char>::empty());
        assert(tree@ + render_file_lines(*directory, directory.files@.len() as int, ci)
            =~= tree@);
    }
    let ghost after_files = tree@;
    let mut k: usize = 0;
    while k < directory.subdirectories.len()
        invariant
            k <= directory.subdirectories@.len(),
            child_indent@ == ci,
            after_files == own + render_file_lines(*directory, 0, ci),
            tree@ + render_subdir_lines(*directory, k as int, ci) == after_files
                + render_subdir_lines(*directory, 0, ci),
        decreases directory.subdirectories@.len() - k,
    {
        let ghost before = tree@;
        let is_last_sub = k + 1 == directory.subdirectories.len();
        let sub = directory_tree_to_string(
            &directory.subdirectories[k],
            child_indent.as_str(),
            is_last_sub,
            false,
        );
        tree.append(sub.as_str());
        proof {
            let block = render_node(directory.subdirectories@[k as int], ci, is_last_sub, false);
            assert(tree@ =~= before + block);
            assert(render_subdir_lines(*directory, k as int, ci) == block + render_subdir_lines(
                *directory,
                k + 1,
                ci,
            ));
            assert((before + block) + render_subdir_lines(*directory, k + 1, ci) =~= before + (
            block + render_subdir_lines(*directory, k + 1, ci)));
        }
        k = k + 1;
    }
    proof {
        assert(render_subdir_lines(*directory, directory.subdirectories@.len() as int, ci)
            =~= Seq::<char>::empty());
        assert(tree@ + render_subdir_lines(
            *directory,
            directory.subdirectories@.len() as int,
            ci,
        ) =~= tree@);
        assert(tree@ =~= own + render_file_lines(*directory, 0, ci) + render_subdir_lines(
            *directory,
            0,
            ci,
        ));
    }
    tree
}

/// A path made relative to the project root: the root components are
/// stripped when they are a prefix, and the path is kept whole when
/// they are not.
pub open spec fn rel_view(p: Seq<Seq<char>>, root: Seq<Seq<char>>) -> Seq<Seq<char>> {
    if root.len() <= p.len() && p.subrange(0, root.len() as int) == root {
        p.skip(root.len() as int)
    } else {
        p
    }
}

/// Copies the components of `path` from `start` on.
fn copy_tail(path: &Vec<String>, start: usize) -> (r: Vec<String>)
    requires
        start <= path@.len(),
    ensures
        comps_view(r@) == comps_view(path@).skip(start as int),
{
    let mut r: Vec<String> = Vec::new();
    let mut i: usize = start;
    proof {
        assert(comps_view(r@) =~= comps_view(path@).subrange(start as int, start as int));
    }
    while i < path.len()
        invariant
            start <= i <= path@.len(),
            comps_view(r@) == comps_view(path@).subrange(start as int, i as int),
        decreases path@.len() - i,
    {
        let ghost old_r = r@;
        r.push(path[i].clone());
        proof {
            lemma_comps_view_push(old_r, path@[i as int]);
            assert(comps_view(path@).subrange(start as int, i + 1) =~= comps_view(path@).subrange(
                start as int,
                i as int,
            ).push(comps_view(path@)[i as int]));
        }
        i = i + 1;
    }
    proof {
        assert(comps_view(path@).subrange(start as int, path@.len() as int) =~= comps_view(
            path@,
        ).skip(start as int));
    }
    r
}

/// Strips `root` from the front of `path` when it is a prefix; returns
/// the path unchanged otherwise.
pub fn relative_to(path: &Vec<String>, root: &Vec<String>) -> (r: Vec<String>)
    ensures
        comps_view(r@) == rel_view(comps_view(path@), comps_view(root@)),
{
    let ghost pv = comps_view(path@);
    let ghost rv = comps_view(root@);
    if root.len() <= path.len() {
        let mut i: usize = 0;
        let mut is_prefix = true;
        proof {
            assert(pv.subrange(0, 0) =~= rv.subrange(0, 0));
        }
        while i < root.len()
            invariant
                root@.len() <= path@.len(),
                i <= root@.len(),
                pv == comps_view(path@),
                rv == comps_view(root@),
                is_prefix == (pv.subrange(0, i as int) == rv.subrange(0, i as int)),
            decreases root@.len() - i,
        {
            let same = crate::order::str_eq(path[i].as_str(), root[i].as_str());
            proof {
                assert(pv.subrange(0, i as int).push(pv[i as int]) =~= pv.subrange(0, i + 1));
                assert(rv.subrange(0, i as int).push(rv[i as int]) =~= rv.subrange(0, i + 1));
                assert(pv[i as int] == path@[i as int]@);
                assert(rv[i as int] == root@[i as int]@);
                if is_prefix && same {
                    assert(pv.subrange(0, i + 1) =~= rv.subrange(0, i + 1));
                }
                if pv.subrange(0, i + 1) == rv.subrange(0, i + 1) {
                    assert(pv.subrange(0, i as int) =~= pv.subrange(0, i + 1).subrange(
                        0,
                        i as int,
                    ));
                    assert(rv.subrange(0, i as int) =~= rv.subrange(0, i + 1).subrange(
                        0,
                        i as int,
                    ));
                    assert(pv[i as int] == pv.subrange(0, i + 1)[i as int]);
                    assert(rv[i as int] == rv.subrange(0, i + 1)[i as int]);
                }
            }
            is_prefix = is_prefix && same;
            i = i + 1;
        }
        proof {
            assert(rv.subrange(0, rv.len() as int) =~= rv);
        }
        if is_prefix {
            let r = copy_tail(path, root.len());
            return r;
        }
        let r = copy_tail(path, 0);
        proof {
            assert(comps_view(r@) =~= pv);
        }
        return r;
    }
    let r = copy_tail(path, 0);
    proof {
        assert(comps_view(r@) =~= pv);
    }
    r
}

} // verus!

verus! {

/// The file names among the given relative paths that lie directly in
/// this directory: the single-component paths, in arrival order.
pub open spec fn leaf_names(es: Seq<Seq<Seq<char>>>) -> Seq<Seq<char>>
    decreases es.len(),
{
    if es.len() == 0 {
        Seq::empty()
    } else {
        let rest = leaf_names(es.drop_last());
        if es.last().len() == 1 {
            rest.push(es.last()[0])
        } else {
            rest
        }
    }
}

/// The paths that continue below the subdirectory named `n`, with that
/// first component removed, in arrival order.
pub open spec fn child_paths(es: Seq<Seq<Seq<char>>>, n: Seq<char>) -> Seq<Seq<Seq<char>>>
    decreases es.len(),
{
    if es.len() == 0 {
        Seq::empty()
    } else {
        let rest = child_paths(es.drop_last(), n);
        if es.last().len() >= 2 && es.last()[0] == n {
            rest.push(es.last().drop_first())
        } else {
            rest
        }
    }
}

/// The names of the subdirectories the given paths call for.
pub open spec fn dir_name_set(es: Seq<Seq<Seq<char>>>) -> Set<Seq<char>> {
    Set::new(|n: Seq<char>| exists|j: int| 0 <= j < es.len() && es[j].len() >= 2 && es[j][0] == n)
}

/// The tree a list of relative paths builds, characterised without
/// regard to the order the paths arrived in: file names sorted with
/// duplicates kept, subdirectory names sorted and unique, exactly the
/// called-for subdirectories present, and each subdirectory built from
/// the paths below it.
pub open spec fn represents(d: Directory, es: Seq<Seq<Seq<char>>>) -> bool
    decreases d,
{
    &&& sorted_le(files_view(d))
    &&& files_view(d).to_multiset() == leaf_names(es).to_multiset()
    &&& sorted_lt(subdir_names(d))
    &&& subdir_names(d).to_set() == dir_name_set(es)
    &&& forall|k: int|
        0 <= k < d.subdirectories@.len() ==> represents(
            #[trigger] d.subdirectories@[k],
            child_paths(es, d.subdirectories@[k].name@),
        )
}

proof fn lemma_leaf_names_push(es: Seq<Seq<Seq<char>>>, q: Seq<Seq<char>>)
    ensures
        q.len() == 1 ==> leaf_names(es.push(q)) == leaf_names(es).push(q[0]),
        q.len() != 1 ==> leaf_names(es.push(q)) == leaf_names(es),
{
    assert(es.push(q).drop_last() =~= es);
    assert(es.push(q).last() == q);
}

proof fn lemma_child_paths_push(es: Seq<Seq<Seq<char>>>, q: Seq<Seq<char>>, n: Seq<char>)
    ensures
        (q.len() >= 2 && q[0] == n) ==> child_paths(es.push(q), n) == child_paths(es, n).push(
            q.drop_first(),
        ),
        !(q.len() >= 2 && q[0] == n) ==> child_paths(es.push(q), n) == child_paths(es, n),
{
    assert(es.push(q).drop_last() =~= es);
    assert(es.push(q).last() == q);
}

proof fn lemma_dir_name_set_push(es: Seq<Seq<Seq<char>>>, q: Seq<Seq<char>>)
    ensures
        q.len() >= 2 ==> dir_name_set(es.push(q)) == dir_name_set(es).insert(q[0]),
        q.len() < 2 ==> dir_name_set(es.push(q)) == dir_name_set(es),
{
    if q.len() >= 2 {
        assert(dir_name_set(es.push(q)) =~= dir_name_set(es).insert(q[0])) by {
            assert forall|n: Seq<char>| dir_name_set(es.push(q)).contains(n) implies dir_name_set(
                es,
            ).insert(q[0]).contains(n) by {
                let j = choose|j: int|
                    0 <= j < es.push(q).len() && es.push(q)[j].len() >= 2 && es.push(q)[j][0] == n;
                if j < es.len() {
                    assert(es.push(q)[j] == es[j]);
                    assert(dir_name_set(es).contains(n));
                } else {
                    assert(es.push(q)[j] == q);
                }
            }
            assert forall|n: Seq<char>| dir_name_set(es).insert(q[0]).contains(n)
                implies dir_name_set(es.push(q)).contains(n) by {
                if dir_name_set(es).contains(n) {
                    let j = choose|j: int| 0 <= j < es.len() && es[j].len() >= 2 && es[j][0] == n;
                    assert(es.push(q)[j] == es[j]);
                } else {
                    assert(n == q[0]);
                    assert(es.push(q)[es.len() as int] == q);
                }
            }
        }
    } else {
        assert(dir_name_set(es.push(q)) =~= dir_name_set(es)) by {
            assert forall|n: Seq<char>| dir_name_set(es.push(q)).contains(n) implies dir_name_set(
                es,
            ).contains(n) by {
                let j = choose|j: int|
                    0 <= j < es.push(q).len() && es.push(q)[j].len() >= 2 && es.push(q)[j][0] == n;
                assert(j < es.len());
                assert(es.push(q)[j] == es[j]);
            }
            assert forall|n: Seq<char>| dir_name_set(es).contains(n) implies dir_name_set(
                es.push(q),
            ).contains(n) by {
                let j = choose|j: int| 0 <= j < es.len() && es[j].len() >= 2 && es[j][0] == n;
                assert(es.push(q)[j] == es[j]);
            }
        }
    }
}

/// Paths that call for no subdirectory named `n` leave it no children.
proof fn lemma_child_paths_absent(es: Seq<Seq<Seq<char>>>, n: Seq<char>)
    requires
        !dir_name_set(es).contains(n),
    ensures
        child_paths(es, n) == Seq::<Seq<Seq<char>>>::empty(),
    decreases es.len(),
{
    if es.len() > 0 {
        assert(!dir_name_set(es.drop_last()).contains(n)) by {
            if dir_name_set(es.drop_last()).contains(n) {
                let j = choose|j: int|
                    0 <= j < es.drop_last().len() && es.drop_last()[j].len() >= 2
                        && es.drop_last()[j][0] == n;
                assert(es.drop_last()[j] == es[j]);
                assert(dir_name_set(es).contains(n));
            }
        }
        lemma_child_paths_absent(es.drop_last(), n);
        if es.last().len() >= 2 && es.last()[0] == n {
            assert(es[es.len() - 1] == es.last());
            assert(dir_name_set(es).contains(n));
        }
    }
}

proof fn lemma_insert_to_multiset(t: Seq<Seq<char>>, j: int, x: Seq<char>)
    requires
        0 <= j <= t.len(),
    ensures
        t.insert(j, x).to_multiset() == t.to_multiset().insert(x),
{
    let a = t.subrange(0, j);
    let b = t.subrange(j, t.len() as int);
    assert(t =~= a + b);
    vstd::seq_lib::lemma_multiset_commutative(a.push(x), b);
    vstd::seq_lib::lemma_multiset_commutative(a, b);
    a.to_multiset_ensures();
    assert(t.insert(j, x) == a.push(x) + b);
    assert(t.insert(j, x).to_multiset() =~= t.to_multiset().insert(x));
}

proof fn lemma_sorted_insert_le(v: Seq<Seq<char>>, j: int, x: Seq<char>)
    requires
        sorted_le(v),
        0 <= j <= v.len(),
        forall|k: int| 0 <= k < j ==> !lex_lt(x, #[trigger] v[k]),
        j < v.len() ==> lex_lt(x, v[j]),
    ensures
        sorted_le(v.insert(j, x)),
{
    v.insert_ensures(j, x);
    let w = v.insert(j, x);
    assert forall|a: int, b: int| 0 <= a < b < w.len() implies lex_le(w[a], w[b]) by {
        if a < j && b < j {
        } else if a < j && b == j {
            crate::order::lemma_lex_total(x, v[a]);
        } else if a < j && b > j {
        } else if a == j && b > j {
            if j < v.len() && !(x == v[b - 1]) {
                if b - 1 > j {
                    crate::order::lemma_lex_transitive_le(x, v[j], v[b - 1]);
                }
            }
        } else {
        }
    }
}

proof fn lemma_sorted_insert_lt(v: Seq<Seq<char>>, j: int, x: Seq<char>)
    requires
        sorted_lt(v),
        0 <= j <= v.len(),
        forall|k: int| 0 <= k < j ==> lex_lt(#[trigger] v[k], x),
        j < v.len() ==> lex_lt(x, v[j]),
    ensures
        sorted_lt(v.insert(j, x)),
{
    v.insert_ensures(j, x);
    let w = v.insert(j, x);
    assert forall|a: int, b: int| 0 <= a < b < w.len() implies lex_lt(w[a], w[b]) by {
        if a < j && b == j {
        } else if a == j && b > j {
            if b - 1 > j {
                crate::order::lemma_lex_transitive(x, v[j], v[b - 1]);
            }
        }
    }
}

} // verus!

verus! {

proof fn lemma_to_set_insert(v: Seq<Seq<char>>, j: int, x: Seq<char>)
    requires
        0 <= j <= v.len(),
    ensures
        v.insert(j, x).to_set() == v.to_set().insert(x),
{
    v.insert_ensures(j, x);
    let w = v.insert(j, x);
    assert(w.to_set() =~= v.to_set().insert(x)) by {
        assert forall|y: Seq<char>| w.to_set().contains(y) implies v.to_set().insert(x).contains(
            y,
        ) by {
            let idx = choose|idx: int| 0 <= idx < w.len() && w[idx] == y;
            if idx < j {
                assert(v[idx] == y);
                assert(v.contains(y));
            } else if idx == j {
            } else {
                assert(v[idx - 1] == y);
                assert(v.contains(y));
            }
        }
        assert forall|y: Seq<char>| v.to_set().insert(x).contains(y) implies w.to_set().contains(
            y,
        ) by {
            if y == x {
                assert(w[j] == x);
                assert(w.contains(y));
            } else {
                let idx = choose|idx: int| 0 <= idx < v.len() && v[idx] == y;
                if idx < j {
                    assert(w[idx] == y);
                } else {
                    assert(w[idx + 1] == y);
                }
                assert(w.contains(y));
            }
        }
    }
}

/// Inserts a file name into a weakly sorted list, after any equal
/// names, so that both copies of a duplicate stay and order is kept.
fn insert_file_sorted(files: &mut Vec<String>, name: String)
    requires
        sorted_le(comps_view(old(files)@)),
    ensures
        sorted_le(comps_view(final(files)@)),
        comps_view(final(files)@).to_multiset() == comps_view(old(files)@).to_multiset().insert(
            name@,
        ),
{
    let ghost vold = comps_view(old(files)@);
    let mut j: usize = 0;
    while j < files.len() && !crate::order::str_lt(name.as_str(), files[j].as_str())
        invariant
            j <= files@.len(),
            files@ == old(files)@,
            vold == comps_view(old(files)@),
            sorted_le(vold),
            forall|k: int| 0 <= k < j ==> !lex_lt(name@, #[trigger] vold[k]),
        decreases files@.len() - j,
    {
        proof {
            assert(vold[j as int] == files@[j as int]@);
        }
        j = j + 1;
    }
    proof {
        if j < files@.len() {
            assert(vold[j as int] == files@[j as int]@);
        }
    }
    files.insert(j, name);
    proof {
        old(files)@.insert_ensures(j as int, name);
        vold.insert_ensures(j as int, name@);
        assert(comps_view(files@) =~= vold.insert(j as int, name@)) by {
            assert forall|k: int|
                #![trigger comps_view(files@)[k]]
                0 <= k < files@.len() implies comps_view(files@)[k] == vold.insert(
                j as int,
                name@,
            )[k] by {
                assert(comps_view(files@)[k] == files@[k]@);
                if k < j {
                    assert(files@[k] == old(files)@[k]);
                    assert(vold[k] == old(files)@[k]@);
                } else if k == j {
                } else {
                    assert(files@[k] == old(files)@[k - 1]);
                    assert(vold[k - 1] == old(files)@[k - 1]@);
                }
            }
        }
        lemma_insert_to_multiset(vold, j as int, name@);
        lemma_sorted_insert_le(vold, j as int, name@);
    }
}

/// Finds where `name` stands (or belongs) in the sorted subdirectory
/// list: the index of the first name not below it, and whether that
/// name is already present.
fn subdir_position(dir: &Directory, name: &String) -> (r: (usize, bool))
    requires
        sorted_lt(subdir_names(*dir)),
    ensures
        r.0 <= dir.subdirectories@.len(),
        forall|k: int| 0 <= k < r.0 ==> lex_lt(#[trigger] subdir_names(*dir)[k], name@),
        r.1 ==> r.0 < dir.subdirectories@.len() && subdir_names(*dir)[r.0 as int] == name@,
        !r.1 ==> (r.0 == dir.subdirectories@.len() || lex_lt(
            name@,
            subdir_names(*dir)[r.0 as int],
        )),
        !r.1 ==> forall|k: int|
            0 <= k < dir.subdirectories@.len() ==> #[trigger] subdir_names(*dir)[k] != name@,
{
    let ghost names = subdir_names(*dir);
    let mut j: usize = 0;
    while j < dir.subdirectories.len() && crate::order::str_lt(
        dir.subdirectories[j].name.as_str(),
        name.as_str(),
    )
        invariant
            j <= dir.subdirectories@.len(),
            names == subdir_names(*dir),
            sorted_lt(names),
            forall|k: int| 0 <= k < j ==> lex_lt(#[trigger] names[k], name@),
        decreases dir.subdirectories@.len() - j,
    {
        proof {
            assert(names[j as int] == dir.subdirectories@[j as int].name@);
        }
        j = j + 1;
    }
    let found = if j < dir.subdirectories.len() {
        crate::order::str_eq(dir.subdirectories[j].name.as_str(), name.as_str())
    } else {
        false
    };
    proof {
        if j < dir.subdirectories@.len() {
            assert(names[j as int] == dir.subdirectories@[j as int].name@);
            if !found {
                crate::order::lemma_lex_total(names[j as int], name@);
            }
        }
        if !found {
            assert forall|k: int| 0 <= k < dir.subdirectories@.len() implies #[trigger] names[k]
                != name@ by {
                crate::order::lemma_lex_irreflexive(name@);
                if k < j {
                } else if k == j {
                } else if j < dir.subdirectories@.len() {
                    crate::order::lemma_lex_transitive(name@, names[j as int], names[k]);
                }
            }
        }
    }
    (j, found)
}

/// Inserts the path's components from index `i` on into the tree,
/// creating the missing directories along the way, keeping every
/// child list sorted, and extending what the tree stands for by that
/// one path.
fn insert_entry(
    dir: &mut Directory,
    path: &Vec<String>,
    i: usize,
    Ghost(es): Ghost<Seq<Seq<Seq<char>>>>,
)
    requires
        i < path@.len(),
        represents(*old(dir), es),
    ensures
        final(dir).name == old(dir).name,
        represents(*final(dir), es.push(comps_view(path@).skip(i as int))),
    decreases path@.len() - i,
{
    let ghost q = comps_view(path@).skip(i as int);
    let plen = path.len();
    proof {
        assert(q.len() == path@.len() - i);
        assert(q[0] == comps_view(path@)[i as int]);
        assert(comps_view(path@)[i as int] == path@[i as int]@);
    }
    if i + 1 == plen {
        insert_file_sorted(&mut dir.files, path[i].clone());
        proof {
            assert(q.len() == 1);
            lemma_leaf_names_push(es, q);
            leaf_names(es).to_multiset_ensures();
            assert(files_view(*dir).to_multiset() == leaf_names(es.push(q)).to_multiset());
            lemma_dir_name_set_push(es, q);
            assert forall|k: int| 0 <= k < dir.subdirectories@.len() implies represents(
                #[trigger] dir.subdirectories@[k],
                child_paths(es.push(q), dir.subdirectories@[k].name@),
            ) by {
                lemma_child_paths_push(es, q, dir.subdirectories@[k].name@);
            }
            assert(represents(*dir, es.push(q)));
        }
    } else {
        let ghost n = path@[i as int]@;
        let ghost names0 = subdir_names(*old(dir));
        let ghost subs0 = old(dir).subdirectories@;
        let (j, found) = subdir_position(dir, &path[i]);
        if !found {
            let fresh = Directory::new(path[i].clone());
            proof {
                assert(files_view(fresh) =~= Seq::<Seq<char>>::empty());
                assert(subdir_names(fresh) =~= Seq::<Seq<char>>::empty());
                assert(leaf_names(Seq::<Seq<Seq<char>>>::empty()) == Seq::<Seq<char>>::empty());
                assert(files_view(fresh).to_multiset() == leaf_names(
                    Seq::<Seq<Seq<char>>>::empty(),
                ).to_multiset());
                assert(subdir_names(fresh).to_set() =~= dir_name_set(
                    Seq::<Seq<Seq<char>>>::empty(),
                )) by {
                    assert forall|y: Seq<char>| !subdir_names(fresh).to_set().contains(y) by {
                        if subdir_names(fresh).contains(y) {
                            let idx = choose|idx: int|
                                0 <= idx < subdir_names(fresh).len() && subdir_names(fresh)[idx]
                                    == y;
                        }
                    }
                    assert forall|y: Seq<char>| !dir_name_set(
                        Seq::<Seq<Seq<char>>>::empty(),
                    ).contains(y) by {}
                }
                assert(represents(fresh, Seq::<Seq<Seq<char>>>::empty()));
                lemma_child_paths_absent(es, n);
                assert(represents(fresh, child_paths(es, n)));
            }
            dir.subdirectories.insert(j, fresh);
            proof {
                subs0.insert_ensures(j as int, fresh);
                names0.insert_ensures(j as int, n);
                assert(subdir_names(*dir) =~= names0.insert(j as int, n)) by {
                    assert forall|k: int|
                        #![trigger subdir_names(*dir)[k]]
                        0 <= k < dir.subdirectories@.len() implies subdir_names(*dir)[k]
                        == names0.insert(j as int, n)[k] by {
                        assert(subdir_names(*dir)[k] == dir.subdirectories@[k].name@);
                        if k < j {
                            assert(dir.subdirectories@[k] == subs0[k]);
                            assert(names0[k] == subs0[k].name@);
                        } else if k == j {
                        } else {
                            assert(dir.subdirectories@[k] == subs0[k - 1]);
                            assert(names0[k - 1] == subs0[k - 1].name@);
                        }
                    }
                }
                lemma_sorted_insert_lt(names0, j as int, n);
            }
        }
        let ghost subs1 = dir.subdirectories@;
        let ghost names1 = subdir_names(*dir);
        proof {
            if found {
                assert(subs1 == subs0);
                assert(names1 == names0);
            }
            assert(subs1[j as int].name@ == n);
            assert(represents(subs1[j as int], child_paths(es, n))) by {
                if found {
                    assert(represents(subs0[j as int], child_paths(es, subs0[j as int].name@)));
                }
            }
        }
        let mut sub = dir.subdirectories.remove(j);
        proof {
            assert(sub == subs1[j as int]);
        }
        insert_entry(&mut sub, path, i + 1, Ghost(child_paths(es, n)));
        proof {
            assert(comps_view(path@).skip(i + 1) =~= q.drop_first());
            lemma_child_paths_push(es, q, n);
            assert(represents(sub, child_paths(es.push(q), n)));
            assert(sub.name@ == n);
        }
        dir.subdirectories.insert(j, sub);
        let ghost subf = dir.subdirectories@;
        proof {
            let ghost mid = subs1.remove(j as int);
            subs1.remove_ensures(j as int);
            mid.insert_ensures(j as int, sub);
            assert(subf == mid.insert(j as int, sub));
            assert(subf.len() == subs1.len());
            assert forall|k: int| 0 <= k < subf.len() && k != j implies #[trigger] subf[k]
                == subs1[k] by {
                if k < j {
                    assert(subf[k] == mid[k]);
                    assert(mid[k] == subs1[k]);
                } else {
                    assert(subf[k] == mid[k - 1]);
                    assert(mid[k - 1] == subs1[k]);
                }
            }
            assert(subf[j as int] == sub);
            assert(subdir_names(*dir) =~= names1) by {
                assert forall|k: int|
                    #![trigger subdir_names(*dir)[k]]
                    0 <= k < subf.len() implies subdir_names(*dir)[k] == names1[k] by {
                    assert(subdir_names(*dir)[k] == subf[k].name@);
                    assert(names1[k] == subs1[k].name@);
                    if k != j {
                        assert(subf[k] == subs1[k]);
                    }
                }
            }
            // the set of names now on the tree
            lemma_dir_name_set_push(es, q);
            assert(names1.to_set() == dir_name_set(es.push(q))) by {
                if found {
                    assert(names0.to_set() == dir_name_set(es));
                    assert(names0[j as int] == n);
                    assert(names0.contains(n));
                    assert(names0.to_set().contains(n));
                    assert(dir_name_set(es).insert(n) =~= dir_name_set(es));
                } else {
                    assert(names1 == names0.insert(j as int, n));
                    lemma_to_set_insert(names0, j as int, n);
                }
            }
            // every child still stands for its share of the paths
            assert forall|k: int| 0 <= k < subf.len() implies represents(
                #[trigger] subf[k],
                child_paths(es.push(q), subf[k].name@),
            ) by {
                if k == j {
                } else {
                    let nk = subf[k].name@;
                    assert(subf[k] == subs1[k]);
                    assert(nk == names1[k]);
                    assert(nk != n) by {
                        crate::order::lemma_lex_irreflexive(n);
                        if found {
                            if k < j {
                                assert(lex_lt(names1[k], names1[j as int]));
                            } else {
                                assert(lex_lt(names1[j as int], names1[k]));
                            }
                        } else {
                            names0.insert_ensures(j as int, n);
                            if k < j {
                                assert(names1[k] == names0[k]);
                                assert(subdir_names(*old(dir))[k] != n);
                            } else {
                                assert(names1[k] == names0[k - 1]);
                                assert(subdir_names(*old(dir))[k - 1] != n);
                            }
                        }
                    }
                    lemma_child_paths_push(es, q, nk);
                    assert(represents(subs1[k], child_paths(es, nk))) by {
                        if found {
                            assert(represents(subs0[k], child_paths(es, subs0[k].name@)));
                        } else {
                            subs0.insert_ensures(j as int, subs1[j as int]);
                            if k < j {
                                assert(subs1[k] == subs0[k]);
                                assert(represents(subs0[k], child_paths(es, subs0[k].name@)));
                            } else {
                                assert(subs1[k] == subs0[k - 1]);
                                assert(represents(
                                    subs0[k - 1],
                                    child_paths(es, subs0[k - 1].name@),
                                ));
                            }
                        }
                    }
                }
            }
            // files untouched by the directory branch
            lemma_leaf_names_push(es, q);
            assert(files_view(*dir).to_multiset() == leaf_names(es.push(q)).to_multiset());
            assert(represents(*dir, es.push(q)));
        }
    }
}

} // verus!

verus! {

/// The relative paths a list of collected entries contributes to the
/// tree: each path relativised against the project root, entries that
/// relativise to nothing dropped.
pub open spec fn spec_rel_paths(es: Seq<FileEntry>, root: Seq<Seq<char>>) -> Seq<Seq<Seq<char>>>
    decreases es.len(),
{
    if es.len() == 0 {
        Seq::empty()
    } else {
        let rest = spec_rel_paths(es.drop_last(), root);
        let q = rel_view(crate::fs_model::entry_view(es.last()).0, root);
        if q.len() > 0 {
            rest.push(q)
        } else {
            rest
        }
    }
}

/// Builds the directory tree of all collected entries: each path is
/// made relative to the project root and threaded into the tree.  The
/// result stands for exactly those paths, whatever order they arrived
/// in: files sorted (duplicates kept), subdirectories sorted and
/// deduplicated by name, each subtree built from the paths below it.
pub fn build_directory_tree(files: &Vec<FileEntry>, project_root: &Vec<String>) -> (root:
    Directory)
    ensures
        represents(root, spec_rel_paths(files@, comps_view(project_root@))),
        root.name@ == Seq::<char>::empty(),
{
    let ghost rootv = comps_view(project_root@);
    let mut root = Directory::new(String::new());
    proof {
        assert(files_view(root) =~= Seq::<Seq<char>>::empty());
        assert(subdir_names(root) =~= Seq::<Seq<char>>::empty());
        assert(leaf_names(Seq::<Seq<Seq<char>>>::empty()) == Seq::<Seq<char>>::empty());
        assert(subdir_names(root).to_set() =~= dir_name_set(Seq::<Seq<Seq<char>>>::empty())) by {
            assert forall|y: Seq<char>| !subdir_names(root).to_set().contains(y) by {
                if subdir_names(root).contains(y) {
                    let idx = choose|idx: int|
                        0 <= idx < subdir_names(root).len() && subdir_names(root)[idx] == y;
                }
            }
        }
        assert(represents(root, Seq::<Seq<Seq<char>>>::empty()));
        assert(files@.take(0) =~= Seq::<FileEntry>::empty());
    }
    let mut i: usize = 0;
    while i < files.len()
        invariant
            i <= files@.len(),
            rootv == comps_view(project_root@),
            root.name@ == Seq::<char>::empty(),
            represents(root, spec_rel_paths(files@.take(i as int), rootv)),
        decreases files@.len() - i,
    {
        let rel = relative_to(&files[i].path, project_root);
        proof {
            assert(files@.take(i + 1).drop_last() =~= files@.take(i as int));
            assert(files@.take(i + 1).last() == files@[i as int]);
        }
        if rel.len() > 0 {
            proof {
                assert(comps_view(rel@).len() == rel@.len());
            }
            insert_entry(&mut root, &rel, 0, Ghost(spec_rel_paths(files@.take(i as int), rootv)));
            proof {
                assert(comps_view(rel@).skip(0) =~= comps_view(rel@));
                assert(spec_rel_paths(files@.take(i + 1), rootv) == spec_rel_paths(
                    files@.take(i as int),
                    rootv,
                ).push(comps_view(rel@)));
            }
        } else {
            proof {
                assert(comps_view(rel@).len() == rel@.len());
                assert(spec_rel_paths(files@.take(i + 1), rootv) == spec_rel_paths(
                    files@.take(i as int),
                    rootv,
                ));
            }
        }
        i = i + 1;
    }
    proof {
        assert(files@.take(files@.len() as int) =~= files@);
    }
    root
}

/// Builds and renders the whole tree block for a project: the root
/// carries the project's name but prints no line of its own; the
/// returned text is the rendering of some tree that stands for the
/// collected paths.
pub fn generate_tree(project_name: &str, files: &Vec<FileEntry>, project_root: &Vec<String>) -> (r:
    String)
    ensures
        exists|d: Directory|
            {
                &&& represents(d, spec_rel_paths(files@, comps_view(project_root@)))
                &&& d.name@ == project_name@
                &&& r@ == render_node(d, Seq::<char>::empty(), true, true)
            },
{
    let mut root = build_directory_tree(files, project_root);
    root.name = String::from_str(project_name);
    proof {
        let es = spec_rel_paths(files@, comps_view(project_root@));
        assert(represents(root, es));
    }
    let t = directory_tree_to_string(&root, "", true, true);
    proof {
        reveal_strlit("");
        assert(""@ =~= Seq::<char>::empty());
        let ghost d0 = root;
        assert(represents(d0, spec_rel_paths(files@, comps_view(project_root@))) && d0.name@
            == project_name@ && t@ == render_node(d0, Seq::<char>::empty(), true, true));
    }
    t
}

} // verus!

verus! {

/// The number of children one directory prints: its files plus its
/// subdirectories.
pub open spec fn child_count(d: Directory) -> int {
    d.files@.len() + d.subdirectories@.len() as int
}

/// The connector the renderer chooses for the i-th child of a
/// directory, counting files first and subdirectories after them,
/// exactly as the lines are printed.
pub open spec fn child_connector(d: Directory, i: int) -> Seq<char> {
    if i < d.files@.len() {
        connector(d.subdirectories@.len() == 0 && i == d.files@.len() - 1)
    } else {
        connector(i - d.files@.len() == d.subdirectories@.len() - 1)
    }
}

/// Within any directory level, exactly one printed line carries the
/// closing connector and every other carries the tee: the i-th of the
/// combined children gets the closing connector precisely when it is
/// the final one, and one connector is printed per child.
pub proof fn lemma_one_closing_connector(d: Directory, i: int)
    requires
        0 <= i < child_count(d),
    ensures
        child_connector(d, i) == connector(true) <==> i == child_count(d) - 1,
        child_connector(d, i) == connector(true) || child_connector(d, i) == connector(false),
{
    reveal_strlit("└── ");
    reveal_strlit("├── ");
    assert(connector(true) != connector(false)) by {
        assert(connector(true)[0] != connector(false)[0]);
    }
}

/// An indent made of whole four-character units, each one of the two
/// the renderer hands down.
pub open spec fn is_indent_units(s: Seq<char>) -> bool {
    &&& s.len() % 4 == 0
    &&& forall|b: int|
        0 <= b && 4 * b + 4 <= s.len() ==> (#[trigger] s.subrange(4 * b, 4 * b + 4) == indent_unit(
            true,
        ) || s.subrange(4 * b, 4 * b + 4) == indent_unit(false))
}

/// Indentation deepens by exactly one four-character unit per level,
/// and every unit of a child's indent is either the blank unit or the
/// bar unit, chosen by an ancestor's last-sibling status: the indent
/// the renderer hands a non-root node's children is the node's own
/// indent with one such unit appended.
pub proof fn lemma_child_indent_units(indent: Seq<char>, is_last: bool)
    requires
        is_indent_units(indent),
    ensures
        is_indent_units(indent + indent_unit(is_last)),
        (indent + indent_unit(is_last)).len() == indent.len() + 4,
{
    reveal_strlit("    ");
    reveal_strlit("│   ");
    let w = indent + indent_unit(is_last);
    assert(indent_unit(is_last).len() == 4);
    assert forall|b: int| 0 <= b && 4 * b + 4 <= w.len() implies (#[trigger] w.subrange(
        4 * b,
        4 * b + 4,
    ) == indent_unit(true) || w.subrange(4 * b, 4 * b + 4) == indent_unit(false)) by {
        if 4 * b + 4 <= indent.len() {
            assert(w.subrange(4 * b, 4 * b + 4) =~= indent.subrange(4 * b, 4 * b + 4));
        } else {
            assert(4 * b == indent.len()) by (nonlinear_arith)
                requires
                    is_indent_units(indent),
                    indent.len() % 4 == 0,
                    4 * b + 4 <= w.len(),
                    w.len() == indent.len() + 4,
                    4 * b + 4 > indent.len(),
                    b >= 0,
            ;
            assert(w.subrange(4 * b, 4 * b + 4) =~= indent_unit(is_last));
        }
    }
}

/// The root's children are rendered with the empty indent, which is
/// made of zero units; so by induction every line's indent is made of
/// one unit per ancestor below the root.
pub proof fn lemma_root_indent_units()
    ensures
        is_indent_units(Seq::<char>::empty()),
{
}

} // verus!

verus! {

/// How often a file name occurs among the leaves is how often its
/// one-component path occurs among the paths.
proof fn lemma_leaf_names_count(es: Seq<Seq<Seq<char>>>, c: Seq<char>)
    ensures
        leaf_names(es).to_multiset().count(c) == es.to_multiset().count(seq![c]),
    decreases es.len(),
{
    broadcast use vstd::seq_lib::group_seq_properties;

    if es.len() == 0 {
        assert(leaf_names(es).to_multiset() =~= Multiset::<Seq<char>>::empty());
        assert(es.to_multiset() =~= Multiset::<Seq<Seq<char>>>::empty());
    } else {
        lemma_leaf_names_count(es.drop_last(), c);
        assert(es =~= es.drop_last().push(es.last()));
        assert(es.drop_last().push(es.last()).to_multiset() =~= es.drop_last().to_multiset().insert(
            es.last(),
        ));
        if es.last().len() == 1 {
            assert(leaf_names(es) == leaf_names(es.drop_last()).push(es.last()[0]));
            assert(leaf_names(es).to_multiset() =~= leaf_names(es.drop_last()).to_multiset().insert(
                es.last()[0],
            ));
            if es.last() == seq![c] {
                assert(es.last()[0] == c);
            } else {
                if es.last()[0] == c {
                    assert(es.last() =~= seq![c]);
                }
            }
        } else {
            assert(es.last() != seq![c]);
        }
    }
}

/// How often a path occurs below a subdirectory is how often it occurs
/// among the paths with that subdirectory's name prepended.
proof fn lemma_child_paths_count(es: Seq<Seq<Seq<char>>>, n: Seq<char>, x: Seq<Seq<char>>)
    ensures
        x.len() >= 1 ==> child_paths(es, n).to_multiset().count(x) == es.to_multiset().count(
            seq![n] + x,
        ),
        x.len() == 0 ==> child_paths(es, n).to_multiset().count(x) == 0,
    decreases es.len(),
{
    broadcast use vstd::seq_lib::group_seq_properties;

    if es.len() == 0 {
        assert(child_paths(es, n).to_multiset() =~= Multiset::<Seq<Seq<char>>>::empty());
        assert(es.to_multiset() =~= Multiset::<Seq<Seq<char>>>::empty());
    } else {
        lemma_child_paths_count(es.drop_last(), n, x);
        assert(es =~= es.drop_last().push(es.last()));
        assert(es.drop_last().push(es.last()).to_multiset() =~= es.drop_last().to_multiset().insert(
            es.last(),
        ));
        let q = es.last();
        if q.len() >= 2 && q[0] == n {
            assert(child_paths(es, n) == child_paths(es.drop_last(), n).push(q.drop_first()));
            assert(child_paths(es, n).to_multiset() =~= child_paths(
                es.drop_last(),
                n,
            ).to_multiset().insert(q.drop_first()));
            assert(q.drop_first().len() >= 1);
            if q.drop_first() == x {
                assert(q =~= seq![n] + x);
            } else {
                if q == seq![n] + x {
                    assert(q.drop_first() =~= x);
                }
            }
        } else {
            assert(child_paths(es, n) == child_paths(es.drop_last(), n));
            if q == seq![n] + x && x.len() >= 1 {
                assert(q.len() >= 2);
                assert(q[0] == n);
            }
        }
    }
}

/// Which subdirectory names the paths call for depends only on which
/// paths there are, not on their order.
proof fn lemma_dir_name_set_of_multiset(es1: Seq<Seq<Seq<char>>>, es2: Seq<Seq<Seq<char>>>)
    requires
        es1.to_multiset() == es2.to_multiset(),
    ensures
        dir_name_set(es1) == dir_name_set(es2),
{
    es1.to_multiset_ensures();
    es2.to_multiset_ensures();
    assert(dir_name_set(es1) =~= dir_name_set(es2)) by {
        assert forall|n: Seq<char>| dir_name_set(es1).contains(n) implies dir_name_set(
            es2,
        ).contains(n) by {
            let j = choose|j: int| 0 <= j < es1.len() && es1[j].len() >= 2 && es1[j][0] == n;
            assert(es1.contains(es1[j]));
            assert(es1.to_multiset().count(es1[j]) > 0);
            assert(es2.to_multiset().count(es1[j]) > 0);
            assert(es2.contains(es1[j]));
            let k = choose|k: int| 0 <= k < es2.len() && es2[k] == es1[j];
        }
        assert forall|n: Seq<char>| dir_name_set(es2).contains(n) implies dir_name_set(
            es1,
        ).contains(n) by {
            let j = choose|j: int| 0 <= j < es2.len() && es2[j].len() >= 2 && es2[j][0] == n;
            assert(es2.contains(es2[j]));
            assert(es2.to_multiset().count(es2[j]) > 0);
            assert(es1.to_multiset().count(es2[j]) > 0);
            assert(es1.contains(es2[j]));
            let k = choose|k: int| 0 <= k < es1.len() && es1[k] == es2[j];
        }
    }
}

/// Two weakly sorted name lists with the same name multiset are the
/// same list.
proof fn lemma_sorted_multiset_unique(a: Seq<Seq<char>>, b: Seq<Seq<char>>)
    requires
        sorted_le(a),
        sorted_le(b),
        a.to_multiset() == b.to_multiset(),
    ensures
        a == b,
    decreases a.len(),
{
    a.to_multiset_ensures();
    b.to_multiset_ensures();
    if a.len() == 0 {
        assert(b.to_multiset().len() == 0);
        assert(b =~= a);
    } else {
        assert(a.contains(a[0]));
        assert(a.to_multiset().count(a[0]) > 0);
        assert(b.to_multiset().count(a[0]) > 0);
        assert(b.contains(a[0]));
        assert(b.len() > 0);
        assert(b.contains(b[0]));
        assert(b.to_multiset().count(b[0]) > 0);
        assert(a.to_multiset().count(b[0]) > 0);
        assert(a.contains(b[0]));
        let ia = choose|ia: int| 0 <= ia < a.len() && a[ia] == b[0];
        let ib = choose|ib: int| 0 <= ib < b.len() && b[ib] == a[0];
        assert(lex_le(a[0], a[ia]));
        assert(lex_le(b[0], b[ib]));
        crate::order::lemma_lex_asymmetric(a[0], b[0]);
        assert(a[0] == b[0]);
        let ta = a.drop_first();
        let tb = b.drop_first();
        assert(a.remove(0) =~= ta);
        assert(b.remove(0) =~= tb);
        assert(ta.to_multiset() =~= a.to_multiset().remove(a[0]));
        assert(tb.to_multiset() =~= b.to_multiset().remove(b[0]));
        assert(sorted_le(ta)) by {
            assert forall|i: int, j: int| 0 <= i < j < ta.len() implies lex_le(ta[i], ta[j]) by {
                assert(ta[i] == a[i + 1]);
                assert(ta[j] == a[j + 1]);
            }
        }
        assert(sorted_le(tb)) by {
            assert forall|i: int, j: int| 0 <= i < j < tb.len() implies lex_le(tb[i], tb[j]) by {
                assert(tb[i] == b[i + 1]);
                assert(tb[j] == b[j + 1]);
            }
        }
        lemma_sorted_multiset_unique(ta, tb);
        assert(a =~= b) by {
            assert(forall|i: int| 0 < i < a.len() ==> a[i] == ta[i - 1]);
            assert(forall|i: int| 0 < i < b.len() ==> b[i] == tb[i - 1]);
        }
    }
}

/// Two strictly sorted name lists with the same name set are the same
/// list.
proof fn lemma_strict_sorted_set_unique(a: Seq<Seq<char>>, b: Seq<Seq<char>>)
    requires
        sorted_lt(a),
        sorted_lt(b),
        a.to_set() == b.to_set(),
    ensures
        a == b,
    decreases a.len(),
{
    if a.len() == 0 {
        if b.len() > 0 {
            assert(b.contains(b[0]));
            assert(b.to_set().contains(b[0]));
            assert(a.to_set().contains(b[0]));
            assert(a.contains(b[0]));
        }
        assert(a =~= b);
    } else {
        assert(a.contains(a[0]));
        assert(a.to_set().contains(a[0]));
        assert(b.to_set().contains(a[0]));
        assert(b.contains(a[0]));
        assert(b.len() > 0);
        assert(b.contains(b[0]));
        assert(b.to_set().contains(b[0]));
        assert(a.to_set().contains(b[0]));
        assert(a.contains(b[0]));
        let ia = choose|ia: int| 0 <= ia < a.len() && a[ia] == b[0];
        let ib = choose|ib: int| 0 <= ib < b.len() && b[ib] == a[0];
        assert(ia > 0 ==> lex_lt(a[0], a[ia]));
        assert(ib > 0 ==> lex_lt(b[0], b[ib]));
        crate::order::lemma_lex_asymmetric(a[0], b[0]);
        assert(a[0] == b[0]);
        let ta = a.drop_first();
        let tb = b.drop_first();
        assert(sorted_lt(ta)) by {
            assert forall|i: int, j: int| 0 <= i < j < ta.len() implies lex_lt(ta[i], ta[j]) by {
                assert(ta[i] == a[i + 1]);
                assert(ta[j] == a[j + 1]);
            }
        }
        assert(sorted_lt(tb)) by {
            assert forall|i: int, j: int| 0 <= i < j < tb.len() implies lex_lt(tb[i], tb[j]) by {
                assert(tb[i] == b[i + 1]);
                assert(tb[j] == b[j + 1]);
            }
        }
        assert(ta.to_set() =~= tb.to_set()) by {
            crate::order::lemma_lex_irreflexive(a[0]);
            assert forall|y: Seq<char>| ta.to_set().contains(y) implies tb.to_set().contains(y) by {
                let i = choose|i: int| 0 <= i < ta.len() && ta[i] == y;
                assert(ta[i] == a[i + 1]);
                assert(lex_lt(a[0], y));
                assert(a.contains(y));
                assert(a.to_set().contains(y));
                assert(b.to_set().contains(y));
                assert(b.contains(y));
                let k = choose|k: int| 0 <= k < b.len() && b[k] == y;
                assert(k != 0);
                assert(tb[k - 1] == y);
                assert(tb.contains(y));
            }
            assert forall|y: Seq<char>| tb.to_set().contains(y) implies ta.to_set().contains(y) by {
                let i = choose|i: int| 0 <= i < tb.len() && tb[i] == y;
                assert(tb[i] == b[i + 1]);
                assert(lex_lt(b[0], y));
                assert(b.contains(y));
                assert(b.to_set().contains(y));
                assert(a.to_set().contains(y));
                assert(a.contains(y));
                let k = choose|k: int| 0 <= k < a.len() && a[k] == y;
                assert(k != 0);
                assert(ta[k - 1] == y);
                assert(ta.contains(y));
            }
        }
        lemma_strict_sorted_set_unique(ta, tb);
        assert(a =~= b) by {
            assert(forall|i: int| 0 < i < a.len() ==> a[i] == ta[i - 1]);
            assert(forall|i: int| 0 < i < b.len() ==> b[i] == tb[i - 1]);
        }
    }
}

} // verus!

verus! {

proof fn lemma_render_files_unique(d1: Directory, d2: Directory, i: int, indent: Seq<char>)
    requires
        files_view(d1) == files_view(d2),
        d1.subdirectories@.len() == d2.subdirectories@.len(),
    ensures
        render_file_lines(d1, i, indent) == render_file_lines(d2, i, indent),
    decreases d1.files@.len() - i,
{
    assert(files_view(d1).len() == d1.files@.len());
    assert(files_view(d2).len() == d2.files@.len());
    if 0 <= i < d1.files@.len() {
        assert(files_view(d1)[i] == d1.files@[i]@);
        assert(files_view(d2)[i] == d2.files@[i]@);
        lemma_render_files_unique(d1, d2, i + 1, indent);
    }
}

proof fn lemma_render_unique(
    d1: Directory,
    d2: Directory,
    es1: Seq<Seq<Seq<char>>>,
    es2: Seq<Seq<Seq<char>>>,
    indent: Seq<char>,
    is_last: bool,
    is_root: bool,
)
    requires
        represents(d1, es1),
        represents(d2, es2),
        es1.to_multiset() == es2.to_multiset(),
        !is_root ==> d1.name@ == d2.name@,
    ensures
        render_node(d1, indent, is_last, is_root) == render_node(d2, indent, is_last, is_root),
    decreases d1, d1.subdirectories@.len() + 1,
{
    assert(files_view(d1) == files_view(d2)) by {
        assert(files_view(d1).to_multiset() =~= files_view(d2).to_multiset()) by {
            assert forall|c: Seq<char>|
                files_view(d1).to_multiset().count(c) == files_view(d2).to_multiset().count(
                    c,
                ) by {
                lemma_leaf_names_count(es1, c);
                lemma_leaf_names_count(es2, c);
            }
        }
        lemma_sorted_multiset_unique(files_view(d1), files_view(d2));
    }
    assert(subdir_names(d1) == subdir_names(d2)) by {
        lemma_dir_name_set_of_multiset(es1, es2);
        lemma_strict_sorted_set_unique(subdir_names(d1), subdir_names(d2));
    }
    assert(d1.subdirectories@.len() == d2.subdirectories@.len()) by {
        assert(subdir_names(d1).len() == d1.subdirectories@.len());
        assert(subdir_names(d2).len() == d2.subdirectories@.len());
    }
    lemma_render_files_unique(
        d1,
        d2,
        0,
        if is_root {
            indent
        } else {
            indent + indent_unit(is_last)
        },
    );
    lemma_render_subdirs_unique(
        d1,
        d2,
        es1,
        es2,
        0,
        if is_root {
            indent
        } else {
            indent + indent_unit(is_last)
        },
    );
}

proof fn lemma_render_subdirs_unique(
    d1: Directory,
    d2: Directory,
    es1: Seq<Seq<Seq<char>>>,
    es2: Seq<Seq<Seq<char>>>,
    k: int,
    indent: Seq<char>,
)
    requires
        represents(d1, es1),
        represents(d2, es2),
        es1.to_multiset() == es2.to_multiset(),
        subdir_names(d1) == subdir_names(d2),
    ensures
        render_subdir_lines(d1, k, indent) == render_subdir_lines(d2, k, indent),
    decreases d1, d1.subdirectories@.len() - k,
{
    assert(subdir_names(d1).len() == d1.subdirectories@.len());
    assert(subdir_names(d2).len() == d2.subdirectories@.len());
    if 0 <= k < d1.subdirectories@.len() {
        let c1 = d1.subdirectories@[k];
        let c2 = d2.subdirectories@[k];
        let n = subdir_names(d1)[k];
        assert(c1.name@ == n);
        assert(c2.name@ == n);
        assert(represents(c1, child_paths(es1, n)));
        assert(represents(c2, child_paths(es2, n)));
        assert(child_paths(es1, n).to_multiset() =~= child_paths(es2, n).to_multiset()) by {
            assert forall|x: Seq<Seq<char>>|
                child_paths(es1, n).to_multiset().count(x) == child_paths(
                    es2,
                    n,
                ).to_multiset().count(x) by {
                lemma_child_paths_count(es1, n, x);
                lemma_child_paths_count(es2, n, x);
            }
        }
        lemma_render_unique(
            c1,
            c2,
            child_paths(es1, n),
            child_paths(es2, n),
            indent,
            k == d1.subdirectories@.len() - 1,
            false,
        );
        lemma_render_subdirs_unique(d1, d2, es1, es2, k + 1, indent);
    }
}

/// Tree rendering is deterministic: two trees that stand for the same
/// collected paths — however differently ordered the two collections
/// arrived — render to byte-identical text.
pub proof fn lemma_render_deterministic(
    d1: Directory,
    d2: Directory,
    es1: Seq<Seq<Seq<char>>>,
    es2: Seq<Seq<Seq<char>>>,
)
    requires
        represents(d1, es1),
        represents(d2, es2),
        es1.to_multiset() == es2.to_multiset(),
    ensures
        render_node(d1, Seq::<char>::empty(), true, true) == render_node(
            d2,
            Seq::<char>::empty(),
            true,
            true,
        ),
{
    lemma_render_unique(d1, d2, es1, es2, Seq::<char>::empty(), true, true);
}

} // verus!

verus! {

/// Removing one entry removes exactly its contribution to the
/// relative-path multiset.
proof fn lemma_rel_paths_remove(es: Seq<FileEntry>, k: int, root: Seq<Seq<char>>)
    requires
        0 <= k < es.len(),
    ensures
        spec_rel_paths(es, root).to_multiset() == if rel_view(
            crate::fs_model::entry_view(es[k]).0,
            root,
        ).len() > 0 {
            spec_rel_paths(es.remove(k), root).to_multiset().insert(
                rel_view(crate::fs_model::entry_view(es[k]).0, root),
            )
        } else {
            spec_rel_paths(es.remove(k), root).to_multiset()
        },
    decreases es.len(),
{
    broadcast use vstd::seq_lib::group_seq_properties;

    let q = rel_view(crate::fs_model::entry_view(es[k]).0, root);
    if k == es.len() - 1 {
        assert(es.remove(k) =~= es.drop_last());
        assert(es[k] == es.last());
        if q.len() > 0 {
            assert(spec_rel_paths(es, root) == spec_rel_paths(es.drop_last(), root).push(q));
            assert(spec_rel_paths(es.drop_last(), root).push(q).to_multiset() =~= spec_rel_paths(
                es.drop_last(),
                root,
            ).to_multiset().insert(q));
        }
    } else {
        let last = es.last();
        let ql = rel_view(crate::fs_model::entry_view(last).0, root);
        assert(es.remove(k).last() == last);
        assert(es.remove(k).drop_last() =~= es.drop_last().remove(k));
        assert(es.drop_last()[k] == es[k]);
        lemma_rel_paths_remove(es.drop_last(), k, root);
        if ql.len() > 0 {
            assert(spec_rel_paths(es, root) == spec_rel_paths(es.drop_last(), root).push(ql));
            assert(spec_rel_paths(es.remove(k), root) == spec_rel_paths(
                es.drop_last().remove(k),
                root,
            ).push(ql));
            assert(spec_rel_paths(es.drop_last(), root).push(ql).to_multiset() =~= spec_rel_paths(
                es.drop_last(),
                root,
            ).to_multiset().insert(ql));
            assert(spec_rel_paths(es.drop_last().remove(k), root).push(ql).to_multiset()
                =~= spec_rel_paths(es.drop_last().remove(k), root).to_multiset().insert(ql));
            if q.len() > 0 {
                assert(spec_rel_paths(es, root).to_multiset() =~= spec_rel_paths(
                    es.remove(k),
                    root,
                ).to_multiset().insert(q));
            } else {
                assert(spec_rel_paths(es, root).to_multiset() =~= spec_rel_paths(
                    es.remove(k),
                    root,
                ).to_multiset());
            }
        } else {
            assert(spec_rel_paths(es, root) == spec_rel_paths(es.drop_last(), root));
            assert(spec_rel_paths(es.remove(k), root) == spec_rel_paths(
                es.drop_last().remove(k),
                root,
            ));
        }
    }
}

/// Entry lists that hold the same entries, in whatever order, give
/// the same multiset of relative paths.
proof fn lemma_rel_paths_of_multiset(e1: Seq<FileEntry>, e2: Seq<FileEntry>, root: Seq<Seq<char>>)
    requires
        e1.to_multiset() == e2.to_multiset(),
    ensures
        spec_rel_paths(e1, root).to_multiset() == spec_rel_paths(e2, root).to_multiset(),
    decreases e1.len(),
{
    e1.to_multiset_ensures();
    e2.to_multiset_ensures();
    if e1.len() == 0 {
        assert(e2.len() == 0);
    } else {
        let last = e1.last();
        assert(e1.contains(last));
        assert(e1.to_multiset().count(last) > 0);
        assert(e2.to_multiset().count(last) > 0);
        assert(e2.contains(last));
        let k = choose|k: int| 0 <= k < e2.len() && e2[k] == last;
        assert(e1.drop_last() =~= e1.remove(e1.len() - 1));
        assert(e1.remove(e1.len() - 1).to_multiset() =~= e1.to_multiset().remove(last));
        assert(e2.remove(k).to_multiset() =~= e2.to_multiset().remove(last));
        lemma_rel_paths_of_multiset(e1.drop_last(), e2.remove(k), root);
        lemma_rel_paths_remove(e1, e1.len() - 1, root);
        lemma_rel_paths_remove(e2, k, root);
        assert(e1[e1.len() - 1] == last);
    }
}

/// The whole pipeline is order-independent: trees built from the same
/// entries, collected in any two orders, render byte-identically.
pub proof fn lemma_tree_order_independent(
    d1: Directory,
    d2: Directory,
    e1: Seq<FileEntry>,
    e2: Seq<FileEntry>,
    root: Seq<Seq<char>>,
)
    requires
        e1.to_multiset() == e2.to_multiset(),
        represents(d1, spec_rel_paths(e1, root)),
        represents(d2, spec_rel_paths(e2, root)),
    ensures
        render_node(d1, Seq::<char>::empty(), true, true) == render_node(
            d2,
            Seq::<char>::empty(),
            true,
            true,
        ),
{
    lemma_rel_paths_of_multiset(e1, e2, root);
    lemma_render_deterministic(d1, d2, spec_rel_paths(e1, root), spec_rel_paths(e2, root));
}

} // verus!
