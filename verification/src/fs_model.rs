//! In-memory model of the directory tree the collector walks, and the
//! collector itself.  The caller reads the disk into this model (or
//! drives a disk walk with `should_exclude_directory`); the recursion
//! over the model is the verified embodiment of the collection
//! algorithm: explicit files are looked up and silently skipped when
//! absent, declared directories are walked depth first, and a
//! directory matching an exclusion pattern is skipped with its whole
//! subtree.

use crate::pattern::ExclusionPattern;
use crate::pattern::comps_view;
use crate::pattern::spec_should_exclude;
use crate::pattern::should_exclude_directory;
use vstd::prelude::*;

verus! {

broadcast use vstd::std_specs::vec::axiom_vec_index_decreases;

/// A regular file of the model: its name (one path component) and its
/// decoded text.
pub struct FsFile {
    pub name: String,
    pub content: String,
}

/// A directory of the model: its name and its immediate children, in
/// walk order (the order the operating system yielded them).
pub struct FsDir {
    pub name: String,
    pub files: Vec<FsFile>,
    pub subdirs: Vec<FsDir>,
}

/// A collected entry: a path (as components) and the file's content.
pub struct FileEntry {
    pub path: Vec<String>,
    pub content: String,
}

pub open spec fn entry_view(e: FileEntry) -> (Seq<Seq<char>>, Seq<char>) {
    (comps_view(e.path@), e.content@)
}

pub open spec fn entries_view(es: Seq<FileEntry>) -> Seq<(Seq<Seq<char>>, Seq<char>)> {
    es.map_values(|e: FileEntry| entry_view(e))
}

pub open spec fn paths_view(ps: Seq<Vec<String>>) -> Seq<Seq<Seq<char>>> {
    ps.map_values(|p: Vec<String>| comps_view(p@))
}

pub proof fn lemma_comps_view_push(s: Seq<String>, x: String)
    ensures
        comps_view(s.push(x)) == comps_view(s).push(x@),
{
    assert(comps_view(s.push(x)) =~= comps_view(s).push(x@)) by {
        assert forall|j: int| 0 <= j < s.len() + 1 implies comps_view(s.push(x))[j] == comps_view(
            s,
        ).push(x@)[j] by {
            if j < s.len() {
                assert(s.push(x)[j] == s[j]);
            } else {
                assert(s.push(x)[j] == x);
            }
        }
    }
}

pub proof fn lemma_entries_view_push(s: Seq<FileEntry>, e: FileEntry)
    ensures
        entries_view(s.push(e)) == entries_view(s).push(entry_view(e)),
{
    assert(entries_view(s.push(e)) =~= entries_view(s).push(entry_view(e))) by {
        assert forall|j: int| 0 <= j < s.len() + 1 implies entries_view(s.push(e))[j]
            == entries_view(s).push(entry_view(e))[j] by {
            if j < s.len() {
                assert(s.push(e)[j] == s[j]);
            } else {
                assert(s.push(e)[j] == e);
            }
        }
    }
}

/// The entries contributed by the files directly inside one directory.
pub open spec fn collect_files(files: Seq<FsFile>, dir_path: Seq<Seq<char>>) -> Seq<
    (Seq<Seq<char>>, Seq<char>),
> {
    files.map_values(|f: FsFile| (dir_path.push(f.name@), f.content@))
}

proof fn lemma_collect_files_take(files: Seq<FsFile>, dir_path: Seq<Seq<char>>, i: int)
    requires
        0 <= i < files.len(),
    ensures
        collect_files(files.take(i + 1), dir_path) == collect_files(files.take(i), dir_path).push(
            (dir_path.push(files[i].name@), files[i].content@),
        ),
{
    let a = collect_files(files.take(i + 1), dir_path);
    let b = collect_files(files.take(i), dir_path).push(
        (dir_path.push(files[i].name@), files[i].content@),
    );
    assert(a =~= b) by {
        assert forall|j: int| 0 <= j < i + 1 implies a[j] == b[j] by {
            if j < i {
                assert(files.take(i + 1)[j] == files[j]);
                assert(files.take(i)[j] == files[j]);
            } else {
                assert(files.take(i + 1)[j] == files[i]);
            }
        }
    }
}

/// All entries the walk collects from `d`, whose path relative to the
/// project root is `rel` and whose stored path prefix is `base + rel`.
pub open spec fn collect_dir(
    d: FsDir,
    base: Seq<Seq<char>>,
    rel: Seq<Seq<char>>,
    pats: Seq<ExclusionPattern>,
) -> Seq<(Seq<Seq<char>>, Seq<char>)>
    decreases d, d.subdirs@.len() + 1,
{
    collect_files(d.files@, base + rel) + collect_subdirs(d, 0, base, rel, pats)
}

/// The entries collected from the subdirectories of `d` from index `k`
/// on; an excluded subdirectory contributes nothing at all.
pub open spec fn collect_subdirs(
    d: FsDir,
    k: int,
    base: Seq<Seq<char>>,
    rel: Seq<Seq<char>>,
    pats: Seq<ExclusionPattern>,
) -> Seq<(Seq<Seq<char>>, Seq<char>)>
    decreases d, d.subdirs@.len() - k,
{
    if k < 0 || k >= d.subdirs@.len() {
        Seq::empty()
    } else {
        let s = d.subdirs@[k];
        let here = if spec_should_exclude(rel.push(s.name@), pats) {
            Seq::empty()
        } else {
            collect_dir(s, base, rel.push(s.name@), pats)
        };
        here + collect_subdirs(d, k + 1, base, rel, pats)
    }
}

/// First file of the given name in a child list, as the walk finds it.
pub open spec fn spec_file_in(files: Seq<FsFile>, name: Seq<char>) -> Option<Seq<char>>
    decreases files.len(),
{
    if files.len() == 0 {
        None
    } else if files[0].name@ == name {
        Some(files[0].content@)
    } else {
        spec_file_in(files.drop_first(), name)
    }
}

/// First subdirectory of the given name in a child list.
pub open spec fn spec_subdir_in(subdirs: Seq<FsDir>, name: Seq<char>) -> Option<FsDir>
    decreases subdirs.len(),
{
    if subdirs.len() == 0 {
        None
    } else if subdirs[0].name@ == name {
        Some(subdirs[0])
    } else {
        spec_subdir_in(subdirs.drop_first(), name)
    }
}

/// The content of the regular file at `path` below `d`, if one exists.
pub open spec fn spec_lookup_file(d: FsDir, path: Seq<Seq<char>>) -> Option<Seq<char>>
    decreases path.len(),
{
    if path.len() == 0 {
        None
    } else if path.len() == 1 {
        spec_file_in(d.files@, path[0])
    } else {
        match spec_subdir_in(d.subdirs@, path[0]) {
            None => None,
            Some(s) => spec_lookup_file(s, path.drop_first()),
        }
    }
}

/// The directory at `path` below `d`, if one exists.
pub open spec fn spec_lookup_dir(d: FsDir, path: Seq<Seq<char>>) -> Option<FsDir>
    decreases path.len(),
{
    if path.len() == 0 {
        Some(d)
    } else {
        match spec_subdir_in(d.subdirs@, path[0]) {
            None => None,
            Some(s) => spec_lookup_dir(s, path.drop_first()),
        }
    }
}

/// Entries contributed by the explicitly declared files: each that
/// exists is read, each that does not is silently dropped.
pub open spec fn spec_explicit_files(
    root: FsDir,
    base: Seq<Seq<char>>,
    fps: Seq<Seq<Seq<char>>>,
) -> Seq<(Seq<Seq<char>>, Seq<char>)>
    decreases fps.len(),
{
    if fps.len() == 0 {
        Seq::empty()
    } else {
        (match spec_lookup_file(root, fps[0]) {
            Some(c) => seq![(base + fps[0], c)],
            None => Seq::empty(),
        }) + spec_explicit_files(root, base, fps.drop_first())
    }
}

/// Entries contributed by the declared directories: each that exists
/// and is not itself excluded is walked recursively.
pub open spec fn spec_declared_dirs(
    root: FsDir,
    base: Seq<Seq<char>>,
    dps: Seq<Seq<Seq<char>>>,
    pats: Seq<ExclusionPattern>,
) -> Seq<(Seq<Seq<char>>, Seq<char>)>
    decreases dps.len(),
{
    if dps.len() == 0 {
        Seq::empty()
    } else {
        (match spec_lookup_dir(root, dps[0]) {
            Some(d) => if spec_should_exclude(dps[0], pats) {
                Seq::empty()
            } else {
                collect_dir(d, base, dps[0], pats)
            },
            None => Seq::empty(),
        }) + spec_declared_dirs(root, base, dps.drop_first(), pats)
    }
}

/// Everything one collection run returns, in walk order.
pub open spec fn spec_process_files(
    root: FsDir,
    base: Seq<Seq<char>>,
    fps: Seq<Seq<Seq<char>>>,
    dps: Seq<Seq<Seq<char>>>,
    pats: Seq<ExclusionPattern>,
) -> Seq<(Seq<Seq<char>>, Seq<char>)> {
    spec_explicit_files(root, base, fps) + spec_declared_dirs(root, base, dps, pats)
}

/// Exclusion is subtree-absolute.  Every entry the walk collects from
/// `d` lies strictly below `base + rel`, and none of the directories
/// its path passes through on the way down — each proper prefix deeper
/// than `rel`, up to the directory that holds the file — matches an
/// exclusion pattern.  In particular nothing anywhere beneath an
/// excluded directory is ever collected, whether or not a deeper
/// subdirectory would itself match a pattern.
pub proof fn lemma_exclusion_subtree(
    d: FsDir,
    base: Seq<Seq<char>>,
    rel: Seq<Seq<char>>,
    pats: Seq<ExclusionPattern>,
    idx: int,
)
    requires
        0 <= idx < collect_dir(d, base, rel, pats).len(),
    ensures
        collect_dir(d, base, rel, pats)[idx].0.len() > base.len() + rel.len(),
        collect_dir(d, base, rel, pats)[idx].0.subrange(0, (base.len() + rel.len()) as int) == base + rel,
        forall|m: int|
            rel.len() < m < collect_dir(d, base, rel, pats)[idx].0.len() - base.len()
                ==> !spec_should_exclude(
                #[trigger] collect_dir(d, base, rel, pats)[idx].0.subrange(
                    base.len() as int,
                    base.len() + m,
                ),
                pats,
            ),
    decreases d, d.subdirs@.len() + 1,
{
    let cf = collect_files(d.files@, base + rel);
    let cs = collect_subdirs(d, 0, base, rel, pats);
    if idx < cf.len() {
        let p = cf[idx].0;
        assert(p == (base + rel).push(d.files@[idx].name@));
        assert(p.subrange(0, (base.len() + rel.len()) as int) =~= base + rel);
    } else {
        lemma_exclusion_subtree_from(d, 0, base, rel, pats, idx - cf.len());
        assert(collect_dir(d, base, rel, pats)[idx] == cs[idx - cf.len()]);
    }
}

/// The same, for the part of the walk from subdirectory `k` on.
proof fn lemma_exclusion_subtree_from(
    d: FsDir,
    k: int,
    base: Seq<Seq<char>>,
    rel: Seq<Seq<char>>,
    pats: Seq<ExclusionPattern>,
    idx: int,
)
    requires
        0 <= idx < collect_subdirs(d, k, base, rel, pats).len(),
    ensures
        collect_subdirs(d, k, base, rel, pats)[idx].0.len() > base.len() + rel.len(),
        collect_subdirs(d, k, base, rel, pats)[idx].0.subrange(0, (base.len() + rel.len()) as int) == base
            + rel,
        forall|m: int|
            rel.len() < m < collect_subdirs(d, k, base, rel, pats)[idx].0.len() - base.len()
                ==> !spec_should_exclude(
                #[trigger] collect_subdirs(d, k, base, rel, pats)[idx].0.subrange(
                    base.len() as int,
                    base.len() + m,
                ),
                pats,
            ),
    decreases d, d.subdirs@.len() - k,
{
    let s = d.subdirs@[k];
    let child_rel = rel.push(s.name@);
    let here = if spec_should_exclude(child_rel, pats) {
        Seq::<(Seq<Seq<char>>, Seq<char>)>::empty()
    } else {
        collect_dir(s, base, child_rel, pats)
    };
    let rest = collect_subdirs(d, k + 1, base, rel, pats);
    if idx < here.len() {
        assert(!spec_should_exclude(child_rel, pats));
        lemma_exclusion_subtree(s, base, child_rel, pats, idx);
        let p = here[idx].0;
        assert(collect_subdirs(d, k, base, rel, pats)[idx] == here[idx]);
        assert(p.subrange(0, (base.len() + rel.len()) as int) =~= p.subrange(
            0,
            (base.len() + child_rel.len()) as int,
        ).subrange(0, (base.len() + rel.len()) as int));
        assert(p.subrange(0, (base.len() + rel.len()) as int) =~= base + rel);
        assert forall|m: int| rel.len() < m < p.len() - base.len() implies !spec_should_exclude(
            #[trigger] p.subrange(base.len() as int, base.len() + m),
            pats,
        ) by {
            if m == rel.len() + 1 {
                let q = p.subrange(0, (base.len() + child_rel.len()) as int);
                assert forall|j: int| 0 <= j < child_rel.len() implies p[base.len() + j]
                    == child_rel[j] by {
                    assert(q[base.len() + j] == p[base.len() + j]);
                    assert((base + child_rel)[base.len() + j] == child_rel[j]);
                }
                assert(p.subrange(base.len() as int, base.len() + m) =~= child_rel);
            } else {
                assert(child_rel.len() < m < p.len() - base.len());
            }
        }
    } else {
        lemma_exclusion_subtree_from(d, k + 1, base, rel, pats, idx - here.len());
        assert(collect_subdirs(d, k, base, rel, pats)[idx] == rest[idx - here.len()]);
    }
}

/// Copies the components of `a` followed by those of `b`.
pub fn concat_paths(a: &Vec<String>, b: &Vec<String>) -> (r: Vec<String>)
    ensures
        comps_view(r@) == comps_view(a@) + comps_view(b@),
{
    let mut r: Vec<String> = Vec::new();
    let mut i: usize = 0;
    proof {
        assert(comps_view(r@) =~= comps_view(a@).take(0));
    }
    while i < a.len()
        invariant
            i <= a@.len(),
            comps_view(r@) == comps_view(a@).take(i as int),
        decreases a@.len() - i,
    {
        let ghost old_r = r@;
        r.push(a[i].clone());
        proof {
            lemma_comps_view_push(old_r, a@[i as int]);
            assert(comps_view(a@).take(i + 1) =~= comps_view(a@).take(i as int).push(
                comps_view(a@)[i as int],
            ));
        }
        i = i + 1;
    }
    proof {
        assert(comps_view(a@).take(a@.len() as int) =~= comps_view(a@));
    }
    let mut j: usize = 0;
    proof {
        assert(comps_view(a@) + comps_view(b@).take(0) =~= comps_view(a@));
    }
    while j < b.len()
        invariant
            j <= b@.len(),
            comps_view(r@) == comps_view(a@) + comps_view(b@).take(j as int),
        decreases b@.len() - j,
    {
        let ghost old_r = r@;
        r.push(b[j].clone());
        proof {
            lemma_comps_view_push(old_r, b@[j as int]);
            assert(comps_view(a@) + comps_view(b@).take(j + 1) =~= (comps_view(a@) + comps_view(
                b@,
            ).take(j as int)).push(comps_view(b@)[j as int]));
        }
        j = j + 1;
    }
    proof {
        assert(comps_view(a@) + comps_view(b@).take(b@.len() as int) =~= comps_view(a@)
            + comps_view(b@));
    }
    r
}

/// Copies a component path and appends one more component.
pub fn push_comp(rel: &Vec<String>, name: &String) -> (r: Vec<String>)
    ensures
        comps_view(r@) == comps_view(rel@).push(name@),
{
    let empty: Vec<String> = Vec::new();
    let mut r = concat_paths(rel, &empty);
    proof {
        assert(comps_view(empty@) =~= Seq::<Seq<char>>::empty());
        assert(comps_view(rel@) + comps_view(empty@) =~= comps_view(rel@));
    }
    let ghost old_r = r@;
    r.push(name.clone());
    proof {
        lemma_comps_view_push(old_r, *name);
    }
    r
}

/// Builds the stored path `base + rel + [name]` as fresh components.
fn join_path(base: &Vec<String>, rel: &Vec<String>, name: &String) -> (r: Vec<String>)
    ensures
        comps_view(r@) == (comps_view(base@) + comps_view(rel@)).push(name@),
{
    let mut r = concat_paths(base, rel);
    let ghost old_r = r@;
    r.push(name.clone());
    proof {
        lemma_comps_view_push(old_r, *name);
    }
    r
}

/// Recursively collects every file below `dir`, skipping each
/// subdirectory that matches an exclusion pattern, together with its
/// whole subtree.
pub fn process_directory(
    dir: &FsDir,
    base: &Vec<String>,
    rel: &Vec<String>,
    exclude_directories: &Vec<ExclusionPattern>,
    file_contents: &mut Vec<FileEntry>,
)
    ensures
        entries_view(final(file_contents)@) == entries_view(old(file_contents)@) + collect_dir(
            *dir,
            comps_view(base@),
            comps_view(rel@),
            exclude_directories@,
        ),
    decreases *dir,
{
    let ghost basev = comps_view(base@);
    let ghost relv = comps_view(rel@);
    let ghost pats = exclude_directories@;
    let ghost start = entries_view(file_contents@);
    let mut i: usize = 0;
    proof {
        assert(collect_files(dir.files@.take(0), basev + relv)
            =~= Seq::<(Seq<Seq<char>>, Seq<char>)>::empty());
        assert(entries_view(file_contents@) =~= start + collect_files(
            dir.files@.take(0),
            basev + relv,
        ));
    }
    while i < dir.files.len()
        invariant
            i <= dir.files@.len(),
            basev == comps_view(base@),
            relv == comps_view(rel@),
            pats == exclude_directories@,
            entries_view(file_contents@) == start + collect_files(
                dir.files@.take(i as int),
                basev + relv,
            ),
        decreases dir.files.len() - i,
    {
        let f = &dir.files[i];
        let path = join_path(base, rel, &f.name);
        let entry = FileEntry { path, content: f.content.clone() };
        let ghost ecopy = entry;
        let ghost before = file_contents@;
        file_contents.push(entry);
        proof {
            lemma_entries_view_push(before, ecopy);
            lemma_collect_files_take(dir.files@, basev + relv, i as int);
            assert(entry_view(ecopy) == ((basev + relv).push(dir.files@[i as int].name@),
            dir.files@[i as int].content@));
            assert(entries_view(file_contents@) =~= start + collect_files(
                dir.files@.take(i + 1),
                basev + relv,
            ));
        }
        i = i + 1;
    }
    proof {
        assert(dir.files@.take(dir.files@.len() as int) =~= dir.files@);
    }
    let ghost after_files = entries_view(file_contents@);
    let mut k: usize = 0;
    proof {
        assert(after_files + collect_subdirs(*dir, 0, basev, relv, pats) =~= after_files
            + collect_subdirs(*dir, 0, basev, relv, pats));
    }
    while k < dir.subdirs.len()
        invariant
            k <= dir.subdirs@.len(),
            basev == comps_view(base@),
            relv == comps_view(rel@),
            pats == exclude_directories@,
            after_files == start + collect_files(dir.files@, basev + relv),
            entries_view(file_contents@) + collect_subdirs(*dir, k as int, basev, relv, pats)
                == after_files + collect_subdirs(*dir, 0, basev, relv, pats),
        decreases dir.subdirs.len() - k,
    {
        let s = &dir.subdirs[k];
        let child_rel = push_comp(rel, &s.name);
        let ghost before = entries_view(file_contents@);
        if !should_exclude_directory(&child_rel, exclude_directories) {
            process_directory(s, base, &child_rel, exclude_directories, file_contents);
        }
        proof {
            let here = if spec_should_exclude(relv.push(dir.subdirs@[k as int].name@), pats) {
                Seq::<(Seq<Seq<char>>, Seq<char>)>::empty()
            } else {
                collect_dir(
                    dir.subdirs@[k as int],
                    basev,
                    relv.push(dir.subdirs@[k as int].name@),
                    pats,
                )
            };
            assert(entries_view(file_contents@) =~= before + here);
            assert(collect_subdirs(*dir, k as int, basev, relv, pats) == here + collect_subdirs(
                *dir,
                k + 1,
                basev,
                relv,
                pats,
            ));
            assert((before + here) + collect_subdirs(*dir, k + 1, basev, relv, pats) =~= before + (
            here + collect_subdirs(*dir, k + 1, basev, relv, pats)));
        }
        k = k + 1;
    }
    proof {
        assert(collect_subdirs(*dir, dir.subdirs@.len() as int, basev, relv, pats)
            =~= Seq::<(Seq<Seq<char>>, Seq<char>)>::empty());
        assert(entries_view(file_contents@) + collect_subdirs(
            *dir,
            dir.subdirs@.len() as int,
            basev,
            relv,
            pats,
        ) =~= entries_view(file_contents@));
        assert(entries_view(file_contents@) =~= start + collect_dir(*dir, basev, relv, pats));
    }
}

/// Finds the first file child of the given name.
fn find_file<'a>(files: &'a Vec<FsFile>, name: &String) -> (r: Option<&'a FsFile>)
    ensures
        match r {
            Some(f) => spec_file_in(files@, name@) == Some(f.content@),
            None => spec_file_in(files@, name@) is None,
        },
{
    let mut i: usize = 0;
    proof {
        assert(files@.skip(0) =~= files@);
    }
    while i < files.len()
        invariant
            i <= files@.len(),
            spec_file_in(files@, name@) == spec_file_in(files@.skip(i as int), name@),
        decreases files.len() - i,
    {
        proof {
            assert(files@.skip(i as int)[0] == files@[i as int]);
            assert(files@.skip(i as int).drop_first() =~= files@.skip(i + 1));
        }
        if crate::order::str_eq(files[i].name.as_str(), name.as_str()) {
            return Some(&files[i]);
        }
        i = i + 1;
    }
    proof {
        assert(files@.skip(files@.len() as int).len() == 0);
    }
    None
}

/// Finds the first subdirectory child of the given name.
fn find_subdir<'a>(subdirs: &'a Vec<FsDir>, name: &String) -> (r: Option<&'a FsDir>)
    ensures
        match r {
            Some(s) => spec_subdir_in(subdirs@, name@) == Some(*s),
            None => spec_subdir_in(subdirs@, name@) is None,
        },
{
    let mut i: usize = 0;
    proof {
        assert(subdirs@.skip(0) =~= subdirs@);
    }
    while i < subdirs.len()
        invariant
            i <= subdirs@.len(),
            spec_subdir_in(subdirs@, name@) == spec_subdir_in(subdirs@.skip(i as int), name@),
        decreases subdirs.len() - i,
    {
        proof {
            assert(subdirs@.skip(i as int)[0] == subdirs@[i as int]);
            assert(subdirs@.skip(i as int).drop_first() =~= subdirs@.skip(i + 1));
        }
        if crate::order::str_eq(subdirs[i].name.as_str(), name.as_str()) {
            return Some(&subdirs[i]);
        }
        i = i + 1;
    }
    proof {
        assert(subdirs@.skip(subdirs@.len() as int).len() == 0);
    }
    None
}

/// Finds the directory of the model at `path` below `d`, if any.
fn lookup_dir<'a>(d: &'a FsDir, path: &Vec<String>, i: usize) -> (r: Option<&'a FsDir>)
    requires
        i <= path@.len(),
    ensures
        match r {
            Some(s) => spec_lookup_dir(*d, comps_view(path@).skip(i as int)) == Some(*s),
            None => spec_lookup_dir(*d, comps_view(path@).skip(i as int)) is None,
        },
    decreases path@.len() - i,
{
    if i == path.len() {
        proof {
            assert(comps_view(path@).skip(i as int).len() == 0);
        }
        return Some(d);
    }
    proof {
        assert(comps_view(path@).skip(i as int)[0] == path@[i as int]@);
        assert(comps_view(path@).skip(i as int).drop_first() =~= comps_view(path@).skip(i + 1));
    }
    match find_subdir(&d.subdirs, &path[i]) {
        None => None,
        Some(s) => lookup_dir(s, path, i + 1),
    }
}

/// Finds the regular file of the model at `path` below `d`, if any.
fn lookup_file<'a>(d: &'a FsDir, path: &Vec<String>, i: usize) -> (r: Option<&'a FsFile>)
    requires
        i <= path@.len(),
    ensures
        match r {
            Some(f) => spec_lookup_file(*d, comps_view(path@).skip(i as int)) == Some(f.content@),
            None => spec_lookup_file(*d, comps_view(path@).skip(i as int)) is None,
        },
    decreases path@.len() - i,
{
    if i == path.len() {
        proof {
            assert(comps_view(path@).skip(i as int).len() == 0);
        }
        return None;
    }
    proof {
        assert(comps_view(path@).skip(i as int)[0] == path@[i as int]@);
        assert(comps_view(path@).skip(i as int).drop_first() =~= comps_view(path@).skip(i + 1));
    }
    if i + 1 == path.len() {
        proof {
            assert(comps_view(path@).skip(i as int).len() == 1);
        }
        match find_file(&d.files, &path[i]) {
            None => None,
            Some(f) => Some(f),
        }
    } else {
        match find_subdir(&d.subdirs, &path[i]) {
            None => None,
            Some(s) => lookup_file(s, path, i + 1),
        }
    }
}

/// Collects the files of one project from the model rooted at `root`
/// (the directory at `project_path`): first the declared files that
/// exist, then the declared directories, walked depth first with the
/// exclusion patterns applied to every directory before it is entered.
pub fn process_files(
    project_path: &Vec<String>,
    root: &FsDir,
    files: &Vec<Vec<String>>,
    directories: &Vec<Vec<String>>,
    exclude_directories: &Vec<ExclusionPattern>,
) -> (r: Vec<FileEntry>)
    ensures
        entries_view(r@) == spec_process_files(
            *root,
            comps_view(project_path@),
            paths_view(files@),
            paths_view(directories@),
            exclude_directories@,
        ),
{
    let ghost basev = comps_view(project_path@);
    let ghost fpsv = paths_view(files@);
    let ghost dpsv = paths_view(directories@);
    let ghost pats = exclude_directories@;
    let mut out: Vec<FileEntry> = Vec::new();
    let mut i: usize = 0;
    proof {
        assert(fpsv.skip(0) =~= fpsv);
        assert(entries_view(out@) =~= Seq::<(Seq<Seq<char>>, Seq<char>)>::empty());
        assert(entries_view(out@) + spec_explicit_files(*root, basev, fpsv)
            =~= spec_explicit_files(*root, basev, fpsv));
    }
    while i < files.len()
        invariant
            i <= files@.len(),
            basev == comps_view(project_path@),
            fpsv == paths_view(files@),
            pats == exclude_directories@,
            entries_view(out@) + spec_explicit_files(*root, basev, fpsv.skip(i as int))
                == spec_explicit_files(*root, basev, fpsv),
        decreases files.len() - i,
    {
        let ghost before = entries_view(out@);
        proof {
            assert(fpsv.skip(i as int)[0] == comps_view(files@[i as int]@));
            assert(fpsv.skip(i as int).drop_first() =~= fpsv.skip(i + 1));
            assert(comps_view(files@[i as int]@).skip(0) =~= comps_view(files@[i as int]@));
        }
        match lookup_file(root, &files[i], 0) {
            None => {},
            Some(f) => {
                let path = concat_paths(project_path, &files[i]);
                let entry = FileEntry { path, content: f.content.clone() };
                let ghost ecopy = entry;
                let ghost before_vec = out@;
                out.push(entry);
                proof {
                    lemma_entries_view_push(before_vec, ecopy);
                }
            },
        }
        proof {
            let item = match spec_lookup_file(*root, fpsv.skip(i as int)[0]) {
                Some(c) => seq![(basev + fpsv.skip(i as int)[0], c)],
                None => Seq::<(Seq<Seq<char>>, Seq<char>)>::empty(),
            };
            assert(entries_view(out@) =~= before + item);
            assert(spec_explicit_files(*root, basev, fpsv.skip(i as int)) == item
                + spec_explicit_files(*root, basev, fpsv.skip(i + 1)));
            assert((before + item) + spec_explicit_files(*root, basev, fpsv.skip(i + 1)) =~= before
                + (item + spec_explicit_files(*root, basev, fpsv.skip(i + 1))));
        }
        i = i + 1;
    }
    proof {
        assert(spec_explicit_files(*root, basev, fpsv.skip(fpsv.len() as int))
            =~= Seq::<(Seq<Seq<char>>, Seq<char>)>::empty());
        assert(entries_view(out@) + spec_explicit_files(*root, basev, fpsv.skip(fpsv.len() as int))
            =~= entries_view(out@));
        assert(dpsv.skip(0) =~= dpsv);
    }
    let ghost after_files = entries_view(out@);
    let mut k: usize = 0;
    while k < directories.len()
        invariant
            k <= directories@.len(),
            basev == comps_view(project_path@),
            dpsv == paths_view(directories@),
            pats == exclude_directories@,
            after_files == spec_explicit_files(*root, basev, paths_view(files@)),
            entries_view(out@) + spec_declared_dirs(*root, basev, dpsv.skip(k as int), pats)
                == after_files + spec_declared_dirs(*root, basev, dpsv, pats),
        decreases directories.len() - k,
    {
        let ghost before = entries_view(out@);
        proof {
            assert(dpsv.skip(k as int)[0] == comps_view(directories@[k as int]@));
            assert(dpsv.skip(k as int).drop_first() =~= dpsv.skip(k + 1));
            assert(comps_view(directories@[k as int]@).skip(0) =~= comps_view(
                directories@[k as int]@,
            ));
        }
        match lookup_dir(root, &directories[k], 0) {
            None => {},
            Some(d) => {
                if !should_exclude_directory(&directories[k], exclude_directories) {
                    process_directory(
                        d,
                        project_path,
                        &directories[k],
                        exclude_directories,
                        &mut out,
                    );
                }
            },
        }
        proof {
            let item = match spec_lookup_dir(*root, dpsv.skip(k as int)[0]) {
                Some(d) => if spec_should_exclude(dpsv.skip(k as int)[0], pats) {
                    Seq::<(Seq<Seq<char>>, Seq<char>)>::empty()
                } else {
                    collect_dir(d, basev, dpsv.skip(k as int)[0], pats)
                },
                None => Seq::<(Seq<Seq<char>>, Seq<char>)>::empty(),
            };
            assert(entries_view(out@) =~= before + item);
            assert(spec_declared_dirs(*root, basev, dpsv.skip(k as int), pats) == item
                + spec_declared_dirs(*root, basev, dpsv.skip(k + 1), pats));
            assert((before + item) + spec_declared_dirs(*root, basev, dpsv.skip(k + 1), pats)
                =~= before + (item + spec_declared_dirs(*root, basev, dpsv.skip(k + 1), pats)));
        }
        k = k + 1;
    }
    proof {
        assert(spec_declared_dirs(*root, basev, dpsv.skip(dpsv.len() as int), pats)
            =~= Seq::<(Seq<Seq<char>>, Seq<char>)>::empty());
        assert(entries_view(out@) + spec_declared_dirs(
            *root,
            basev,
            dpsv.skip(dpsv.len() as int),
            pats,
        ) =~= entries_view(out@));
    }
    out
}

} // verus!

verus! {

/// Whether a regular file with content `c` stands at sub-path `q`
/// below `d` and the walk may reach it: some child chain carries the
/// components of `q`, and no directory on the way down is excluded.
/// The children are read by existentials, so the predicate does not
/// depend on the order the walk yields them in: it is the reference
/// walk, as a set.
pub open spec fn file_below(
    d: FsDir,
    rel: Seq<Seq<char>>,
    pats: Seq<ExclusionPattern>,
    q: Seq<Seq<char>>,
    c: Seq<char>,
) -> bool
    decreases q.len(),
{
    if q.len() == 0 {
        false
    } else if q.len() == 1 {
        exists|i: int|
            0 <= i < d.files@.len() && d.files@[i].name@ == q[0] && d.files@[i].content@ == c
    } else {
        exists|i: int|
            {
                &&& 0 <= i < d.subdirs@.len()
                &&& d.subdirs@[i].name@ == q[0]
                &&& !spec_should_exclude(rel.push(q[0]), pats)
                &&& file_below(#[trigger] d.subdirs@[i], rel.push(q[0]), pats, q.drop_first(), c)
            }
    }
}

proof fn lemma_collect_subdirs_member(
    d: FsDir,
    k: int,
    base: Seq<Seq<char>>,
    rel: Seq<Seq<char>>,
    pats: Seq<ExclusionPattern>,
    x: (Seq<Seq<char>>, Seq<char>),
)
    requires
        collect_subdirs(d, k, base, rel, pats).contains(x),
    ensures
        exists|i: int|
            {
                &&& k <= i < d.subdirs@.len()
                &&& !spec_should_exclude(rel.push(d.subdirs@[i].name@), pats)
                &&& collect_dir(
                    #[trigger] d.subdirs@[i],
                    base,
                    rel.push(d.subdirs@[i].name@),
                    pats,
                ).contains(x)
            },
    decreases d, d.subdirs@.len() - k,
{
    broadcast use vstd::seq_lib::lemma_seq_concat_contains_all_elements;

    let s = d.subdirs@[k];
    let here = if spec_should_exclude(rel.push(s.name@), pats) {
        Seq::<(Seq<Seq<char>>, Seq<char>)>::empty()
    } else {
        collect_dir(s, base, rel.push(s.name@), pats)
    };
    let rest = collect_subdirs(d, k + 1, base, rel, pats);
    if here.contains(x) {
        assert(!spec_should_exclude(rel.push(s.name@), pats));
    } else {
        assert(rest.contains(x));
        lemma_collect_subdirs_member(d, k + 1, base, rel, pats, x);
    }
}

proof fn lemma_collect_subdirs_contains_from(
    d: FsDir,
    k: int,
    i: int,
    base: Seq<Seq<char>>,
    rel: Seq<Seq<char>>,
    pats: Seq<ExclusionPattern>,
    x: (Seq<Seq<char>>, Seq<char>),
)
    requires
        0 <= k <= i < d.subdirs@.len(),
        !spec_should_exclude(rel.push(d.subdirs@[i].name@), pats),
        collect_dir(d.subdirs@[i], base, rel.push(d.subdirs@[i].name@), pats).contains(x),
    ensures
        collect_subdirs(d, k, base, rel, pats).contains(x),
    decreases d, d.subdirs@.len() - k,
{
    broadcast use vstd::seq_lib::lemma_seq_concat_contains_all_elements;

    if k == i {
    } else {
        lemma_collect_subdirs_contains_from(d, k + 1, i, base, rel, pats, x);
    }
}

/// The collector's output is, as a set, exactly what the reference
/// walk admits: an entry whose stored path is `base + rel + q` is
/// collected from `d` precisely when a regular file with that content
/// stands at `q` below `d` with no excluded directory on the way down
/// — whatever order the model lists its children in.
pub proof fn lemma_collect_dir_membership(
    d: FsDir,
    base: Seq<Seq<char>>,
    rel: Seq<Seq<char>>,
    pats: Seq<ExclusionPattern>,
    q: Seq<Seq<char>>,
    c: Seq<char>,
)
    ensures
        collect_dir(d, base, rel, pats).contains(((base + rel) + q, c)) <==> file_below(
            d,
            rel,
            pats,
            q,
            c,
        ),
    decreases d, d.subdirs@.len() + 1,
{
    broadcast use vstd::seq_lib::lemma_seq_concat_contains_all_elements;

    let cf = collect_files(d.files@, base + rel);
    let cs = collect_subdirs(d, 0, base, rel, pats);
    let p = (base + rel) + q;
    if collect_dir(d, base, rel, pats).contains((p, c)) {
        if cf.contains((p, c)) {
            let i = choose|i: int| 0 <= i < cf.len() && cf[i] == (p, c);
            assert(cf[i] == ((base + rel).push(d.files@[i].name@), d.files@[i].content@));
            assert(p.len() == base.len() + rel.len() + 1);
            assert(q.len() == 1);
            assert(p[p.len() - 1] == d.files@[i].name@);
            assert(p[p.len() - 1] == q[0]);
            assert(file_below(d, rel, pats, q, c));
        } else {
            assert(cs.contains((p, c)));
            lemma_collect_subdirs_member(d, 0, base, rel, pats, (p, c));
            let i = choose|i: int|
                {
                    &&& 0 <= i < d.subdirs@.len()
                    &&& !spec_should_exclude(rel.push(d.subdirs@[i].name@), pats)
                    &&& collect_dir(
                        #[trigger] d.subdirs@[i],
                        base,
                        rel.push(d.subdirs@[i].name@),
                        pats,
                    ).contains((p, c))
                };
            let s = d.subdirs@[i];
            let rel2 = rel.push(s.name@);
            let child = collect_dir(s, base, rel2, pats);
            let idx = choose|idx: int| 0 <= idx < child.len() && child[idx] == (p, c);
            lemma_exclusion_subtree(s, base, rel2, pats, idx);
            assert(p.len() > base.len() + rel.len() + 1);
            assert(q.len() >= 2);
            assert(p.subrange(0, (base.len() + rel2.len()) as int) == base + rel2);
            assert(q[0] == s.name@) by {
                let m = (base.len() + rel.len()) as int;
                assert(p[m] == q[0]);
                assert(p.subrange(0, (base.len() + rel2.len()) as int)[m] == p[m]);
                assert((base + rel2)[m] == s.name@);
            }
            assert((base + rel2) + q.drop_first() =~= p);
            lemma_collect_dir_membership(s, base, rel2, pats, q.drop_first(), c);
            assert(file_below(s, rel2, pats, q.drop_first(), c));
            assert(file_below(d, rel, pats, q, c));
        }
    }
    if file_below(d, rel, pats, q, c) {
        if q.len() == 1 {
            let i = choose|i: int|
                0 <= i < d.files@.len() && d.files@[i].name@ == q[0] && d.files@[i].content@ == c;
            assert(cf[i] == ((base + rel).push(d.files@[i].name@), d.files@[i].content@));
            assert((base + rel).push(d.files@[i].name@) =~= p);
            assert(cf[i] == (p, c));
            assert(cf.contains((p, c)));
        } else {
            let i = choose|i: int|
                {
                    &&& 0 <= i < d.subdirs@.len()
                    &&& d.subdirs@[i].name@ == q[0]
                    &&& !spec_should_exclude(rel.push(q[0]), pats)
                    &&& file_below(
                        #[trigger] d.subdirs@[i],
                        rel.push(q[0]),
                        pats,
                        q.drop_first(),
                        c,
                    )
                };
            let s = d.subdirs@[i];
            let rel2 = rel.push(s.name@);
            lemma_collect_dir_membership(s, base, rel2, pats, q.drop_first(), c);
            assert((base + rel2) + q.drop_first() =~= p);
            assert(collect_dir(s, base, rel2, pats).contains((p, c)));
            lemma_collect_subdirs_contains_from(d, 0, i, base, rel, pats, (p, c));
        }
    }
}

} // verus!
