//! Directory-exclusion patterns and their matching rules.
//!
//! A raw pattern string takes one of three forms: `**` excludes every
//! directory, `**/<name>` excludes any directory whose final path
//! component equals `<name>`, and any other string is a literal path
//! that excludes exactly the directory at that path relative to the
//! walk root.

use vstd::prelude::*;

verus! {

/// View of a list of path components as character sequences.
pub open spec fn comps_view(p: Seq<String>) -> Seq<Seq<char>> {
    p.map_values(|c: String| c@)
}

/// One directory-exclusion rule, already parsed from its raw string.
pub enum ExclusionPattern {
    /// `**`: matches every directory.
    MatchAll,
    /// `**/<name>`: matches any directory whose final component is `<name>`.
    MatchByBasename(String),
    /// A literal path: matches only the directory at exactly that path
    /// relative to the walk root.
    MatchByRelativePath(Vec<String>),
}

pub open spec fn basename_of(p: ExclusionPattern) -> Seq<char> {
    match p {
        ExclusionPattern::MatchByBasename(n) => n@,
        _ => Seq::empty(),
    }
}

pub open spec fn rel_path_of(p: ExclusionPattern) -> Seq<Seq<char>> {
    match p {
        ExclusionPattern::MatchByRelativePath(q) => comps_view(q@),
        _ => Seq::empty(),
    }
}

/// Splitting a character sequence at `/`, accumulating the component
/// read so far; `split_acc(s, [])` is the component list of `s`.
pub open spec fn split_acc(s: Seq<char>, cur: Seq<char>) -> Seq<Seq<char>>
    decreases s.len(),
{
    if s.len() == 0 {
        seq![cur]
    } else if s[0] == '/' {
        seq![cur] + split_acc(s.drop_first(), Seq::empty())
    } else {
        split_acc(s.drop_first(), cur.push(s[0]))
    }
}

pub open spec fn spec_split_slash(s: Seq<char>) -> Seq<Seq<char>> {
    split_acc(s, Seq::empty())
}

/// Consuming a slash-free prefix of length `k` only grows the current
/// component.
proof fn lemma_split_acc_advance(s: Seq<char>, cur: Seq<char>, k: int)
    requires
        0 <= k <= s.len(),
        forall|j: int| 0 <= j < k ==> s[j] != '/',
    ensures
        split_acc(s, cur) == split_acc(s.skip(k), cur + s.subrange(0, k)),
    decreases k,
{
    if k == 0 {
        assert(s.skip(0) =~= s);
        assert(cur + s.subrange(0, 0) =~= cur);
    } else {
        lemma_split_acc_advance(s.drop_first(), cur.push(s[0]), k - 1);
        assert(s.drop_first().skip(k - 1) =~= s.skip(k));
        assert(cur.push(s[0]) + s.drop_first().subrange(0, k - 1) =~= cur + s.subrange(0, k));
    }
}

/// Executable split of a string at `/` into its components.
pub fn split_slash(s: &str) -> (r: Vec<String>)
    ensures
        comps_view(r@) == spec_split_slash(s@),
{
    let len = s.unicode_len();
    let mut comps: Vec<String> = Vec::new();
    let mut start: usize = 0;
    let mut i: usize = 0;
    proof {
        assert(comps_view(comps@) =~= Seq::<Seq<char>>::empty());
        assert(s@.skip(0) =~= s@);
        assert(comps_view(comps@) + split_acc(s@.skip(0), Seq::empty()) =~= spec_split_slash(s@));
    }
    while i < len
        invariant
            start <= i <= len,
            len == s@.len(),
            forall|j: int| start <= j < i ==> s@[j] != '/',
            spec_split_slash(s@) =~= comps_view(comps@) + split_acc(
                s@.skip(start as int),
                Seq::empty(),
            ),
        decreases len - i,
    {
        let c = s.get_char(i);
        if c == '/' {
            let comp = s.substring_char(start, i);
            let ghost old_comps = comps@;
            comps.push(String::from_str(comp));
            proof {
                let tail = s@.skip(start as int);
                lemma_split_acc_advance(tail, Seq::empty(), i - start);
                assert(tail.skip(i - start) =~= s@.skip(i as int));
                assert(Seq::empty() + tail.subrange(0, i - start) =~= s@.subrange(
                    start as int,
                    i as int,
                ));
                assert(s@.skip(i as int)[0] == '/');
                assert(s@.skip(i as int).drop_first() =~= s@.skip(i + 1));
                assert(comps_view(comps@) =~= comps_view(old_comps).push(comp@));
                assert(comps_view(old_comps) + split_acc(s@.skip(start as int), Seq::empty())
                    =~= comps_view(comps@) + split_acc(s@.skip(i + 1), Seq::empty()));
            }
            start = i + 1;
        }
        i = i + 1;
    }
    let comp = s.substring_char(start, len);
    let ghost old_comps = comps@;
    comps.push(String::from_str(comp));
    proof {
        let tail = s@.skip(start as int);
        lemma_split_acc_advance(tail, Seq::empty(), len - start);
        assert(tail.skip(len - start) =~= Seq::<char>::empty());
        assert(Seq::empty() + tail.subrange(0, len - start) =~= s@.subrange(
            start as int,
            len as int,
        ));
        assert(comps_view(comps@) =~= comps_view(old_comps).push(comp@));
        assert(comps_view(old_comps) + split_acc(s@.skip(start as int), Seq::empty())
            =~= comps_view(comps@));
    }
    comps
}

/// The directory path against which a literal pattern is compared:
/// the path with a single leading `.` component removed.
pub open spec fn strip_leading_dot(dir: Seq<Seq<char>>) -> Seq<Seq<char>> {
    if dir.len() > 0 && dir[0] == seq!['.'] {
        dir.drop_first()
    } else {
        dir
    }
}

/// What it means for one pattern to match a directory path.
pub open spec fn pattern_matches(p: ExclusionPattern, dir: Seq<Seq<char>>) -> bool {
    match p {
        ExclusionPattern::MatchAll => true,
        ExclusionPattern::MatchByBasename(name) => dir.len() > 0 && dir.last() == name@,
        ExclusionPattern::MatchByRelativePath(q) => strip_leading_dot(dir) == comps_view(q@),
    }
}

/// A directory is excluded exactly when some pattern in the list
/// matches it (the first match decides, but any match suffices).
pub open spec fn spec_should_exclude(dir: Seq<Seq<char>>, pats: Seq<ExclusionPattern>) -> bool {
    exists|i: int| 0 <= i < pats.len() && pattern_matches(pats[i], dir)
}

/// A basename pattern matches a directory named `name` wherever it
/// stands: only the final path component decides, never the depth nor
/// the leading components.
pub proof fn lemma_basename_matches_any_depth(name: String, dir: Seq<Seq<char>>)
    ensures
        pattern_matches(ExclusionPattern::MatchByBasename(name), dir) <==> (dir.len() > 0
            && dir.last() == name@),
{
}

/// A literal pattern matches exactly the directory at that relative
/// path: neither a longer path that ends with it nor one that merely
/// starts with it.
pub proof fn lemma_relative_path_exact(q: Vec<String>, dir: Seq<Seq<char>>)
    ensures
        pattern_matches(ExclusionPattern::MatchByRelativePath(q), dir) <==> strip_leading_dot(dir)
            == comps_view(q@),
        pattern_matches(ExclusionPattern::MatchByRelativePath(q), dir) && dir.len() > 0 && dir[0]
            != seq!['.'] ==> dir == comps_view(q@),
{
}

/// Executable test of one pattern against a directory path given as
/// components.
pub fn matches_pattern(p: &ExclusionPattern, dir: &Vec<String>) -> (r: bool)
    ensures
        r == pattern_matches(*p, comps_view(dir@)),
{
    match p {
        ExclusionPattern::MatchAll => true,
        ExclusionPattern::MatchByBasename(name) => {
            if dir.len() == 0 {
                proof {
                    assert(comps_view(dir@).len() == 0);
                }
                false
            } else {
                let r = crate::order::str_eq(dir[dir.len() - 1].as_str(), name.as_str());
                proof {
                    assert(comps_view(dir@).last() == dir@[dir@.len() - 1]@);
                }
                r
            }
        },
        ExclusionPattern::MatchByRelativePath(q) => {
            let offset: usize = if dir.len() > 0 && crate::order::str_eq(dir[0].as_str(), ".") {
                proof {
                    reveal_strlit(".");
                    assert(comps_view(dir@)[0] == dir@[0]@);
                    assert(dir@[0]@ =~= seq!['.']);
                }
                1
            } else {
                proof {
                    reveal_strlit(".");
                    assert(seq!['.'] =~= "."@);
                    if dir@.len() > 0 {
                        assert(comps_view(dir@)[0] == dir@[0]@);
                    }
                }
                0
            };
            let ghost stripped = strip_leading_dot(comps_view(dir@));
            proof {
                assert(stripped =~= comps_view(dir@).skip(offset as int));
            }
            if dir.len() - offset != q.len() {
                proof {
                    assert(comps_view(dir@).len() == dir@.len());
                    assert(stripped.len() == dir@.len() - offset);
                    assert(comps_view(q@).len() == q@.len());
                }
                return false;
            }
            let mut j: usize = 0;
            while j < q.len()
                invariant
                    pattern_matches(*p, comps_view(dir@)) == (stripped == comps_view(q@)),
                    0 <= j <= q.len(),
                    offset <= dir.len(),
                    dir@.len() - offset == q@.len(),
                    stripped == strip_leading_dot(comps_view(dir@)),
                    stripped =~= comps_view(dir@).skip(offset as int),
                    forall|k: int| 0 <= k < j ==> stripped[k] == comps_view(q@)[k],
                decreases q.len() - j,
            {
                let same = crate::order::str_eq(dir[offset + j].as_str(), q[j].as_str());
                proof {
                    assert(stripped[j as int] == dir@[offset + j]@);
                    assert(comps_view(q@)[j as int] == q@[j as int]@);
                }
                if !same {
                    proof {
                        assert(stripped[j as int] != comps_view(q@)[j as int]);
                        assert(stripped != comps_view(q@));
                    }
                    return false;
                }
                j = j + 1;
            }
            proof {
                assert(stripped =~= comps_view(q@));
            }
            true
        },
    }
}

/// Executable exclusion test: scans the pattern list in order and
/// stops at the first match.
pub fn should_exclude_directory(dir: &Vec<String>, exclude_directories: &Vec<ExclusionPattern>) -> (r:
    bool)
    ensures
        r == spec_should_exclude(comps_view(dir@), exclude_directories@),
{
    let mut i: usize = 0;
    while i < exclude_directories.len()
        invariant
            0 <= i <= exclude_directories.len(),
            forall|k: int| 0 <= k < i ==> !pattern_matches(
                exclude_directories@[k],
                comps_view(dir@),
            ),
        decreases exclude_directories.len() - i,
    {
        if matches_pattern(&exclude_directories[i], dir) {
            return true;
        }
        i = i + 1;
    }
    false
}

/// Parses a raw pattern string into its variant; the three forms are
/// recognised in the order `**`, `**/<name>`, literal path.
pub fn parse_pattern(s: &str) -> (r: ExclusionPattern)
    ensures
        (r is MatchAll) <==> s@ == "**"@,
        (r is MatchByBasename) <==> (s@.len() >= 3 && s@.subrange(0, 3) == "**/"@),
        r is MatchByBasename ==> basename_of(r) == s@.skip(3),
        r is MatchByRelativePath ==> rel_path_of(r) == spec_split_slash(s@),
{
    let n = s.unicode_len();
    proof {
        reveal_strlit("**");
        reveal_strlit("**/");
    }
    let is_all = n == 2 && s.get_char(0) == '*' && s.get_char(1) == '*';
    proof {
        if is_all {
            assert(s@ =~= "**"@);
        } else {
            assert(s@ != "**"@) by {
                if s@ == "**"@ {
                    assert(s@.len() == 2);
                    assert(s@[0] == '*' && s@[1] == '*');
                }
            }
        }
    }
    if is_all {
        return ExclusionPattern::MatchAll;
    }
    let is_base = n >= 3 && s.get_char(0) == '*' && s.get_char(1) == '*' && s.get_char(2) == '/';
    proof {
        if is_base {
            assert(s@.subrange(0, 3) =~= "**/"@);
        } else {
            assert(!(s@.len() >= 3 && s@.subrange(0, 3) == "**/"@)) by {
                if s@.len() >= 3 && s@.subrange(0, 3) == "**/"@ {
                    assert(s@[0] == s@.subrange(0, 3)[0]);
                    assert(s@[1] == s@.subrange(0, 3)[1]);
                    assert(s@[2] == s@.subrange(0, 3)[2]);
                }
            }
        }
    }
    if is_base {
        let name = s.substring_char(3, n);
        return ExclusionPattern::MatchByBasename(String::from_str(name));
    }
    ExclusionPattern::MatchByRelativePath(split_slash(s))
}

/// Parses a whole list of raw pattern strings, in order.
pub fn parse_patterns(raw: &Vec<String>) -> (r: Vec<ExclusionPattern>)
    ensures
        r@.len() == raw@.len(),
{
    let mut out: Vec<ExclusionPattern> = Vec::new();
    let mut i: usize = 0;
    while i < raw.len()
        invariant
            out@.len() == i <= raw@.len(),
        decreases raw.len() - i,
    {
        let p = parse_pattern(raw[i].as_str());
        out.push(p);
        i = i + 1;
    }
    out
}

} // verus!
