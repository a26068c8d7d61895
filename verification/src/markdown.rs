//! Markdown assembly: one fenced block per collected file, tagged with
//! the language its extension maps to, followed by the rendered tree
//! of the whole project.

use crate::fs_model::FileEntry;
use crate::pattern::comps_view;
use crate::tree::Directory;
use crate::tree::generate_tree;
use crate::tree::newline;
use crate::tree::rel_view;
use crate::tree::relative_to;
use crate::tree::render_node;
use crate::tree::represents;
use crate::tree::spec_rel_paths;
use vstd::prelude::*;

verus! {

/// The lower-cased form of a character sequence.
pub uninterp spec fn lower_of(s: Seq<char>) -> Seq<char>;

/// Relies on str::to_lowercase: the result depends on the characters
/// alone, so equal inputs lower to equal outputs everywhere.
#[verifier::external_body]
fn lowercase(s: &str) -> (r: String)
    ensures
        r@ == lower_of(s@),
{
    s.to_lowercase()
}

/// The extension of a file name scanned down from position `j`: the
/// text after the rightmost `.`, except that a dot opening the name
/// marks no extension.
pub open spec fn ext_from(name: Seq<char>, j: int) -> Seq<char>
    decreases j,
{
    if j <= 0 {
        Seq::empty()
    } else if name[j] == '.' {
        name.skip(j + 1)
    } else {
        ext_from(name, j - 1)
    }
}

pub open spec fn spec_extension(name: Seq<char>) -> Seq<char> {
    if name.len() == 0 {
        Seq::empty()
    } else {
        ext_from(name, name.len() - 1)
    }
}

/// Executable extension scan, from the end of the name.
pub fn extension_of(name: &str) -> (r: String)
    ensures
        r@ == spec_extension(name@),
{
    let len = name.unicode_len();
    if len == 0 {
        return String::new();
    }
    let mut j: usize = len - 1;
    loop
        invariant
            0 <= j <= len - 1,
            len == name@.len(),
            ext_from(name@, (len - 1) as int) == ext_from(name@, j as int),
        decreases j,
    {
        if j == 0 {
            return String::new();
        }
        let c = name.get_char(j);
        if c == '.' {
            let e = name.substring_char(j + 1, len);
            return String::from_str(e);
        }
        j = j - 1;
    }
}

/// The display name a language lookup list gives an extension: the
/// value of the first pair whose key equals it, `Text` when none does.
pub open spec fn spec_lookup_lang(langs: Seq<(String, String)>, ext: Seq<char>) -> Seq<char>
    decreases langs.len(),
{
    if langs.len() == 0 {
        "Text"@
    } else if langs[0].0@ == ext {
        langs[0].1@
    } else {
        spec_lookup_lang(langs.drop_first(), ext)
    }
}

/// Executable language lookup: first match wins.
pub fn lookup_lang(langs: &Vec<(String, String)>, ext: &String) -> (r: String)
    ensures
        r@ == spec_lookup_lang(langs@, ext@),
{
    let mut i: usize = 0;
    proof {
        assert(langs@.skip(0) =~= langs@);
    }
    while i < langs.len()
        invariant
            i <= langs@.len(),
            spec_lookup_lang(langs@, ext@) == spec_lookup_lang(langs@.skip(i as int), ext@),
        decreases langs@.len() - i,
    {
        proof {
            assert(langs@.skip(i as int)[0] == langs@[i as int]);
            assert(langs@.skip(i as int).drop_first() =~= langs@.skip(i + 1));
        }
        if crate::order::str_eq(langs[i].0.as_str(), ext.as_str()) {
            return langs[i].1.clone();
        }
        i = i + 1;
    }
    proof {
        assert(langs@.skip(langs@.len() as int).len() == 0);
    }
    String::from_str("Text")
}

/// Components joined with `/` for display.
pub open spec fn spec_join(ps: Seq<Seq<char>>) -> Seq<char>
    decreases ps.len(),
{
    if ps.len() == 0 {
        Seq::empty()
    } else if ps.len() == 1 {
        ps[0]
    } else {
        spec_join(ps.drop_last()) + seq!['/'] + ps.last()
    }
}

/// Joins path components with `/`.
pub fn join_components(p: &Vec<String>) -> (r: String)
    ensures
        r@ == spec_join(comps_view(p@)),
{
    let ghost pv = comps_view(p@);
    let mut out = String::new();
    let mut i: usize = 0;
    proof {
        assert(pv.take(0).len() == 0);
        assert(out@ =~= spec_join(pv.take(0)));
    }
    while i < p.len()
        invariant
            i <= p@.len(),
            pv == comps_view(p@),
            out@ == spec_join(pv.take(i as int)),
        decreases p@.len() - i,
    {
        let ghost before = out@;
        if i > 0 {
            out.append("/");
        }
        out.append(p[i].as_str());
        proof {
            reveal_strlit("/");
            assert("/"@ =~= seq!['/']);
            assert(pv.take(i + 1).drop_last() =~= pv.take(i as int));
            assert(pv.take(i + 1).last() == pv[i as int]);
            assert(pv[i as int] == p@[i as int]@);
            if i == 0 {
                assert(out@ =~= spec_join(pv.take(1)));
            } else {
                assert(out@ =~= spec_join(pv.take(i as int)) + seq!['/'] + pv[i as int]);
            }
        }
        i = i + 1;
    }
    proof {
        assert(pv.take(pv.len() as int) =~= pv);
    }
    out
}

/// The last component of a path, the file's own name.
pub open spec fn last_comp(p: Seq<Seq<char>>) -> Seq<char> {
    if p.len() > 0 {
        p.last()
    } else {
        Seq::empty()
    }
}

pub open spec fn spec_md_header(pn: Seq<char>) -> Seq<char> {
    "# Project Documentation for "@ + pn + "\n\n## Project Files\n\n"@
}

/// The fenced section printed for one collected entry.
pub open spec fn spec_file_section(
    e: (Seq<Seq<char>>, Seq<char>),
    langs: Seq<(String, String)>,
    root: Seq<Seq<char>>,
) -> Seq<char> {
    "### File: `"@ + spec_join(rel_view(e.0, root)) + "`\n\n```"@ + spec_lookup_lang(
        langs,
        lower_of(spec_extension(last_comp(e.0))),
    ) + newline() + e.1 + "\n```\n\n"@
}

/// All file sections, in collection order.
pub open spec fn spec_file_sections(
    es: Seq<FileEntry>,
    langs: Seq<(String, String)>,
    root: Seq<Seq<char>>,
) -> Seq<char>
    decreases es.len(),
{
    if es.len() == 0 {
        Seq::empty()
    } else {
        spec_file_sections(es.drop_last(), langs, root) + spec_file_section(
            crate::fs_model::entry_view(es.last()),
            langs,
            root,
        )
    }
}

pub open spec fn spec_md_tree_prefix(pn: Seq<char>) -> Seq<char> {
    "\n## Project File Tree\n\n```\n"@ + pn + newline()
}

/// Generates the whole Markdown document for one project: a heading,
/// one fenced section per collected file (tagged with the language of
/// its lower-cased extension, `Text` as the fallback), and the project
/// tree inside its own fence, the rendering of a tree that stands for
/// exactly the collected paths.
pub fn generate_markdown(
    project_name: &str,
    files: Vec<FileEntry>,
    languages: &Vec<(String, String)>,
    project_root: &Vec<String>,
) -> (r: String)
    ensures
        exists|d: Directory|
            {
                &&& represents(d, spec_rel_paths(files@, comps_view(project_root@)))
                &&& d.name@ == project_name@
                &&& r@ == spec_md_header(project_name@) + spec_file_sections(
                    files@,
                    languages@,
                    comps_view(project_root@),
                ) + spec_md_tree_prefix(project_name@) + render_node(
                    d,
                    Seq::<char>::empty(),
                    true,
                    true,
                ) + "```\n"@
            },
{
    let ghost rootv = comps_view(project_root@);
    let mut md = String::new();
    md.append("# Project Documentation for ");
    md.append(project_name);
    md.append("\n\n## Project Files\n\n");
    proof {
        assert(md@ =~= spec_md_header(project_name@));
        assert(files@.take(0).len() == 0);
        assert(spec_file_sections(files@.take(0), languages@, rootv) == Seq::<char>::empty());
        assert(md@ + spec_file_sections(files@.take(0), languages@, rootv) =~= md@);
    }
    let mut i: usize = 0;
    while i < files.len()
        invariant
            i <= files@.len(),
            rootv == comps_view(project_root@),
            md@ == spec_md_header(project_name@) + spec_file_sections(
                files@.take(i as int),
                languages@,
                rootv,
            ),
        decreases files@.len() - i,
    {
        let ghost before = md@;
        let rel = relative_to(&files[i].path, project_root);
        let display = join_components(&rel);
        let name_str: String = if files[i].path.len() > 0 {
            files[i].path[files[i].path.len() - 1].clone()
        } else {
            String::new()
        };
        let ext = extension_of(name_str.as_str());
        let low = lowercase(ext.as_str());
        let lang = lookup_lang(languages, &low);
        md.append("### File: `");
        md.append(display.as_str());
        md.append("`\n\n```");
        md.append(lang.as_str());
        md.append("\n");
        md.append(files[i].content.as_str());
        md.append("\n```\n\n");
        proof {
            let e = crate::fs_model::entry_view(files@[i as int]);
            assert(name_str@ == last_comp(e.0)) by {
                if files@[i as int].path@.len() > 0 {
                    assert(e.0.last() == files@[i as int].path@.last()@);
                }
            }
            assert(md@ =~= before + spec_file_section(e, languages@, rootv));
            assert(files@.take(i + 1).drop_last() =~= files@.take(i as int));
            assert(files@.take(i + 1).last() == files@[i as int]);
            assert(spec_file_sections(files@.take(i + 1), languages@, rootv)
                == spec_file_sections(files@.take(i as int), languages@, rootv)
                + spec_file_section(e, languages@, rootv));
            assert(md@ =~= spec_md_header(project_name@) + spec_file_sections(
                files@.take(i + 1),
                languages@,
                rootv,
            ));
        }
        i = i + 1;
    }
    proof {
        assert(files@.take(files@.len() as int) =~= files@);
    }
    let ghost after_files = md@;
    md.append("\n## Project File Tree\n\n```\n");
    md.append(project_name);
    md.append("\n");
    let tree = generate_tree(project_name, &files, project_root);
    md.append(tree.as_str());
    md.append("```\n");
    proof {
        let d = choose|d: Directory|
            {
                &&& represents(d, spec_rel_paths(files@, rootv))
                &&& d.name@ == project_name@
                &&& tree@ == render_node(d, Seq::<char>::empty(), true, true)
            };
        assert(md@ =~= spec_md_header(project_name@) + spec_file_sections(
            files@,
            languages@,
            rootv,
        ) + spec_md_tree_prefix(project_name@) + render_node(d, Seq::<char>::empty(), true, true)
            + "```\n"@);
    }
    md
}

} // verus!
