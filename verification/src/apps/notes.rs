//! Notes application: simple persistent notes stored on TuwaiqFS under
//! `.notes/`.

use vstd::prelude::*;

use crate::fs::{
    self, fs_view, list_at_path_spec, read_at_path_spec, result_strings, strings_view,
    write_at_path_spec, FileSystem, FsView,
};
use crate::text::{self, trim_spec};

verus! {

pub open spec fn notes_dir() -> Seq<char> {
    ".notes"@
}

pub open spec fn note_path_spec(name: Seq<char>) -> Seq<char> {
    notes_dir() + seq!['/'] + name
}

pub open spec fn usage_spec() -> Seq<Seq<char>> {
    seq![
        "Notes commands:"@,
        "  notes create <name>"@,
        "  notes list"@,
        "  notes show <name>"@,
    ]
}

pub open spec fn create_note_spec(fs: Option<FsView>, name: Seq<char>) -> (
    Option<FsView>,
    Result<Seq<Seq<char>>, &'static str>,
) {
    let n = trim_spec(name);
    if n.len() == 0 {
        (fs, Err("usage: notes create <name>"))
    } else {
        match fs {
            None => (fs, Err("filesystem not initialized")),
            Some(v) => {
                let (v2, r) = write_at_path_spec(v, note_path_spec(n), Seq::empty());
                match r {
                    Ok(()) => (Some(v2), Ok(seq!["Created note: "@ + n])),
                    Err(e) => (Some(v2), Err(e)),
                }
            },
        }
    }
}

pub open spec fn list_notes_spec(fs: Option<FsView>) -> Seq<Seq<char>> {
    match fs {
        Some(v) => match list_at_path_spec(v, notes_dir()) {
            Ok(entries) => if entries.len() == 0 {
                seq!["(no notes)"@]
            } else {
                entries
            },
            Err(_) => seq!["(no notes)"@],
        },
        None => seq!["(no notes)"@],
    }
}

pub open spec fn show_note_spec(fs: Option<FsView>, name: Seq<char>) -> Result<
    Seq<Seq<char>>,
    &'static str,
> {
    let n = trim_spec(name);
    if n.len() == 0 {
        Err("usage: notes show <name>")
    } else {
        match fs {
            None => Err("filesystem not initialized"),
            Some(v) => match read_at_path_spec(v, note_path_spec(n)) {
                Ok(content) => Ok(seq!["Note: "@ + n, content]),
                Err(e) => Err(e),
            },
        }
    }
}

/// What `notes <sub> <args>` prints, and the filesystem it leaves.
pub open spec fn handle_spec(fs: Option<FsView>, sub: Seq<char>, args: Seq<char>) -> (
    Option<FsView>,
    Result<Seq<Seq<char>>, &'static str>,
) {
    let s = trim_spec(sub);
    if s == "create"@ {
        create_note_spec(fs, args)
    } else if s == "list"@ {
        (fs, Ok(list_notes_spec(fs)))
    } else if s == "show"@ {
        (fs, show_note_spec(fs, args))
    } else if s.len() == 0 {
        (fs, Ok(usage_spec()))
    } else {
        (fs, Err("unknown notes command"))
    }
}

fn note_path(name: &str) -> (r: String)
    ensures
        r@ == note_path_spec(name@),
{
    let mut path = String::from_str(".notes");
    path.append("/");
    proof {
        reveal_strlit("/");
    }
    path.append(name);
    path
}

/// Handles the `notes` subcommands.
pub fn handle(fs: &mut Option<FileSystem>, sub: &str, args: &str) -> (r: Result<
    Vec<String>,
    &'static str,
>)
    ensures
        (fs_view(*final(fs)), result_strings(r)) == handle_spec(fs_view(*old(fs)), sub@, args@),
{
    let sub = text::trim(sub);
    if text::str_eq(sub, "create") {
        create(fs, args)
    } else if text::str_eq(sub, "list") {
        list(fs)
    } else if text::str_eq(sub, "show") {
        show(fs, args)
    } else if sub.is_empty() {
        Ok(usage_lines())
    } else {
        Err("unknown notes command")
    }
}

fn create(fs: &mut Option<FileSystem>, name: &str) -> (r: Result<Vec<String>, &'static str>)
    ensures
        (fs_view(*final(fs)), result_strings(r)) == create_note_spec(fs_view(*old(fs)), name@),
{
    let name = text::trim(name);
    if name.is_empty() {
        return Err("usage: notes create <name>");
    }
    let path = note_path(name);
    let empty = String::new();
    match fs::write_in_path(fs, path.as_str(), empty.as_str()) {
        Ok(()) => {},
        Err(e) => return Err(e),
    }
    let mut lines: Vec<String> = Vec::new();
    lines.push(format_message("Created note: ", name));
    assert(strings_view(lines@) =~= seq!["Created note: "@ + name@]);
    Ok(lines)
}

fn list(fs: &Option<FileSystem>) -> (r: Result<Vec<String>, &'static str>)
    ensures
        result_strings(r) == Ok::<Seq<Seq<char>>, &'static str>(list_notes_spec(fs_view(*fs))),
{
    let mut lines: Vec<String> = Vec::new();
    match fs::ls_path(fs, ".notes") {
        Ok(entries) => {
            if entries.len() == 0 {
                lines.push(String::from_str("(no notes)"));
                assert(strings_view(lines@) =~= seq!["(no notes)"@]);
            } else {
                lines = entries;
            }
        },
        Err(_) => {
            lines.push(String::from_str("(no notes)"));
            assert(strings_view(lines@) =~= seq!["(no notes)"@]);
        },
    }
    Ok(lines)
}

fn show(fs: &Option<FileSystem>, name: &str) -> (r: Result<Vec<String>, &'static str>)
    ensures
        result_strings(r) == show_note_spec(fs_view(*fs), name@),
{
    let name = text::trim(name);
    if name.is_empty() {
        return Err("usage: notes show <name>");
    }
    let path = note_path(name);
    let content = match fs::cat_path(fs, path.as_str()) {
        Ok(c) => c,
        Err(e) => return Err(e),
    };
    let mut lines: Vec<String> = Vec::new();
    lines.push(format_message("Note: ", name));
    let ghost c = content@;
    lines.push(content);
    assert(strings_view(lines@) =~= seq!["Note: "@ + name@, c]);
    Ok(lines)
}

fn usage_lines() -> (r: Vec<String>)
    ensures
        strings_view(r@) == usage_spec(),
{
    let mut lines: Vec<String> = Vec::new();
    lines.push(String::from_str("Notes commands:"));
    lines.push(String::from_str("  notes create <name>"));
    lines.push(String::from_str("  notes list"));
    lines.push(String::from_str("  notes show <name>"));
    assert(strings_view(lines@) =~= usage_spec());
    lines
}

fn format_message(prefix: &str, name: &str) -> (r: String)
    ensures
        r@ == prefix@ + name@,
{
    let mut message = String::from_str(prefix);
    message.append(name);
    message
}

/// A created note can be shown at once, empty: after a successful
/// `notes create <name>`, `notes show <name>` prints its title and an
/// empty body.  (A name that leaves a single path piece is written in the
/// working directory, so for it that must be the root.)
pub proof fn lemma_create_then_show(v: FsView, name: Seq<char>)
    requires
        create_note_spec(Some(v), name).1 is Ok,
        fs::split_path_spec(note_path_spec(trim_spec(name))).len() >= 2 || v.cwd.len() == 0,
    ensures
        show_note_spec(create_note_spec(Some(v), name).0, name) == Ok::<
            Seq<Seq<char>>,
            &'static str,
        >(seq!["Note: "@ + trim_spec(name), Seq::empty()]),
{
    let n = trim_spec(name);
    fs::laws::lemma_write_path_then_read_path(v, note_path_spec(n), Seq::empty());
}

/// `.notes` as a path reads as the one directory name `.notes`.
proof fn lemma_notes_dir_parts()
    ensures
        fs::split_path_spec(notes_dir()) == seq![notes_dir()],
        !notes_dir().contains('/'),
        notes_dir().len() > 0,
        notes_dir()[0] == '.',
{
    reveal_strlit(".notes");
    let d = notes_dir();
    assert(!d.contains('/')) by {
        if d.contains('/') {
            let k = choose|k: int| 0 <= k < d.len() && d[k] == '/';
            assert(d[k] != '/');
        }
    }
    assert(text::trim_start_spec(d) == d);
    assert(text::trim_end_spec(d) == d);
    assert(text::strip_leading(d, '/') == d);
    crate::tuwaiqfs::roundtrip::lemma_split_no_sep(d);
    crate::tuwaiqfs::roundtrip::lemma_nonempty_parts_all(seq![d]);
}

/// The path of a note named `n` reads as `.notes` followed by `n`.
proof fn lemma_note_path_parts(name: Seq<char>)
    requires
        trim_spec(name).len() > 0,
        !trim_spec(name).contains('/'),
    ensures
        fs::split_path_spec(note_path_spec(trim_spec(name))) == seq![notes_dir(), trim_spec(name)],
{
    let n = trim_spec(name);
    let p = note_path_spec(n);
    lemma_notes_dir_parts();
    assert(p[0] == '.');
    assert(text::trim_start_spec(p) == p);
    text::lemma_trim_end_prefix(text::trim_start_spec(name));
    assert(p.last() == n.last());
    assert(text::trim_end_spec(p) == p);
    assert(text::strip_leading(p, '/') == p);
    crate::tuwaiqfs::roundtrip::lemma_split_append(notes_dir(), n);
    crate::tuwaiqfs::roundtrip::lemma_split_no_sep(notes_dir());
    assert(seq![notes_dir()].push(n) =~= seq![notes_dir(), n]);
    crate::tuwaiqfs::roundtrip::lemma_nonempty_parts_all(seq![notes_dir(), n]);
}

/// `notes list` shows exactly the entries of `.notes` (what `ls .notes`
/// shows), all of them in order, or `(no notes)` when there are none or
/// there is no such directory; it changes nothing.
pub proof fn lemma_list_shows_notes_dir(v: FsView, sub: Seq<char>, args: Seq<char>)
    requires
        trim_spec(sub) == "list"@,
    ensures
        handle_spec(Some(v), sub, args).0 == Some(v),
        list_at_path_spec(v, ".notes"@) matches Ok(es) ==> (es.len() > 0 ==> handle_spec(
            Some(v),
            sub,
            args,
        ).1 == Ok::<Seq<Seq<char>>, &'static str>(es)),
        (match list_at_path_spec(v, ".notes"@) {
            Ok(es) => es.len() == 0,
            Err(_) => true,
        }) ==> handle_spec(
            Some(v),
            sub,
            args,
        ).1 == Ok::<Seq<Seq<char>>, &'static str>(seq!["(no notes)"@]),
{
    reveal_strlit("list");
    reveal_strlit("create");
    assert("list"@ != "create"@) by {
        assert("list"@.len() != "create"@.len());
    }
}

/// Every note created is listed: after a successful `notes create <name>`
/// (a name without `/`), `notes list` shows that name.
pub proof fn lemma_created_note_is_listed(v: FsView, name: Seq<char>)
    requires
        create_note_spec(Some(v), name).1 is Ok,
        !trim_spec(name).contains('/'),
    ensures
        list_notes_spec(create_note_spec(Some(v), name).0).contains(trim_spec(name)),
{
    let n = trim_spec(name);
    let path = note_path_spec(n);
    lemma_note_path_parts(name);
    lemma_notes_dir_parts();
    let parts = fs::split_path_spec(path);
    let parent = parts.drop_last();
    assert(parent =~= seq![notes_dir()]);
    assert(parts.last() == n);
    let root2 = fs::ensure_chain(v.root, parent)->Ok_0;
    let cs = fs::children_at(root2, parent)->Ok_0;
    fs::laws::lemma_write_into_reads_back(v, root2, parent, cs, n, Seq::empty());
    let v2 = write_at_path_spec(v, path, Seq::empty()).0;
    let cs2 = fs::children_at(v2.root, parent)->Ok_0;
    crate::tuwaiqfs::lemma_find_name(cs2, n);
    let i = crate::tuwaiqfs::find_name(cs2, n)->0;
    assert(fs::listing(cs2)[i] == n);
    reveal_strlit(".notes");
    assert(list_at_path_spec(v2, ".notes"@) == Ok::<Seq<Seq<char>>, &'static str>(fs::listing(cs2)));
}

} // verus!
