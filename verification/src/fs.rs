//! TuwaiqOS filesystem layer: the shell-facing operations on the in-memory
//! tree.  Every mutation serializes the resulting tree; the sectors to
//! write wait in the filesystem until the caller takes them with
//! [`take_pending`] and writes them to disk.

use vstd::prelude::*;

use crate::text::{self, strip_leading, trim_spec};
use crate::tuwaiqfs::{
    self, empty_dir, find_name, lemma_find_name, lemma_find_name_is, lookup, option_image,
    path_parts, set_at, sync_spec, FsNode, MetadataImage, Tree,
};
use crate::tuwaiqfs::roundtrip::{lemma_lookup_set_at, lemma_set_at_same, lemma_set_at_twice};

pub mod laws;

verus! {

/// A named entry inside a directory.
enum Entry {
    File { content: String },
    Dir { children: Vec<(String, Entry)> },
}

/// The mounted filesystem: the tree, the working directory, and the image
/// of the last successful sync, not yet written.
pub struct FileSystem {
    root: Entry,
    cwd: Vec<String>,
    pending: Option<MetadataImage>,
}

/// A filesystem as a mathematical value.
pub struct FsView {
    pub root: Tree,
    pub cwd: Seq<Seq<char>>,
    pub pending: Option<(Seq<u8>, Seq<u8>)>,
}

spec fn entry_tree(e: Entry) -> Tree
    decreases e,
{
    match e {
        Entry::File { content } => Tree::File(content@),
        Entry::Dir { children } => Tree::Dir(entries_trees(children@)),
    }
}

spec fn entries_trees(cs: Seq<(String, Entry)>) -> Seq<(Seq<char>, Tree)>
    decreases cs,
{
    Seq::new(
        cs.len(),
        |i: int|
            if 0 <= i < cs.len() {
                (cs[i].0@, entry_tree(cs[i].1))
            } else {
                (Seq::empty(), Tree::File(Seq::empty()))
            },
    )
}

pub open spec fn strings_view(v: Seq<String>) -> Seq<Seq<char>> {
    Seq::new(v.len(), |i: int| v[i]@)
}

impl View for FileSystem {
    type V = FsView;

    closed spec fn view(&self) -> FsView {
        FsView {
            root: entry_tree(self.root),
            cwd: strings_view(self.cwd@),
            pending: option_image(self.pending),
        }
    }
}

pub open spec fn fs_view(fs: Option<FileSystem>) -> Option<FsView> {
    match fs {
        Some(f) => Some(f@),
        None => None,
    }
}

pub open spec fn result_strings(r: Result<Vec<String>, &'static str>) -> Result<
    Seq<Seq<char>>,
    &'static str,
> {
    match r {
        Ok(v) => Ok(strings_view(v@)),
        Err(e) => Err(e),
    }
}

pub open spec fn result_string(r: Result<String, &'static str>) -> Result<Seq<char>, &'static str> {
    match r {
        Ok(s) => Ok(s@),
        Err(e) => Err(e),
    }
}

// ---------------------------------------------------------------------
// The operations, as mathematics

/// The entries of the directory at `path`.
pub open spec fn children_at(t: Tree, path: Seq<Seq<char>>) -> Result<
    Seq<(Seq<char>, Tree)>,
    &'static str,
> {
    match lookup(t, path) {
        Ok(Tree::Dir(cs)) => Ok(cs),
        Ok(Tree::File(_)) => Err("not a directory"),
        Err(e) => Err(e),
    }
}

/// Why `name` cannot name an entry, if it cannot.
pub open spec fn name_error(name: Seq<char>) -> Option<&'static str> {
    if name.len() == 0 {
        Some("name required")
    } else if name.contains('/') || name.contains('\\') {
        Some("invalid name")
    } else {
        None
    }
}

/// The names along a user-supplied path: surrounding whitespace and
/// leading `/`s ignored, empty pieces dropped.
pub open spec fn split_path_spec(path: Seq<char>) -> Seq<Seq<char>> {
    path_parts(strip_leading(trim_spec(path), '/'))
}

/// How `ls` shows an entry: directories get a trailing `/`.
pub open spec fn entry_label(e: (Seq<char>, Tree)) -> Seq<char> {
    match e.1 {
        Tree::Dir(_) => e.0.push('/'),
        Tree::File(_) => e.0,
    }
}

pub open spec fn listing(cs: Seq<(Seq<char>, Tree)>) -> Seq<Seq<char>> {
    Seq::new(cs.len(), |i: int| entry_label(cs[i]))
}

pub open spec fn pwd_spec(cwd: Seq<Seq<char>>) -> Seq<char> {
    seq!['/'] + tuwaiqfs::roundtrip::join_names(cwd)
}

/// A change of the tree from `v.root` to `root` takes effect only with
/// its sync: the new tree and its image to write, or, when the sync
/// fails, `v` unchanged and the reason.
pub open spec fn commit_spec(v: FsView, root: Tree) -> (FsView, Result<(), &'static str>) {
    match sync_spec(root) {
        Ok(img) => (FsView { root, pending: Some(img), ..v }, Ok(())),
        Err(e) => (v, Err(e)),
    }
}

/// Recording the sync of the current tree, or the reason it failed.
pub open spec fn persist_spec(v: FsView) -> (FsView, Result<(), &'static str>) {
    commit_spec(v, v.root)
}

pub open spec fn with_root(v: FsView, root: Tree) -> FsView {
    FsView { root, ..v }
}

/// Adds an entry named `name` holding `node` to the working directory.
pub open spec fn create_spec(v: FsView, name: Seq<char>, node: Tree) -> (
    FsView,
    Result<(), &'static str>,
) {
    if name_error(name) is Some {
        (v, Err(name_error(name)->0))
    } else {
        match children_at(v.root, v.cwd) {
            Err(e) => (v, Err(e)),
            Ok(cs) => if find_name(cs, name) is Some {
                (v, Err("file or directory already exists"))
            } else {
                commit_spec(v, set_at(v.root, v.cwd, Tree::Dir(cs.push((name, node)))))
            },
        }
    }
}

pub open spec fn touch_spec(v: FsView, name: Seq<char>) -> (FsView, Result<(), &'static str>) {
    create_spec(v, name, Tree::File(Seq::empty()))
}

pub open spec fn mkdir_spec(v: FsView, name: Seq<char>) -> (FsView, Result<(), &'static str>) {
    create_spec(v, name, empty_dir())
}

/// The content of the file named `name` among `cs`.
pub open spec fn file_in(cs: Seq<(Seq<char>, Tree)>, name: Seq<char>) -> Result<
    Seq<char>,
    &'static str,
> {
    match find_name(cs, name) {
        Some(i) => match cs[i].1 {
            Tree::File(c) => Ok(c),
            Tree::Dir(_) => Err("is a directory"),
        },
        None => Err("file not found"),
    }
}

pub open spec fn read_file_spec(v: FsView, name: Seq<char>) -> Result<Seq<char>, &'static str> {
    if name_error(name) is Some {
        Err(name_error(name)->0)
    } else {
        match children_at(v.root, v.cwd) {
            Err(e) => Err(e),
            Ok(cs) => file_in(cs, name),
        }
    }
}

pub open spec fn read_at_path_spec(v: FsView, path: Seq<char>) -> Result<Seq<char>, &'static str> {
    let parts = split_path_spec(path);
    if parts.len() == 0 {
        Err("path required")
    } else if name_error(parts.last()) is Some {
        Err(name_error(parts.last())->0)
    } else {
        match children_at(v.root, parts.drop_last()) {
            Err(e) => Err(e),
            Ok(cs) => file_in(cs, parts.last()),
        }
    }
}

/// Writing `text` to the file `name` in `cs`, the directory at `dir` of
/// `root` (the tree the write starts from): an existing file is
/// overwritten, a missing one appended.  It takes effect only with its
/// sync; on any failure the state stays `v`.
pub open spec fn write_into(
    v: FsView,
    root: Tree,
    dir: Seq<Seq<char>>,
    cs: Seq<(Seq<char>, Tree)>,
    name: Seq<char>,
    text: Seq<char>,
) -> (FsView, Result<(), &'static str>) {
    match find_name(cs, name) {
        Some(i) => match cs[i].1 {
            Tree::File(_) => commit_spec(
                v,
                set_at(root, dir, Tree::Dir(cs.update(i, (name, Tree::File(text))))),
            ),
            Tree::Dir(_) => (v, Err("is a directory")),
        },
        None => commit_spec(v, set_at(root, dir, Tree::Dir(cs.push((name, Tree::File(text)))))),
    }
}

pub open spec fn write_file_spec(v: FsView, name: Seq<char>, text: Seq<char>) -> (
    FsView,
    Result<(), &'static str>,
) {
    if name_error(name) is Some {
        (v, Err(name_error(name)->0))
    } else {
        match children_at(v.root, v.cwd) {
            Err(e) => (v, Err(e)),
            Ok(cs) => write_into(v, v.root, v.cwd, cs, name, text),
        }
    }
}

/// `t` with every directory along `path` present: missing ones are
/// appended empty, and a file in the way is a conflict.
pub open spec fn ensure_chain(t: Tree, path: Seq<Seq<char>>) -> Result<Tree, &'static str>
    decreases path.len(),
{
    if path.len() == 0 {
        Ok(t)
    } else {
        match t {
            Tree::File(_) => Err("path conflict"),
            Tree::Dir(cs) => {
                let cs2 = match find_name(cs, path[0]) {
                    Some(_) => cs,
                    None => cs.push((path[0], empty_dir())),
                };
                let i = match find_name(cs, path[0]) {
                    Some(i) => i,
                    None => cs.len() as int,
                };
                match ensure_chain(cs2[i].1, path.drop_first()) {
                    Ok(c) => Ok(Tree::Dir(cs2.update(i, (path[0], c)))),
                    Err(e) => Err(e),
                }
            },
        }
    }
}

pub open spec fn write_at_path_spec(v: FsView, path: Seq<char>, text: Seq<char>) -> (
    FsView,
    Result<(), &'static str>,
) {
    let parts = split_path_spec(path);
    if parts.len() == 0 {
        (v, Err("path required"))
    } else if name_error(parts.last()) is Some {
        (v, Err(name_error(parts.last())->0))
    } else if parts.len() == 1 {
        write_file_spec(v, parts.last(), text)
    } else {
        let parent = parts.drop_last();
        match ensure_chain(v.root, parent) {
            Err(e) => (v, Err(e)),
            Ok(root2) => match children_at(root2, parent) {
                Err(e) => (v, Err(e)),
                Ok(cs) => write_into(v, root2, parent, cs, parts.last(), text),
            },
        }
    }
}

pub open spec fn list_dir_spec(v: FsView) -> Result<Seq<Seq<char>>, &'static str> {
    match children_at(v.root, v.cwd) {
        Ok(cs) => Ok(listing(cs)),
        Err(e) => Err(e),
    }
}

pub open spec fn list_at_path_spec(v: FsView, path: Seq<char>) -> Result<
    Seq<Seq<char>>,
    &'static str,
> {
    match children_at(v.root, split_path_spec(path)) {
        Ok(cs) => Ok(listing(cs)),
        Err(e) => Err(e),
    }
}

/// The names of all entries, each directory's entries in order, an entry
/// directly followed by what it contains.
pub open spec fn names_of(t: Tree) -> Seq<Seq<char>>
    decreases t,
{
    match t {
        Tree::File(_) => Seq::empty(),
        Tree::Dir(cs) => names_in(cs),
    }
}

pub open spec fn names_in(cs: Seq<(Seq<char>, Tree)>) -> Seq<Seq<char>>
    decreases cs,
{
    if cs.len() == 0 {
        Seq::empty()
    } else {
        names_in(cs.drop_last()) + seq![cs.last().0] + names_of(cs.last().1)
    }
}

/// The names in `ns` that start with `prefix`, in order.
pub open spec fn with_prefix(ns: Seq<Seq<char>>, prefix: Seq<char>) -> Seq<Seq<char>>
    decreases ns.len(),
{
    if ns.len() == 0 {
        Seq::empty()
    } else {
        let r = with_prefix(ns.drop_last(), prefix);
        if prefix.is_prefix_of(ns.last()) {
            r.push(ns.last())
        } else {
            r
        }
    }
}

/// The tree a filesystem starts from: the mounted tree when it is a
/// directory, an empty one otherwise.
pub open spec fn initial_root(mounted: Result<Tree, &'static str>) -> Tree {
    match mounted {
        Ok(Tree::Dir(cs)) => Tree::Dir(cs),
        _ => empty_dir(),
    }
}

// ---------------------------------------------------------------------
// Facts about paths

proof fn lemma_lookup_split(t: Tree, path: Seq<Seq<char>>, k: int)
    requires
        0 <= k <= path.len(),
    ensures
        lookup(t, path) == match lookup(t, path.take(k)) {
            Ok(s) => lookup(s, path.skip(k)),
            Err(e) => Err(e),
        },
    decreases k,
{
    if k == 0 {
        assert(path.take(0) =~= Seq::<Seq<char>>::empty());
        assert(path.skip(0) =~= path);
    } else {
        assert(path.take(k)[0] == path[0]);
        assert(path.take(k).drop_first() =~= path.drop_first().take(k - 1));
        assert(path.skip(k) =~= path.drop_first().skip(k - 1));
        match t {
            Tree::File(_) => {},
            Tree::Dir(cs) => match find_name(cs, path[0]) {
                Some(i) => lemma_lookup_split(cs[i].1, path.drop_first(), k - 1),
                None => {},
            },
        }
    }
}

proof fn lemma_ensure_chain_empty(path: Seq<Seq<char>>)
    ensures
        ensure_chain(empty_dir(), path) is Ok,
    decreases path.len(),
{
    if path.len() > 0 {
        lemma_ensure_chain_empty(path.drop_first());
        let cs = Seq::<(Seq<char>, Tree)>::empty();
        assert(find_name(cs, path[0]) is None);
        assert(cs.push((path[0], empty_dir()))[0].1 == empty_dir());
    }
}

proof fn lemma_entries_update(cs: Seq<(String, Entry)>, p: int, x: (String, Entry))
    requires
        0 <= p < cs.len(),
    ensures
        entries_trees(cs.update(p, x)) == entries_trees(cs).update(p, (x.0@, entry_tree(x.1))),
{
    assert(entries_trees(cs.update(p, x)) =~= entries_trees(cs).update(p, (x.0@, entry_tree(x.1))));
}

proof fn lemma_entries_push(cs: Seq<(String, Entry)>, x: (String, Entry))
    ensures
        entries_trees(cs.push(x)) == entries_trees(cs).push((x.0@, entry_tree(x.1))),
{
    assert(entries_trees(cs.push(x)) =~= entries_trees(cs).push((x.0@, entry_tree(x.1))));
}

// ---------------------------------------------------------------------
// Entries

fn empty_entry() -> (r: Entry)
    ensures
        entry_tree(r) == empty_dir(),
{
    let children: Vec<(String, Entry)> = Vec::new();
    assert(entries_trees(children@) =~= Seq::empty());
    Entry::Dir { children }
}

/// Index of the first entry named `name`.
fn find_entry(children: &Vec<(String, Entry)>, name: &str) -> (r: Option<usize>)
    ensures
        find_name(entries_trees(children@), name@) == match r {
            Some(p) => Some(p as int),
            None => None::<int>,
        },
{
    let ghost ts = entries_trees(children@);
    let mut j: usize = 0;
    while j < children.len()
        invariant
            j <= children@.len(),
            ts == entries_trees(children@),
            forall|k: int| 0 <= k < j ==> ts[k].0 != name@,
        decreases children@.len() - j,
    {
        if text::str_eq(children[j].0.as_str(), name) {
            proof {
                lemma_find_name_is(ts, name@, Some(j as int));
            }
            return Some(j);
        }
        j = j + 1;
    }
    proof {
        lemma_find_name_is(ts, name@, None);
    }
    None
}

/// The entry named `name` inside the directory `node`.
fn find_child<'a>(node: &'a Entry, name: &str) -> (r: Result<&'a Entry, &'static str>)
    ensures
        match lookup(entry_tree(*node), seq![name@]) {
            Ok(s) => r is Ok && entry_tree(*r->Ok_0) == s,
            Err(e) => r == Err::<&Entry, &'static str>(e),
        },
{
    reveal_with_fuel(lookup, 2);
    assert(seq![name@].drop_first() =~= Seq::<Seq<char>>::empty());
    match node {
        Entry::Dir { children } => {
            let pos = find_entry(children, name);
            proof {
                lemma_find_name(entries_trees(children@), name@);
            }
            match pos {
                Some(p) => Ok(&children[p].1),
                None => Err("directory not found"),
            }
        },
        Entry::File { .. } => Err("not a directory"),
    }
}

fn validate_name(name: &str) -> (r: Result<(), &'static str>)
    ensures
        match name_error(name@) {
            Some(e) => r == Err::<(), &'static str>(e),
            None => r is Ok,
        },
{
    if name.is_empty() {
        return Err("name required");
    }
    if text::contains_char(name, '/') || text::contains_char(name, '\\') {
        return Err("invalid name");
    }
    Ok(())
}

/// The names along `path`, as `split_path_spec` describes.
fn split_path(path: &str) -> (r: Vec<String>)
    ensures
        strings_view(r@) == split_path_spec(path@),
{
    let trimmed = text::trim(path);
    let stripped = text::trim_start_char(trimmed, '/');
    let pieces = tuwaiqfs::path_pieces(stripped);
    let mut parts: Vec<String> = Vec::new();
    let mut i: usize = 0;
    while i < pieces.len()
        invariant
            i <= pieces@.len(),
            strings_view(parts@) == tuwaiqfs::strs_view(pieces@).take(i as int),
        decreases pieces@.len() - i,
    {
        let piece_ref: &str = pieces[i];
        let piece = piece_ref.to_owned();
        let ghost sv = tuwaiqfs::strs_view(pieces@);
        assert(piece@ == sv[i as int]);
        let ghost before = parts@;
        assert(strings_view(before).len() == before.len());
        assert(sv.take(i as int).len() == i);
        assert(before.len() == i);
        parts.push(piece);
        assert forall|j: int| 0 <= j < i + 1 implies #[trigger] strings_view(parts@)[j] == sv.take(
            i + 1,
        )[j] by {
            if j < i {
                assert(parts@[j] == before[j]);
                assert(strings_view(before)[j] == sv.take(i as int)[j]);
            }
        }
        assert(strings_view(parts@) =~= sv.take(i + 1));
        i = i + 1;
    }
    assert(tuwaiqfs::strs_view(pieces@).take(pieces@.len() as int) =~= tuwaiqfs::strs_view(
        pieces@,
    ));
    parts
}

/// Takes the entries of the directory at `path[i..]` out of `node`,
/// leaving it empty there.
fn take_children(node: &mut Entry, path: &[String], i: usize) -> (r: Result<
    Vec<(String, Entry)>,
    &'static str,
>)
    requires
        i <= path@.len(),
    ensures
        ({
            let p = strings_view(path@).skip(i as int);
            match children_at(entry_tree(*old(node)), p) {
                Ok(cs) => r is Ok && entries_trees(r->Ok_0@) == cs && entry_tree(*final(node))
                    == set_at(entry_tree(*old(node)), p, empty_dir()),
                Err(e) => r == Err::<Vec<(String, Entry)>, &'static str>(e) && entry_tree(
                    *final(node),
                ) == entry_tree(*old(node)),
            }
        }),
    decreases path@.len() - i,
{
    let ghost p = strings_view(path@).skip(i as int);
    let ghost before = entry_tree(*node);
    let mut cur = empty_entry();
    std::mem::swap(&mut cur, node);
    match cur {
        Entry::File { content } => {
            *node = Entry::File { content };
            if i == path.len() {
                assert(p.len() == 0);
            }
            Err("not a directory")
        },
        Entry::Dir { mut children } => {
            if i == path.len() {
                assert(p =~= Seq::<Seq<char>>::empty());
                *node = empty_entry();
                return Ok(children);
            }
            let ghost cs = entries_trees(children@);
            let ghost orig = children@;
            assert(p[0] == path@[i as int]@);
            assert(p.drop_first() =~= strings_view(path@).skip(i + 1));
            let pos = find_entry(&children, path[i].as_str());
            proof {
                lemma_find_name(cs, p[0]);
            }
            match pos {
                None => {
                    *node = Entry::Dir { children };
                    Err("directory not found")
                },
                Some(k) => {
                    let (n, mut child) = children.remove(k);
                    let r = take_children(&mut child, path, i + 1);
                    children.insert(k, (n, child));
                    proof {
                        assert(children@ =~= orig.update(k as int, (n, child)));
                        lemma_entries_update(orig, k as int, (n, child));
                        if r is Err {
                            assert(entries_trees(children@) =~= cs);
                        }
                    }
                    *node = Entry::Dir { children };
                    r
                },
            }
        },
    }
}

/// Puts `kids` back as the entries of the directory at `path[i..]`.
fn put_children(node: &mut Entry, path: &[String], i: usize, kids: Vec<(String, Entry)>)
    requires
        i <= path@.len(),
        children_at(entry_tree(*old(node)), strings_view(path@).skip(i as int)) is Ok,
    ensures
        entry_tree(*final(node)) == set_at(
            entry_tree(*old(node)),
            strings_view(path@).skip(i as int),
            Tree::Dir(entries_trees(kids@)),
        ),
    decreases path@.len() - i,
{
    let ghost p = strings_view(path@).skip(i as int);
    if i == path.len() {
        assert(p =~= Seq::<Seq<char>>::empty());
        *node = Entry::Dir { children: kids };
        return;
    }
    let mut cur = empty_entry();
    std::mem::swap(&mut cur, node);
    match cur {
        Entry::File { content } => {
            *node = Entry::File { content };
        },
        Entry::Dir { mut children } => {
            let ghost cs = entries_trees(children@);
            let ghost orig = children@;
            assert(p[0] == path@[i as int]@);
            assert(p.drop_first() =~= strings_view(path@).skip(i + 1));
            let pos = find_entry(&children, path[i].as_str());
            proof {
                lemma_find_name(cs, p[0]);
            }
            match pos {
                None => {
                    *node = Entry::Dir { children };
                },
                Some(k) => {
                    let (n, mut child) = children.remove(k);
                    put_children(&mut child, path, i + 1, kids);
                    children.insert(k, (n, child));
                    proof {
                        assert(children@ =~= orig.update(k as int, (n, child)));
                        lemma_entries_update(orig, k as int, (n, child));
                    }
                    *node = Entry::Dir { children };
                },
            }
        },
    }
}

/// Creates every missing directory along `path[i..]`.
fn ensure_dir_chain(node: &mut Entry, path: &[String], i: usize) -> (r: Result<(), &'static str>)
    requires
        i <= path@.len(),
    ensures
        match ensure_chain(entry_tree(*old(node)), strings_view(path@).skip(i as int)) {
            Ok(t) => r is Ok && entry_tree(*final(node)) == t,
            Err(e) => r == Err::<(), &'static str>(e) && entry_tree(*final(node)) == entry_tree(
                *old(node),
            ),
        },
    decreases path@.len() - i,
{
    let ghost p = strings_view(path@).skip(i as int);
    if i == path.len() {
        assert(p =~= Seq::<Seq<char>>::empty());
        return Ok(());
    }
    let mut cur = empty_entry();
    std::mem::swap(&mut cur, node);
    match cur {
        Entry::File { content } => {
            *node = Entry::File { content };
            Err("path conflict")
        },
        Entry::Dir { mut children } => {
            let ghost cs = entries_trees(children@);
            let ghost orig = children@;
            assert(p[0] == path@[i as int]@);
            assert(p.drop_first() =~= strings_view(path@).skip(i + 1));
            let pos = find_entry(&children, path[i].as_str());
            proof {
                lemma_find_name(cs, p[0]);
            }
            let k = match pos {
                Some(k) => k,
                None => {
                    let fresh = empty_entry();
                    let name = path[i].clone();
                    children.push((name, fresh));
                    proof {
                        lemma_entries_push(orig, (name, fresh));
                        lemma_ensure_chain_empty(p.drop_first());
                    }
                    children.len() - 1
                },
            };
            let ghost mid = children@;
            let ghost cs2 = entries_trees(mid);
            let (n, mut child) = children.remove(k);
            assert(cs2[k as int].1 == entry_tree(child));
            let r = ensure_dir_chain(&mut child, path, i + 1);
            children.insert(k, (n, child));
            proof {
                assert(children@ =~= mid.update(k as int, (n, child)));
                lemma_entries_update(mid, k as int, (n, child));
                if r is Err {
                    assert(pos is Some);
                    assert(entries_trees(children@) =~= cs);
                }
            }
            *node = Entry::Dir { children };
            r
        },
    }
}

// ---------------------------------------------------------------------
// Conversions to and from the on-disk node

fn from_fs_node(node: FsNode) -> (r: Entry)
    ensures
        entry_tree(r) == node@,
    decreases node,
{
    let ghost whole = node;
    match node {
        FsNode::File { content } => Entry::File { content },
        FsNode::Dir { children } => {
            let ghost orig = children@;
            let ghost ts = tuwaiqfs::children_trees(orig);
            let mut rest = children;
            let total = rest.len();
            let mut entries: Vec<(String, Entry)> = Vec::new();
            let mut k: usize = 0;
            assert(rest@ =~= orig.skip(0));
            assert(entries_trees(entries@) =~= ts.take(0));
            while rest.len() > 0
                invariant
                    k <= orig.len(),
                    rest@ == orig.skip(k as int),
                    entries_trees(entries@) == ts.take(k as int),
                    ts == tuwaiqfs::children_trees(orig),
                    whole is Dir,
                    whole == node,
                    whole->children@ == orig,
                    orig.len() == total,
                decreases rest@.len(),
            {
                let (name, child) = rest.remove(0);
                assert(orig[k as int] == (name, child));
                assert(decreases_to!(whole => whole->children));
                assert(decreases_to!(whole->children => (whole->children)@));
                assert(decreases_to!((whole->children)@ => (whole->children)@[k as int]));
                assert(decreases_to!((whole->children)@[k as int] => (whole->children)@[k as int].1));
                assert(child == (whole->children)@[k as int].1);
                assert(decreases_to!(whole => child));
                let e = from_fs_node(child);
                let ghost before = entries@;
                entries.push((name, e));
                proof {
                    lemma_entries_push(before, (name, e));
                    assert(ts.take(k + 1) =~= ts.take(k as int).push(ts[k as int]));
                    assert(orig.skip(k + 1) =~= orig.skip(k as int).remove(0));
                }
                k = k + 1;
            }
            assert(ts.take(k as int) =~= ts);
            Entry::Dir { children: entries }
        },
    }
}

fn to_fs_node(entry: &Entry) -> (r: FsNode)
    ensures
        r@ == entry_tree(*entry),
    decreases entry,
{
    match entry {
        Entry::File { content } => FsNode::File { content: content.clone() },
        Entry::Dir { children } => {
            let ghost ts = entries_trees(children@);
            let mut nodes: Vec<(String, FsNode)> = Vec::new();
            let mut i: usize = 0;
            assert(tuwaiqfs::children_trees(nodes@) =~= ts.take(0));
            while i < children.len()
                invariant
                    i <= children@.len(),
                    ts == entries_trees(children@),
                    tuwaiqfs::children_trees(nodes@) == ts.take(i as int),
                    entry->children == *children,
                    *entry is Dir,
                decreases children@.len() - i,
            {
                let item = &children[i];
                proof {
                    assert(children@[i as int] == *item);
                    assert(decreases_to!(*entry => entry->children));
                    assert(decreases_to!(entry->children => (entry->children)@));
                    assert(decreases_to!(children@ => children@[i as int]));
                    assert(decreases_to!(children@[i as int] => children@[i as int].1));
                }
                let n = to_fs_node(&item.1);
                let name = item.0.clone();
                let ghost before = nodes@;
                nodes.push((name, n));
                proof {
                    tuwaiqfs::lemma_children_push(before, (name, n));
                    assert(ts.take(i + 1) =~= ts.take(i as int).push(ts[i as int]));
                }
                i = i + 1;
            }
            assert(ts.take(children@.len() as int) =~= ts);
            FsNode::Dir { children: nodes }
        },
    }
}

fn collect_names(entry: &Entry, out: &mut Vec<String>)
    ensures
        strings_view(final(out)@) == strings_view(old(out)@) + names_of(entry_tree(*entry)),
    decreases entry,
{
    match entry {
        Entry::File { .. } => {
            assert(strings_view(out@) =~= strings_view(out@) + Seq::<Seq<char>>::empty());
        },
        Entry::Dir { children } => {
            let ghost ts = entries_trees(children@);
            let ghost start = strings_view(out@);
            let mut i: usize = 0;
            assert(start =~= start + names_in(ts.take(0)));
            while i < children.len()
                invariant
                    i <= children@.len(),
                    ts == entries_trees(children@),
                    strings_view(out@) == start + names_in(ts.take(i as int)),
                    start == strings_view(old(out)@),
                    entry->children == *children,
                    *entry is Dir,
                decreases children@.len() - i,
            {
                let item = &children[i];
                proof {
                    assert(children@[i as int] == *item);
                    assert(decreases_to!(*entry => entry->children));
                    assert(decreases_to!(entry->children => (entry->children)@));
                    assert(decreases_to!(children@ => children@[i as int]));
                    assert(decreases_to!(children@[i as int] => children@[i as int].1));
                }
                let ghost before = strings_view(out@);
                let name = item.0.clone();
                out.push(name);
                assert(strings_view(out@) =~= before.push(name@));
                collect_names(&item.1, out);
                proof {
                    let t = ts.take(i + 1);
                    assert(t.drop_last() =~= ts.take(i as int));
                    assert(t.last() == ts[i as int]);
                    assert(strings_view(out@) =~= start + names_in(t));
                }
                i = i + 1;
            }
            assert(ts.take(children@.len() as int) =~= ts);
        },
    }
}

// ---------------------------------------------------------------------
// The filesystem

fn list_entries(children: &Vec<(String, Entry)>) -> (r: Vec<String>)
    ensures
        strings_view(r@) == listing(entries_trees(children@)),
{
    let ghost ts = entries_trees(children@);
    let mut names: Vec<String> = Vec::new();
    let mut i: usize = 0;
    while i < children.len()
        invariant
            i <= children@.len(),
            ts == entries_trees(children@),
            strings_view(names@) == listing(ts).take(i as int),
        decreases children@.len() - i,
    {
        let item = &children[i];
        let mut line = item.0.clone();
        match &item.1 {
            Entry::Dir { .. } => {
                proof {
                    reveal_strlit("/");
                }
                line.append("/");
            },
            Entry::File { .. } => {},
        }
        assert(line@ == entry_label(ts[i as int]));
        let ghost before = names@;
        assert(strings_view(before).len() == before.len());
        assert(listing(ts).take(i as int).len() == i);
        names.push(line);
        assert forall|j: int| 0 <= j < i + 1 implies #[trigger] strings_view(names@)[j] == listing(
            ts,
        ).take(i + 1)[j] by {
            if j < i {
                assert(names@[j] == before[j]);
                assert(strings_view(before)[j] == listing(ts).take(i as int)[j]);
            }
        }
        assert(strings_view(names@) =~= listing(ts).take(i + 1));
        i = i + 1;
    }
    assert(listing(ts).take(children@.len() as int) =~= listing(ts));
    names
}

/// The content of the first file named `name` among `children`.
fn file_in_entries(children: &Vec<(String, Entry)>, name: &str) -> (r: Result<String, &'static str>)
    ensures
        result_string(r) == file_in(entries_trees(children@), name@),
{
    let pos = find_entry(children, name);
    proof {
        lemma_find_name(entries_trees(children@), name@);
    }
    match pos {
        Some(p) => match &children[p].1 {
            Entry::File { content } => Ok(content.clone()),
            Entry::Dir { .. } => Err("is a directory"),
        },
        None => Err("file not found"),
    }
}

impl FileSystem {
    fn pwd(&self) -> (r: String)
        ensures
            r@ == pwd_spec(self@.cwd),
    {
        let ghost cwd = self@.cwd;
        let mut path = String::new();
        proof {
            reveal_strlit("/");
        }
        path.append("/");
        let mut i: usize = 0;
        assert(path@ =~= seq!['/'] + tuwaiqfs::roundtrip::join_names(cwd.take(0)));
        while i < self.cwd.len()
            invariant
                i <= self.cwd@.len(),
                cwd == strings_view(self.cwd@),
                path@ == seq!['/'] + tuwaiqfs::roundtrip::join_names(cwd.take(i as int)),
            decreases self.cwd@.len() - i,
        {
            proof {
                reveal_strlit("/");
            }
            let ghost t = cwd.take(i + 1);
            let ghost before = path@;
            assert(t.drop_last() =~= cwd.take(i as int));
            assert(t.last() == self.cwd@[i as int]@);
            if i > 0 {
                path.append("/");
            } else {
                assert(t =~= seq![t.last()]);
            }
            path.append(self.cwd[i].as_str());
            if i > 0 {
                assert(t.len() > 1);
                assert(tuwaiqfs::roundtrip::join_names(t) == tuwaiqfs::roundtrip::join_names(
                    t.drop_last(),
                ) + seq!['/'] + t.last());
            }
            assert(path@ =~= seq!['/'] + tuwaiqfs::roundtrip::join_names(t));
            i = i + 1;
        }
        assert(cwd.take(self.cwd@.len() as int) =~= cwd);
        path
    }

    /// The entries of the directory at `path`.
    fn children_at(&self, path: &[String]) -> (r: Result<&Vec<(String, Entry)>, &'static str>)
        ensures
            match children_at(self@.root, strings_view(path@)) {
                Ok(cs) => r is Ok && entries_trees(r->Ok_0@) == cs,
                Err(e) => r == Err::<&Vec<(String, Entry)>, &'static str>(e),
            },
    {
        let ghost p = strings_view(path@);
        let ghost root = self@.root;
        let mut node: &Entry = &self.root;
        let mut i: usize = 0;
        assert(p.take(0) =~= Seq::<Seq<char>>::empty());
        while i < path.len()
            invariant
                i <= path@.len(),
                p == strings_view(path@),
                root == self@.root,
                lookup(root, p.take(i as int)) == Ok::<Tree, &'static str>(entry_tree(*node)),
            decreases path@.len() - i,
        {
            proof {
                lemma_lookup_split(root, p.take(i + 1), i as int);
                assert(p.take(i + 1).take(i as int) =~= p.take(i as int));
                assert(p.take(i + 1).skip(i as int) =~= seq![path@[i as int]@]);
            }
            match find_child(node, path[i].as_str()) {
                Ok(child) => {
                    node = child;
                },
                Err(e) => {
                    proof {
                        lemma_lookup_split(root, p, i + 1);
                    }
                    return Err(e);
                },
            }
            i = i + 1;
        }
        assert(p.take(path@.len() as int) =~= p);
        match node {
            Entry::Dir { children } => Ok(children),
            Entry::File { .. } => Err("not a directory"),
        }
    }

    fn list_dir(&self) -> (r: Result<Vec<String>, &'static str>)
        ensures
            result_strings(r) == list_dir_spec(self@),
    {
        match self.children_at(self.cwd.as_slice()) {
            Ok(children) => Ok(list_entries(children)),
            Err(e) => Err(e),
        }
    }

    fn list_at_path(&self, path: &str) -> (r: Result<Vec<String>, &'static str>)
        ensures
            result_strings(r) == list_at_path_spec(self@, path@),
    {
        let parts = split_path(path);
        match self.children_at(parts.as_slice()) {
            Ok(children) => Ok(list_entries(children)),
            Err(e) => Err(e),
        }
    }

    fn read_file(&self, name: &str) -> (r: Result<String, &'static str>)
        ensures
            result_string(r) == read_file_spec(self@, name@),
    {
        match validate_name(name) {
            Ok(()) => {},
            Err(e) => return Err(e),
        }
        match self.children_at(self.cwd.as_slice()) {
            Ok(children) => file_in_entries(children, name),
            Err(e) => Err(e),
        }
    }

    fn read_at_path(&self, path: &str) -> (r: Result<String, &'static str>)
        ensures
            result_string(r) == read_at_path_spec(self@, path@),
    {
        let parts = split_path(path);
        if parts.len() == 0 {
            return Err("path required");
        }
        let last = parts.len() - 1;
        let file_name = parts[last].as_str();
        assert(file_name@ == split_path_spec(path@).last());
        match validate_name(file_name) {
            Ok(()) => {},
            Err(e) => return Err(e),
        }
        let parent = &parts.as_slice()[0..last];
        assert(strings_view(parent@) =~= split_path_spec(path@).drop_last());
        match self.children_at(parent) {
            Ok(children) => file_in_entries(children, file_name),
            Err(e) => Err(e),
        }
    }

    /// Records the sync of the current tree.
    fn persist(&mut self) -> (r: Result<(), &'static str>)
        ensures
            (final(self)@, r) == persist_spec(old(self)@),
    {
        let node = to_fs_node(&self.root);
        match tuwaiqfs::sync_tree(&node) {
            Ok(image) => {
                self.pending = Some(image);
                Ok(())
            },
            Err(e) => Err(e),
        }
    }

    /// Lets a change of the tree, from `before` to the current one, take
    /// effect: records its sync, or puts `before` back when the sync fails.
    fn commit(&mut self, before: FsNode) -> (r: Result<(), &'static str>)
        ensures
            (final(self)@, r) == commit_spec(with_root(old(self)@, before@), old(self)@.root),
    {
        let node = to_fs_node(&self.root);
        match tuwaiqfs::sync_tree(&node) {
            Ok(image) => {
                self.pending = Some(image);
                Ok(())
            },
            Err(e) => {
                self.root = from_fs_node(before);
                Err(e)
            },
        }
    }

    /// Adds `node` named `name` to the working directory.
    fn create(&mut self, name: &str, node: Entry) -> (r: Result<(), &'static str>)
        ensures
            (final(self)@, r) == create_spec(old(self)@, name@, entry_tree(node)),
    {
        match validate_name(name) {
            Ok(()) => {},
            Err(e) => return Err(e),
        }
        let ghost v = self@;
        let before = to_fs_node(&self.root);
        let ghost cwd = strings_view(self.cwd@);
        assert(strings_view(self.cwd@).skip(0) =~= cwd);
        let mut children = match take_children(&mut self.root, self.cwd.as_slice(), 0) {
            Ok(c) => c,
            Err(e) => return Err(e),
        };
        let ghost cs = entries_trees(children@);
        proof {
            lemma_lookup_set_at(v.root, cwd, empty_dir());
        }
        if find_entry(&children, name).is_some() {
            put_children(&mut self.root, self.cwd.as_slice(), 0, children);
            proof {
                lemma_set_at_twice(v.root, cwd, empty_dir(), Tree::Dir(cs));
                lemma_set_at_same(v.root, cwd, Tree::Dir(cs));
            }
            return Err("file or directory already exists");
        }
        let ghost item = (name@, entry_tree(node));
        let owned = name.to_owned();
        proof {
            lemma_entries_push(children@, (owned, node));
        }
        children.push((owned, node));
        put_children(&mut self.root, self.cwd.as_slice(), 0, children);
        proof {
            lemma_set_at_twice(v.root, cwd, empty_dir(), Tree::Dir(cs.push(item)));
            assert(with_root(self@, before@) == v);
        }
        self.commit(before)
    }

    fn touch(&mut self, name: &str) -> (r: Result<(), &'static str>)
        ensures
            (final(self)@, r) == touch_spec(old(self)@, name@),
    {
        let content = String::new();
        let node = Entry::File { content };
        self.create(name, node)
    }

    fn mkdir(&mut self, name: &str) -> (r: Result<(), &'static str>)
        ensures
            (final(self)@, r) == mkdir_spec(old(self)@, name@),
    {
        self.create(name, empty_entry())
    }

    /// Writes `text` to the file `name` in the directory at `dir`.
    fn write_in_dir(&mut self, before: FsNode, dir: &[String], name: &str, text: &str) -> (r: Result<
        (),
        &'static str,
    >)
        requires
            children_at(old(self)@.root, strings_view(dir@)) is Ok,
        ensures
            (final(self)@, r) == write_into(
                with_root(old(self)@, before@),
                old(self)@.root,
                strings_view(dir@),
                children_at(old(self)@.root, strings_view(dir@))->Ok_0,
                name@,
                text@,
            ),
    {
        let ghost v = self@;
        let ghost d = strings_view(dir@);
        assert(strings_view(dir@).skip(0) =~= d);
        let mut children = match take_children(&mut self.root, dir, 0) {
            Ok(c) => c,
            Err(e) => return Err(e),
        };
        let ghost cs = entries_trees(children@);
        let ghost orig = children@;
        proof {
            lemma_lookup_set_at(v.root, d, empty_dir());
            lemma_find_name(cs, name@);
        }
        match find_entry(&children, name) {
            Some(p) => {
                let is_file = match &children[p].1 {
                    Entry::File { .. } => true,
                    Entry::Dir { .. } => false,
                };
                if !is_file {
                    put_children(&mut self.root, dir, 0, children);
                    self.root = from_fs_node(before);
                    return Err("is a directory");
                }
                let (n, _previous) = children.remove(p);
                let content = text.to_owned();
                let file = Entry::File { content };
                children.insert(p, (n, file));
                proof {
                    assert(children@ =~= orig.update(p as int, (n, file)));
                    lemma_entries_update(orig, p as int, (n, file));
                }
                put_children(&mut self.root, dir, 0, children);
                proof {
                    lemma_set_at_twice(
                        v.root,
                        d,
                        empty_dir(),
                        Tree::Dir(cs.update(p as int, (name@, Tree::File(text@)))),
                    );
                }
                self.commit(before)
            },
            None => {
                let content = text.to_owned();
                let file = Entry::File { content };
                let owned = name.to_owned();
                proof {
                    lemma_entries_push(orig, (owned, file));
                }
                children.push((owned, file));
                put_children(&mut self.root, dir, 0, children);
                proof {
                    lemma_set_at_twice(
                        v.root,
                        d,
                        empty_dir(),
                        Tree::Dir(cs.push((name@, Tree::File(text@)))),
                    );
                }
                self.commit(before)
            },
        }
    }

    fn write_file(&mut self, name: &str, text: &str) -> (r: Result<(), &'static str>)
        ensures
            (final(self)@, r) == write_file_spec(old(self)@, name@, text@),
    {
        match validate_name(name) {
            Ok(()) => {},
            Err(e) => return Err(e),
        }
        let cwd = clone_strings(&self.cwd);
        match self.children_at(cwd.as_slice()) {
            Ok(_) => {},
            Err(e) => return Err(e),
        }
        let before = to_fs_node(&self.root);
        assert(with_root(self@, before@) == self@);
        self.write_in_dir(before, cwd.as_slice(), name, text)
    }

    fn write_at_path(&mut self, path: &str, text: &str) -> (r: Result<(), &'static str>)
        ensures
            (final(self)@, r) == write_at_path_spec(old(self)@, path@, text@),
    {
        let parts = split_path(path);
        if parts.len() == 0 {
            return Err("path required");
        }
        let last = parts.len() - 1;
        let file_name = parts[last].as_str();
        assert(file_name@ == split_path_spec(path@).last());
        match validate_name(file_name) {
            Ok(()) => {},
            Err(e) => return Err(e),
        }
        if last == 0 {
            return self.write_file(file_name, text);
        }
        let parent = &parts.as_slice()[0..last];
        assert(strings_view(parent@) =~= split_path_spec(path@).drop_last());
        assert(strings_view(parent@).skip(0) =~= strings_view(parent@));
        let ghost v = self@;
        let before = to_fs_node(&self.root);
        match ensure_dir_chain(&mut self.root, parent, 0) {
            Ok(()) => {},
            Err(e) => return Err(e),
        }
        match self.children_at(parent) {
            Ok(_) => {},
            Err(e) => {
                self.root = from_fs_node(before);
                return Err(e);
            },
        }
        assert(with_root(self@, before@) == v);
        self.write_in_dir(before, parent, file_name, text)
    }

    fn all_entry_names(&self) -> (r: Vec<String>)
        ensures
            strings_view(r@) == names_of(self@.root),
    {
        let mut names: Vec<String> = Vec::new();
        assert(strings_view(names@) =~= Seq::empty());
        collect_names(&self.root, &mut names);
        assert(Seq::<Seq<char>>::empty() + names_of(self@.root) =~= names_of(self@.root));
        names
    }
}

fn clone_strings(v: &Vec<String>) -> (r: Vec<String>)
    ensures
        strings_view(r@) == strings_view(v@),
{
    let mut out: Vec<String> = Vec::new();
    let mut i: usize = 0;
    while i < v.len()
        invariant
            i <= v@.len(),
            strings_view(out@) == strings_view(v@).take(i as int),
        decreases v@.len() - i,
    {
        let s = v[i].clone();
        let ghost before = out@;
        assert(strings_view(before).len() == before.len());
        assert(strings_view(v@).take(i as int).len() == i);
        out.push(s);
        assert forall|j: int| 0 <= j < i + 1 implies #[trigger] strings_view(out@)[j]
            == strings_view(v@).take(i + 1)[j] by {
            if j < i {
                assert(out@[j] == before[j]);
                assert(strings_view(before)[j] == strings_view(v@).take(i as int)[j]);
            }
        }
        assert(strings_view(out@) =~= strings_view(v@).take(i + 1));
        i = i + 1;
    }
    assert(strings_view(v@).take(v@.len() as int) =~= strings_view(v@));
    out
}

// ---------------------------------------------------------------------
// Shell-facing operations

/// Starts the filesystem from what mounting gave: the mounted tree when it
/// is a directory, an empty root otherwise (a failed mount included).
pub fn init(fs: &mut Option<FileSystem>, mounted: Result<FsNode, &'static str>)
    ensures
        fs_view(*final(fs)) == Some(
            FsView {
                root: initial_root(tuwaiqfs::result_tree(mounted)),
                cwd: Seq::empty(),
                pending: None,
            },
        ),
{
    let root = match mounted {
        Ok(FsNode::Dir { children }) => from_fs_node(FsNode::Dir { children }),
        _ => empty_entry(),
    };
    let cwd: Vec<String> = Vec::new();
    assert(strings_view(cwd@) =~= Seq::empty());
    *fs = Some(FileSystem { root, cwd, pending: None });
}

/// Hands over the sectors that the last successful sync left to write.
pub fn take_pending(fs: &mut Option<FileSystem>) -> (r: Option<MetadataImage>)
    ensures
        match fs_view(*old(fs)) {
            None => r is None && fs_view(*final(fs)) is None,
            Some(v) => option_image(r) == v.pending && fs_view(*final(fs)) == Some(
                FsView { pending: None, ..v },
            ),
        },
{
    match fs {
        Some(f) => {
            let mut taken: Option<MetadataImage> = None;
            std::mem::swap(&mut taken, &mut f.pending);
            taken
        },
        None => None,
    }
}

pub fn sync_to_disk(fs: &mut Option<FileSystem>) -> (r: Result<(), &'static str>)
    ensures
        match fs_view(*old(fs)) {
            None => r == Err::<(), &'static str>("filesystem not initialized") && fs_view(
                *final(fs),
            ) is None,
            Some(v) => fs_view(*final(fs)) == Some(persist_spec(v).0) && r == persist_spec(v).1,
        },
{
    match fs {
        Some(f) => f.persist(),
        None => Err("filesystem not initialized"),
    }
}

pub fn pwd(fs: &Option<FileSystem>) -> (r: Result<String, &'static str>)
    ensures
        result_string(r) == match fs_view(*fs) {
            None => Err("filesystem not initialized"),
            Some(v) => Ok(pwd_spec(v.cwd)),
        },
{
    match fs {
        Some(f) => Ok(f.pwd()),
        None => Err("filesystem not initialized"),
    }
}

pub fn ls(fs: &Option<FileSystem>) -> (r: Result<Vec<String>, &'static str>)
    ensures
        result_strings(r) == match fs_view(*fs) {
            None => Err("filesystem not initialized"),
            Some(v) => list_dir_spec(v),
        },
{
    match fs {
        Some(f) => f.list_dir(),
        None => Err("filesystem not initialized"),
    }
}

pub fn ls_path(fs: &Option<FileSystem>, path: &str) -> (r: Result<Vec<String>, &'static str>)
    ensures
        result_strings(r) == match fs_view(*fs) {
            None => Err("filesystem not initialized"),
            Some(v) => list_at_path_spec(v, path@),
        },
{
    match fs {
        Some(f) => f.list_at_path(path),
        None => Err("filesystem not initialized"),
    }
}

pub fn touch(fs: &mut Option<FileSystem>, name: &str) -> (r: Result<(), &'static str>)
    ensures
        match fs_view(*old(fs)) {
            None => r == Err::<(), &'static str>("filesystem not initialized") && fs_view(
                *final(fs),
            ) is None,
            Some(v) => fs_view(*final(fs)) == Some(touch_spec(v, trim_spec(name@)).0) && r
                == touch_spec(v, trim_spec(name@)).1,
        },
{
    match fs {
        Some(f) => f.touch(text::trim(name)),
        None => Err("filesystem not initialized"),
    }
}

pub fn mkdir(fs: &mut Option<FileSystem>, name: &str) -> (r: Result<(), &'static str>)
    ensures
        match fs_view(*old(fs)) {
            None => r == Err::<(), &'static str>("filesystem not initialized") && fs_view(
                *final(fs),
            ) is None,
            Some(v) => fs_view(*final(fs)) == Some(mkdir_spec(v, trim_spec(name@)).0) && r
                == mkdir_spec(v, trim_spec(name@)).1,
        },
{
    match fs {
        Some(f) => f.mkdir(text::trim(name)),
        None => Err("filesystem not initialized"),
    }
}

pub fn cat(fs: &Option<FileSystem>, name: &str) -> (r: Result<String, &'static str>)
    ensures
        result_string(r) == match fs_view(*fs) {
            None => Err("filesystem not initialized"),
            Some(v) => read_file_spec(v, trim_spec(name@)),
        },
{
    match fs {
        Some(f) => f.read_file(text::trim(name)),
        None => Err("filesystem not initialized"),
    }
}

pub fn cat_path(fs: &Option<FileSystem>, path: &str) -> (r: Result<String, &'static str>)
    ensures
        result_string(r) == match fs_view(*fs) {
            None => Err("filesystem not initialized"),
            Some(v) => read_at_path_spec(v, path@),
        },
{
    match fs {
        Some(f) => f.read_at_path(path),
        None => Err("filesystem not initialized"),
    }
}

pub fn write(fs: &mut Option<FileSystem>, name: &str, text: &str) -> (r: Result<(), &'static str>)
    ensures
        match fs_view(*old(fs)) {
            None => r == Err::<(), &'static str>("filesystem not initialized") && fs_view(
                *final(fs),
            ) is None,
            Some(v) => fs_view(*final(fs)) == Some(write_file_spec(v, trim_spec(name@), text@).0)
                && r == write_file_spec(v, trim_spec(name@), text@).1,
        },
{
    match fs {
        Some(f) => f.write_file(text::trim(name), text),
        None => Err("filesystem not initialized"),
    }
}

pub fn write_in_path(fs: &mut Option<FileSystem>, path: &str, text: &str) -> (r: Result<
    (),
    &'static str,
>)
    ensures
        match fs_view(*old(fs)) {
            None => r == Err::<(), &'static str>("filesystem not initialized") && fs_view(
                *final(fs),
            ) is None,
            Some(v) => fs_view(*final(fs)) == Some(write_at_path_spec(v, path@, text@).0) && r
                == write_at_path_spec(v, path@, text@).1,
        },
{
    match fs {
        Some(f) => f.write_at_path(path, text),
        None => Err("filesystem not initialized"),
    }
}

/// Names of all entries that start with `prefix`, for tab completion.
pub fn completion_candidates(fs: &Option<FileSystem>, prefix: &str) -> (r: Result<
    Vec<String>,
    &'static str,
>)
    ensures
        result_strings(r) == match fs_view(*fs) {
            None => Err("filesystem not initialized"),
            Some(v) => Ok(with_prefix(names_of(v.root), prefix@)),
        },
{
    match fs {
        Some(f) => {
            let names = f.all_entry_names();
            let ghost ns = strings_view(names@);
            let mut matches: Vec<String> = Vec::new();
            let mut i: usize = 0;
            assert(strings_view(matches@) =~= with_prefix(ns.take(0), prefix@));
            while i < names.len()
                invariant
                    i <= names@.len(),
                    ns == strings_view(names@),
                    strings_view(matches@) == with_prefix(ns.take(i as int), prefix@),
                decreases names@.len() - i,
            {
                let ghost t = ns.take(i + 1);
                assert(t.drop_last() =~= ns.take(i as int));
                assert(t.last() == names@[i as int]@);
                if text::starts_with(names[i].as_str(), prefix) {
                    let name = names[i].clone();
                    let ghost before = strings_view(matches@);
                    matches.push(name);
                    assert(strings_view(matches@) =~= before.push(name@));
                }
                i = i + 1;
            }
            assert(ns.take(names@.len() as int) =~= ns);
            Ok(matches)
        },
        None => Err("filesystem not initialized"),
    }
}

pub fn label() -> (r: &'static str)
    ensures
        r@ == "TuwaiqFS v2"@,
{
    "TuwaiqFS v2"
}

} // verus!
