//! What the filesystem operations promise together.

use vstd::prelude::*;

use super::{
    names_in, names_of, with_prefix,
    children_at, create_spec, ensure_chain, entry_label, file_in, initial_root, list_dir_spec,
    list_at_path_spec, listing, mkdir_spec, name_error, persist_spec, read_at_path_spec, read_file_spec,
    split_path_spec, touch_spec, write_at_path_spec, write_file_spec, write_into,
    FsView,
};
use crate::tuwaiqfs::roundtrip::{
    blob_size, lemma_limits_sync, tree_fits,
    lemma_find_name_update, all_valid, children_well_formed, lemma_lookup_set_at, lemma_path_parts_valid,
    lemma_sync_then_mount, lemma_wf_push, lemma_wf_set_at,
    lemma_wf_update, tree_well_formed, valid_name,
};
use crate::tuwaiqfs::{
    MAX_METADATA_BYTES, empty_dir, find_name, lemma_find_name, lemma_find_name_is, lookup, mount_spec, set_at,
    sync_spec, Tree,
};

verus! {

// ---------------------------------------------------------------------
// Well-formedness

proof fn lemma_wf_lookup(t: Tree, path: Seq<Seq<char>>)
    requires
        tree_well_formed(t),
    ensures
        lookup(t, path) matches Ok(s) ==> tree_well_formed(s),
    decreases path.len(),
{
    if path.len() > 0 {
        match t {
            Tree::File(_) => {},
            Tree::Dir(cs) => match find_name(cs, path[0]) {
                Some(i) => {
                    lemma_find_name(cs, path[0]);
                    lemma_wf_lookup(cs[i].1, path.drop_first());
                },
                None => {},
            },
        }
    }
}

proof fn lemma_wf_children_at(t: Tree, path: Seq<Seq<char>>)
    requires
        tree_well_formed(t),
    ensures
        children_at(t, path) matches Ok(cs) ==> children_well_formed(cs),
{
    lemma_wf_lookup(t, path);
}

proof fn lemma_wf_ensure_chain(t: Tree, path: Seq<Seq<char>>)
    requires
        tree_well_formed(t),
        all_valid(path),
    ensures
        ensure_chain(t, path) matches Ok(t2) ==> tree_well_formed(t2),
    decreases path.len(),
{
    if path.len() > 0 {
        match t {
            Tree::File(_) => {},
            Tree::Dir(cs) => {
                let name = path[0];
                assert(valid_name(path[0]));
                lemma_find_name(cs, name);
                let rest = path.drop_first();
                assert(all_valid(rest)) by {
                    assert forall|j: int| 0 <= j < rest.len() implies valid_name(
                        #[trigger] rest[j],
                    ) by {
                        assert(rest[j] == path[j + 1]);
                    }
                }
                let cs2 = match find_name(cs, name) {
                    Some(_) => cs,
                    None => cs.push((name, empty_dir())),
                };
                let i = match find_name(cs, name) {
                    Some(i) => i,
                    None => cs.len() as int,
                };
                if find_name(cs, name) is None {
                    assert(children_well_formed(Seq::<(Seq<char>, Tree)>::empty()));
                    lemma_wf_push(cs, name, empty_dir());
                }
                assert(cs2[i].0 == name);
                lemma_wf_ensure_chain(cs2[i].1, rest);
                match ensure_chain(cs2[i].1, rest) {
                    Ok(c) => lemma_wf_update(cs2, i, c),
                    Err(_) => {},
                }
            },
        }
    }
}

proof fn lemma_wf_write_into(
    v: FsView,
    root: Tree,
    dir: Seq<Seq<char>>,
    cs: Seq<(Seq<char>, Tree)>,
    name: Seq<char>,
    text: Seq<char>,
)
    requires
        tree_well_formed(v.root),
        tree_well_formed(root),
        children_at(root, dir) == Ok::<Seq<(Seq<char>, Tree)>, &'static str>(cs),
        valid_name(name),
    ensures
        tree_well_formed(write_into(v, root, dir, cs, name, text).0.root),
{
    lemma_wf_children_at(root, dir);
    lemma_find_name(cs, name);
    match find_name(cs, name) {
        Some(i) => {
            lemma_wf_update(cs, i, Tree::File(text));
            assert(cs.update(i, (cs[i].0, Tree::File(text))) == cs.update(i, (name, Tree::File(text))));
            lemma_wf_set_at(root, dir, Tree::Dir(cs.update(i, (name, Tree::File(text)))));
        },
        None => {
            lemma_wf_push(cs, name, Tree::File(text));
            lemma_wf_set_at(root, dir, Tree::Dir(cs.push((name, Tree::File(text)))));
        },
    }
}

/// Every operation on a well-formed filesystem leaves it well formed:
/// names in each directory are valid and distinct, all the way down.
pub proof fn lemma_operations_keep_well_formed(
    v: FsView,
    name: Seq<char>,
    path: Seq<char>,
    text: Seq<char>,
)
    requires
        tree_well_formed(v.root),
    ensures
        tree_well_formed(touch_spec(v, name).0.root),
        tree_well_formed(mkdir_spec(v, name).0.root),
        tree_well_formed(write_file_spec(v, name, text).0.root),
        tree_well_formed(write_at_path_spec(v, path, text).0.root),
        tree_well_formed(persist_spec(v).0.root),
{
    assert(children_well_formed(Seq::<(Seq<char>, Tree)>::empty()));
    if name_error(name) is None {
        lemma_wf_children_at(v.root, v.cwd);
        match children_at(v.root, v.cwd) {
            Ok(cs) => {
                if find_name(cs, name) is None {
                    lemma_wf_push(cs, name, Tree::File(Seq::empty()));
                    lemma_wf_set_at(
                        v.root,
                        v.cwd,
                        Tree::Dir(cs.push((name, Tree::File(Seq::empty())))),
                    );
                    lemma_wf_push(cs, name, empty_dir());
                    lemma_wf_set_at(v.root, v.cwd, Tree::Dir(cs.push((name, empty_dir()))));
                }
                lemma_wf_write_into(v, v.root, v.cwd, cs, name, text);
            },
            Err(_) => {},
        }
    }
    let parts = split_path_spec(path);
    if parts.len() > 1 && name_error(parts.last()) is None {
        let parent = parts.drop_last();
        lemma_path_parts_valid(crate::text::strip_leading(crate::text::trim_spec(path), '/'));
        assert(all_valid(parent)) by {
            assert forall|j: int| 0 <= j < parent.len() implies valid_name(#[trigger] parent[j]) by {
                assert(parent[j] == parts[j]);
            }
        }
        lemma_wf_ensure_chain(v.root, parent);
        match ensure_chain(v.root, parent) {
            Ok(root2) => match children_at(root2, parent) {
                Ok(cs) => lemma_wf_write_into(v, root2, parent, cs, parts.last(), text),
                Err(_) => {},
            },
            Err(_) => {},
        }
    } else if parts.len() == 1 && name_error(parts.last()) is None {
        let n = parts.last();
        lemma_wf_children_at(v.root, v.cwd);
        match children_at(v.root, v.cwd) {
            Ok(cs) => lemma_wf_write_into(v, v.root, v.cwd, cs, n, text),
            Err(_) => {},
        }
    }
}

// ---------------------------------------------------------------------
// Reading what was written

proof fn lemma_file_in_after_write(cs: Seq<(Seq<char>, Tree)>, name: Seq<char>, text: Seq<char>)
    ensures
        ({
            let cs2 = match find_name(cs, name) {
                Some(i) => cs.update(i, (name, Tree::File(text))),
                None => cs.push((name, Tree::File(text))),
            };
            file_in(cs2, name) == Ok::<Seq<char>, &'static str>(text)
        }),
{
    lemma_find_name(cs, name);
    match find_name(cs, name) {
        Some(i) => {
            let cs2 = cs.update(i, (name, Tree::File(text)));
            assert forall|j: int| 0 <= j < i implies cs2[j].0 != name by {}
            lemma_find_name_is(cs2, name, Some(i));
        },
        None => {
            let cs2 = cs.push((name, Tree::File(text)));
            assert forall|j: int| 0 <= j < cs.len() implies cs2[j].0 != name by {
                assert(cs2[j] == cs[j]);
            }
            lemma_find_name_is(cs2, name, Some(cs.len() as int));
        },
    }
}

/// What `write_into` leaves in the directory, when it succeeds.
pub(crate) proof fn lemma_write_into_reads_back(
    v: FsView,
    root: Tree,
    dir: Seq<Seq<char>>,
    cs: Seq<(Seq<char>, Tree)>,
    name: Seq<char>,
    text: Seq<char>,
)
    requires
        children_at(root, dir) == Ok::<Seq<(Seq<char>, Tree)>, &'static str>(cs),
        write_into(v, root, dir, cs, name, text).1 is Ok,
    ensures
        ({
            let v2 = write_into(v, root, dir, cs, name, text).0;
            &&& children_at(v2.root, dir) matches Ok(cs2)
            &&& file_in(cs2, name) == Ok::<Seq<char>, &'static str>(text)
            &&& v2.cwd == v.cwd
            &&& v2.root is Dir <== root is Dir
        }),
{
    let cs2 = match find_name(cs, name) {
        Some(i) => cs.update(i, (name, Tree::File(text))),
        None => cs.push((name, Tree::File(text))),
    };
    lemma_lookup_set_at(root, dir, Tree::Dir(cs2));
    lemma_file_in_after_write(cs, name, text);
    if dir.len() > 0 && root is Dir {
        assert(set_at(root, dir, Tree::Dir(cs2)) is Dir);
    }
}

/// A file reads back as what was last written to it: after a successful
/// `write`, `cat` of the same name gives the text.
pub proof fn lemma_write_then_read(v: FsView, name: Seq<char>, text: Seq<char>)
    requires
        write_file_spec(v, name, text).1 is Ok,
    ensures
        read_file_spec(write_file_spec(v, name, text).0, name) == Ok::<Seq<char>, &'static str>(
            text,
        ),
{
    let cs = children_at(v.root, v.cwd)->Ok_0;
    lemma_write_into_reads_back(v, v.root, v.cwd, cs, name, text);
}

/// The same for paths: after a successful `write_in_path`, `cat_path` of
/// the same path gives the text.  A path of one name is written in the
/// working directory but read from the root, so for it the working
/// directory must be the root.
pub proof fn lemma_write_path_then_read_path(v: FsView, path: Seq<char>, text: Seq<char>)
    requires
        write_at_path_spec(v, path, text).1 is Ok,
        split_path_spec(path).len() >= 2 || v.cwd.len() == 0,
    ensures
        read_at_path_spec(write_at_path_spec(v, path, text).0, path) == Ok::<
            Seq<char>,
            &'static str,
        >(text),
{
    let parts = split_path_spec(path);
    let name = parts.last();
    if parts.len() == 1 {
        let cs = children_at(v.root, v.cwd)->Ok_0;
        lemma_write_into_reads_back(v, v.root, v.cwd, cs, name, text);
        assert(parts.drop_last() =~= v.cwd);
    } else {
        let parent = parts.drop_last();
        let root2 = ensure_chain(v.root, parent)->Ok_0;
        let cs = children_at(root2, parent)->Ok_0;
        lemma_write_into_reads_back(v, root2, parent, cs, name, text);
    }
}

// ---------------------------------------------------------------------
// Creating entries

/// After a successful `touch` (or `mkdir`), `ls` lists what it listed
/// before followed by the new entry.
pub proof fn lemma_create_then_list(v: FsView, name: Seq<char>, node: Tree)
    requires
        create_spec(v, name, node).1 is Ok,
    ensures
        list_dir_spec(create_spec(v, name, node).0) == Ok::<Seq<Seq<char>>, &'static str>(
            list_dir_spec(v)->Ok_0.push(entry_label((name, node))),
        ),
{
    let cs = children_at(v.root, v.cwd)->Ok_0;
    let cs2 = cs.push((name, node));
    lemma_lookup_set_at(v.root, v.cwd, Tree::Dir(cs2));
    assert(listing(cs2) =~= listing(cs).push(entry_label((name, node))));
}

/// Names are unique: once an entry was created, creating another one with
/// the same name in the same directory fails.
pub proof fn lemma_create_twice(v: FsView, name: Seq<char>, first: Tree, second: Tree)
    requires
        create_spec(v, name, first).1 is Ok,
    ensures
        create_spec(create_spec(v, name, first).0, name, second).1 == Err::<(), &'static str>(
            "file or directory already exists",
        ),
{
    let cs = children_at(v.root, v.cwd)->Ok_0;
    let cs2 = cs.push((name, first));
    lemma_lookup_set_at(v.root, v.cwd, Tree::Dir(cs2));
    lemma_find_name(cs2, name);
    assert(cs2[cs.len() as int].0 == name);
}

// ---------------------------------------------------------------------
// Surviving a reboot

/// Persistence across reboot: after a successful `write` in the root
/// directory of a well-formed filesystem, the sectors it left to write
/// mount back as the same tree, and a filesystem started from them reads
/// the file back.
pub proof fn lemma_write_survives_remount(v: FsView, name: Seq<char>, text: Seq<char>)
    requires
        tree_well_formed(v.root),
        v.cwd.len() == 0,
        write_file_spec(v, name, text).1 is Ok,
    ensures
        ({
            let v2 = write_file_spec(v, name, text).0;
            let img = v2.pending->0;
            let m = mount_spec(img.0, img.1);
            &&& v2.pending == Some(sync_spec(v2.root)->Ok_0)
            &&& m.0 is None
            &&& m.1 == Ok::<Tree, &'static str>(v2.root)
            &&& read_file_spec(
                FsView { root: initial_root(m.1), cwd: Seq::empty(), pending: None },
                name,
            ) == Ok::<Seq<char>, &'static str>(text)
        }),
{
    let v2 = write_file_spec(v, name, text).0;
    lemma_operations_keep_well_formed(v, name, Seq::empty(), text);
    lemma_write_then_read(v, name, text);
    let cs = children_at(v.root, v.cwd)->Ok_0;
    lemma_write_into_reads_back(v, v.root, v.cwd, cs, name, text);
    lemma_sync_then_mount(v2.root);
}

// ---------------------------------------------------------------------
// Reading what was created, and what a write leaves alone

/// A touched file reads back empty: after a successful `touch`, `cat` of
/// the same name gives the empty text.
pub proof fn lemma_touch_then_read(v: FsView, name: Seq<char>)
    requires
        touch_spec(v, name).1 is Ok,
    ensures
        read_file_spec(touch_spec(v, name).0, name) == Ok::<Seq<char>, &'static str>(
            Seq::empty(),
        ),
{
    let cs = children_at(v.root, v.cwd)->Ok_0;
    let cs2 = cs.push((name, Tree::File(Seq::empty())));
    lemma_lookup_set_at(v.root, v.cwd, Tree::Dir(cs2));
    lemma_find_name(cs, name);
    assert forall|j: int| 0 <= j < cs.len() implies cs2[j].0 != name by {
        assert(cs2[j] == cs[j]);
    }
    lemma_find_name_is(cs2, name, Some(cs.len() as int));
}

/// A new directory is empty: after a successful `mkdir`, the directory it
/// made (the working directory followed by the name) has no entries.
pub proof fn lemma_mkdir_then_empty(v: FsView, name: Seq<char>)
    requires
        mkdir_spec(v, name).1 is Ok,
    ensures
        children_at(mkdir_spec(v, name).0.root, v.cwd.push(name)) == Ok::<
            Seq<(Seq<char>, Tree)>,
            &'static str,
        >(Seq::empty()),
{
    let cs = children_at(v.root, v.cwd)->Ok_0;
    let cs2 = cs.push((name, empty_dir()));
    let root2 = set_at(v.root, v.cwd, Tree::Dir(cs2));
    lemma_lookup_set_at(v.root, v.cwd, Tree::Dir(cs2));
    lemma_find_name(cs, name);
    assert forall|j: int| 0 <= j < cs.len() implies cs2[j].0 != name by {
        assert(cs2[j] == cs[j]);
    }
    lemma_find_name_is(cs2, name, Some(cs.len() as int));
    let p = v.cwd.push(name);
    super::lemma_lookup_split(root2, p, v.cwd.len() as int);
    assert(p.take(v.cwd.len() as int) =~= v.cwd);
    assert(p.skip(v.cwd.len() as int) =~= seq![name]);
    assert(seq![name].drop_first() =~= Seq::<Seq<char>>::empty());
    assert(mkdir_spec(v, name).0.root == root2);
    assert(lookup(root2, v.cwd) == Ok::<Tree, &'static str>(Tree::Dir(cs2)));
    assert(cs2[cs.len() as int].1 == empty_dir());
    assert(seq![name][0] == name);
    assert(lookup(empty_dir(), Seq::<Seq<char>>::empty()) == Ok::<Tree, &'static str>(empty_dir()));
    assert(lookup(Tree::Dir(cs2), seq![name]) == Ok::<Tree, &'static str>(empty_dir()));
    assert(lookup(root2, p) == Ok::<Tree, &'static str>(empty_dir()));
}

/// A write touches only its own file: after a successful `write`, every
/// other name in the working directory reads as it did before.
pub proof fn lemma_write_keeps_others(v: FsView, name: Seq<char>, text: Seq<char>, other: Seq<char>)
    requires
        write_file_spec(v, name, text).1 is Ok,
        other != name,
    ensures
        read_file_spec(write_file_spec(v, name, text).0, other) == read_file_spec(v, other),
{
    let cs = children_at(v.root, v.cwd)->Ok_0;
    lemma_find_name(cs, name);
    lemma_find_name(cs, other);
    let cs2 = match find_name(cs, name) {
        Some(i) => cs.update(i, (name, Tree::File(text))),
        None => cs.push((name, Tree::File(text))),
    };
    lemma_lookup_set_at(v.root, v.cwd, Tree::Dir(cs2));
    match find_name(cs, other) {
        Some(k) => {
            assert forall|j: int| 0 <= j < k implies cs2[j].0 != other by {
                if j < cs.len() {
                    assert(cs2[j].0 == cs[j].0 || cs2[j].0 == name);
                }
            }
            assert(cs2[k] == cs[k]);
            lemma_find_name_is(cs2, other, Some(k));
        },
        None => {
            assert forall|j: int| 0 <= j < cs2.len() implies cs2[j].0 != other by {
                if j < cs.len() {
                    assert(cs2[j].0 == cs[j].0 || cs2[j].0 == name);
                }
            }
            lemma_find_name_is(cs2, other, None);
        },
    }
}

// ---------------------------------------------------------------------
// The working directory

/// No operation moves the working directory (there is no `cd`), and a
/// started filesystem is at the root, so `pwd` always answers `/`.
pub proof fn lemma_cwd_stays(v: FsView, name: Seq<char>, path: Seq<char>, text: Seq<char>)
    ensures
        touch_spec(v, name).0.cwd == v.cwd,
        mkdir_spec(v, name).0.cwd == v.cwd,
        write_file_spec(v, name, text).0.cwd == v.cwd,
        write_at_path_spec(v, path, text).0.cwd == v.cwd,
        persist_spec(v).0.cwd == v.cwd,
        super::pwd_spec(Seq::empty()) == "/"@,
{
    assert(crate::tuwaiqfs::roundtrip::join_names(Seq::<Seq<char>>::empty()) == Seq::<char>::empty());
    assert(seq!['/'] + Seq::<char>::empty() =~= "/"@) by {
        reveal_strlit("/");
    }
}

// ---------------------------------------------------------------------
// What a path write leaves alone

/// Reading a file by its path is looking up the path.
proof fn lemma_file_lookup(t: Tree, q: Seq<Seq<char>>)
    requires
        q.len() > 0,
    ensures
        ({
            let read = match children_at(t, q.drop_last()) {
                Ok(cs) => file_in(cs, q.last()),
                Err(e) => Err(e),
            };
            &&& read matches Ok(c) ==> lookup(t, q) == Ok::<Tree, &'static str>(Tree::File(c))
            &&& lookup(t, q) matches Ok(Tree::File(c)) ==> read == Ok::<Seq<char>, &'static str>(c)
        }),
{
    let n = q.len() - 1;
    super::lemma_lookup_split(t, q, n);
    assert(q.take(n) =~= q.drop_last());
    assert(q.skip(n) =~= seq![q.last()]);
    assert(seq![q.last()][0] == q.last());
    assert(seq![q.last()].drop_first() =~= Seq::<Seq<char>>::empty());
    match lookup(t, q.drop_last()) {
        Ok(Tree::Dir(cs)) => {
            lemma_find_name(cs, q.last());
            match find_name(cs, q.last()) {
                Some(i) => {
                    assert(lookup(cs[i].1, Seq::<Seq<char>>::empty()) == Ok::<Tree, &'static str>(
                        cs[i].1,
                    ));
                },
                None => {},
            }
        },
        _ => {},
    }
}

/// Replacing the subtree at `p` keeps every file at a path `q` whose part
/// below `p` (if `q` runs through `p`) reads the same in the new subtree.
proof fn lemma_set_at_frame(t: Tree, p: Seq<Seq<char>>, x: Tree, q: Seq<Seq<char>>)
    requires
        lookup(t, p) is Ok,
        lookup(t, q) matches Ok(Tree::File(_)),
        p.len() <= q.len() && q.take(p.len() as int) == p ==> lookup(x, q.skip(p.len() as int))
            == lookup(lookup(t, p)->Ok_0, q.skip(p.len() as int)),
    ensures
        lookup(set_at(t, p, x), q) == lookup(t, q),
    decreases p.len(),
{
    if p.len() == 0 {
        assert(q.take(0) =~= p);
        assert(q.skip(0) =~= q);
    } else {
        let cs = t->Dir_0;
        let i = find_name(cs, p[0])->0;
        lemma_find_name(cs, p[0]);
        let e = (cs[i].0, set_at(cs[i].1, p.drop_first(), x));
        let cs2 = cs.update(i, e);
        lemma_find_name_update(cs, i, e, q[0]);
        lemma_find_name(cs, q[0]);
        let j = find_name(cs, q[0])->0;
        if j == i {
            let p1 = p.drop_first();
            let q1 = q.drop_first();
            if p1.len() <= q1.len() && q1.take(p1.len() as int) == p1 {
                assert(q.take(p.len() as int) =~= seq![q[0]] + q1.take(p1.len() as int));
                assert(p =~= seq![p[0]] + p1);
                assert(q1.skip(p1.len() as int) =~= q.skip(p.len() as int));
            }
            lemma_set_at_frame(cs[i].1, p1, x, q1);
        } else {
            if p.len() <= q.len() && q.take(p.len() as int) == p {
                assert(q.take(p.len() as int)[0] == q[0]);
            }
            assert(cs2[j] == cs[j]);
        }
    }
}

/// Creating the missing directories along `p` keeps every file.
proof fn lemma_ensure_chain_frame(t: Tree, p: Seq<Seq<char>>, q: Seq<Seq<char>>)
    requires
        ensure_chain(t, p) is Ok,
        lookup(t, q) matches Ok(Tree::File(_)),
    ensures
        lookup(ensure_chain(t, p)->Ok_0, q) == lookup(t, q),
    decreases p.len(),
{
    if p.len() > 0 {
        let cs = t->Dir_0;
        lemma_find_name(cs, p[0]);
        lemma_find_name(cs, q[0]);
        let cs2 = match find_name(cs, p[0]) {
            Some(_) => cs,
            None => cs.push((p[0], empty_dir())),
        };
        let i = match find_name(cs, p[0]) {
            Some(i) => i,
            None => cs.len() as int,
        };
        let c = ensure_chain(cs2[i].1, p.drop_first())->Ok_0;
        let cs3 = cs2.update(i, (p[0], c));
        let j = find_name(cs, q[0])->0;
        if q[0] == p[0] {
            assert(j == i);
            lemma_ensure_chain_frame(cs[i].1, p.drop_first(), q.drop_first());
            assert forall|k: int| 0 <= k < j implies cs3[k].0 != q[0] by {}
            lemma_find_name_is(cs3, q[0], Some(j));
        } else {
            assert forall|k: int| 0 <= k < j implies cs3[k].0 != q[0] by {
                assert(cs3[k].0 == cs[k].0);
            }
            assert(cs3[j] == cs[j]);
            lemma_find_name_is(cs3, q[0], Some(j));
        }
    }
}

/// `write_into` keeps every file other than the one it writes.
proof fn lemma_write_into_frame(
    v: FsView,
    root: Tree,
    dir: Seq<Seq<char>>,
    cs: Seq<(Seq<char>, Tree)>,
    name: Seq<char>,
    text: Seq<char>,
    q: Seq<Seq<char>>,
)
    requires
        children_at(root, dir) == Ok::<Seq<(Seq<char>, Tree)>, &'static str>(cs),
        write_into(v, root, dir, cs, name, text).1 is Ok,
        lookup(root, q) matches Ok(Tree::File(_)),
        q != dir.push(name),
    ensures
        lookup(write_into(v, root, dir, cs, name, text).0.root, q) == lookup(root, q),
{
    lemma_find_name(cs, name);
    let cs2 = match find_name(cs, name) {
        Some(i) => cs.update(i, (name, Tree::File(text))),
        None => cs.push((name, Tree::File(text))),
    };
    let d = dir.len() as int;
    if dir.len() <= q.len() && q.take(d) == dir {
        let s = q.skip(d);
        super::lemma_lookup_split(root, q, d);
        assert(s.len() > 0) by {
            if s.len() == 0 {
                assert(q =~= dir);
            }
        }
        lemma_find_name(cs, s[0]);
        if s[0] == name {
            // The entry `name` is absent or a file, so nothing lies below it.
            assert(s.len() > 1) by {
                if s.len() == 1 {
                    assert(q =~= dir.push(name));
                }
            }
            assert(s.drop_first().len() > 0);
            match find_name(cs, name) {
                Some(i) => {
                    assert(cs[i].1 is File);
                    assert(lookup(cs[i].1, s.drop_first()) is Err);
                },
                None => {},
            }
            assert(lookup(Tree::Dir(cs), s) is Err);
        } else {
            let k = find_name(cs, s[0]);
            match k {
                Some(j) => {
                    assert forall|m: int| 0 <= m < j implies cs2[m].0 != s[0] by {
                        if m < cs.len() {
                            assert(cs2[m].0 == cs[m].0 || cs2[m].0 == name);
                        }
                    }
                    assert(cs2[j] == cs[j]);
                    lemma_find_name_is(cs2, s[0], Some(j));
                },
                None => {},
            }
        }
    }
    lemma_set_at_frame(root, dir, Tree::Dir(cs2), q);
}

/// Where a path write puts its file: a path of one name lands in the
/// working directory, a longer one is taken from the root.
pub open spec fn written_at(v: FsView, path: Seq<char>) -> Seq<Seq<char>> {
    let parts = split_path_spec(path);
    if parts.len() == 1 {
        v.cwd + parts
    } else {
        parts
    }
}

/// A path write touches only its own file: after a successful
/// `write_in_path`, every file at another path reads as it did before.
pub proof fn lemma_write_path_keeps_others(v: FsView, path: Seq<char>, text: Seq<char>, other: Seq<char>)
    requires
        write_at_path_spec(v, path, text).1 is Ok,
        read_at_path_spec(v, other) is Ok,
        split_path_spec(other) != written_at(v, path),
    ensures
        read_at_path_spec(write_at_path_spec(v, path, text).0, other) == read_at_path_spec(v, other),
{
    let q = split_path_spec(other);
    let parts = split_path_spec(path);
    lemma_file_lookup(v.root, q);
    if parts.len() == 1 {
        let cs = children_at(v.root, v.cwd)->Ok_0;
        assert(v.cwd.push(parts.last()) =~= v.cwd + parts);
        lemma_write_into_frame(v, v.root, v.cwd, cs, parts.last(), text, q);
    } else {
        let parent = parts.drop_last();
        let root2 = ensure_chain(v.root, parent)->Ok_0;
        let cs = children_at(root2, parent)->Ok_0;
        lemma_ensure_chain_frame(v.root, parent, q);
        assert(parent.push(parts.last()) =~= parts);
        lemma_write_into_frame(v, root2, parent, cs, parts.last(), text, q);
    }
    lemma_file_lookup(write_at_path_spec(v, path, text).0.root, q);
}

/// `ls` of a new directory by its name, from the root, lists nothing:
/// after a successful `mkdir` in the root directory, `ls_path` with the
/// same name gives no entries.
pub proof fn lemma_mkdir_then_ls_path(v: FsView, name: Seq<char>)
    requires
        v.cwd.len() == 0,
        mkdir_spec(v, crate::text::trim_spec(name)).1 is Ok,
    ensures
        list_at_path_spec(mkdir_spec(v, crate::text::trim_spec(name)).0, crate::text::trim_spec(name))
            == Ok::<Seq<Seq<char>>, &'static str>(Seq::empty()),
{
    let n = crate::text::trim_spec(name);
    lemma_mkdir_then_empty(v, n);
    crate::text::lemma_trim_idempotent(name);
    assert(n.len() > 0 && !n.contains('/'));
    assert(n[0] != '/') by {
        if n[0] == '/' {
            assert(n.contains('/'));
        }
    }
    assert(crate::text::strip_leading(n, '/') == n);
    crate::tuwaiqfs::roundtrip::lemma_split_no_sep(n);
    assert(seq![n].drop_last() =~= Seq::<Seq<char>>::empty());
    assert(crate::tuwaiqfs::nonempty_parts(Seq::<Seq<char>>::empty()) == Seq::<Seq<char>>::empty());
    assert(crate::tuwaiqfs::nonempty_parts(seq![n]) == seq![n]);
    assert(split_path_spec(n) == seq![n]);
    assert(v.cwd.push(n) =~= seq![n]);
    assert(listing(Seq::<(Seq<char>, Tree)>::empty()) =~= Seq::<Seq<char>>::empty());
}

// ---------------------------------------------------------------------
// When the limits are kept, operations succeed

/// The tree that creating `node` as `name` in the working directory makes.
pub open spec fn created_root(v: FsView, name: Seq<char>, node: Tree) -> Tree {
    set_at(v.root, v.cwd, Tree::Dir(children_at(v.root, v.cwd)->Ok_0.push((name, node))))
}

/// Creating succeeds on a fresh valid name when the grown tree keeps the
/// limits (paths, file sizes, metadata size); `ls` then lists the old
/// entries and the new one.
pub proof fn lemma_create_succeeds(v: FsView, name: Seq<char>, node: Tree)
    requires
        name_error(name) is None,
        children_at(v.root, v.cwd) is Ok,
        find_name(children_at(v.root, v.cwd)->Ok_0, name) is None,
        tree_fits(created_root(v, name, node)),
        blob_size(created_root(v, name, node)) <= MAX_METADATA_BYTES,
    ensures
        create_spec(v, name, node).1 is Ok,
        create_spec(v, name, node).0.root == created_root(v, name, node),
        list_dir_spec(create_spec(v, name, node).0) == Ok::<Seq<Seq<char>>, &'static str>(
            list_dir_spec(v)->Ok_0.push(entry_label((name, node))),
        ),
{
    lemma_limits_sync(created_root(v, name, node));
    lemma_create_then_list(v, name, node);
}

/// The entries of the directory `cs` after writing `text` to `name`.
pub open spec fn written_children(cs: Seq<(Seq<char>, Tree)>, name: Seq<char>, text: Seq<char>) -> Seq<
    (Seq<char>, Tree),
> {
    match find_name(cs, name) {
        Some(i) => cs.update(i, (name, Tree::File(text))),
        None => cs.push((name, Tree::File(text))),
    }
}

/// The tree that writing `text` to `name` in the working directory makes.
pub open spec fn written_root(v: FsView, name: Seq<char>, text: Seq<char>) -> Tree {
    set_at(
        v.root,
        v.cwd,
        Tree::Dir(written_children(children_at(v.root, v.cwd)->Ok_0, name, text)),
    )
}

/// A write to a valid name that is not a directory succeeds when the new
/// tree keeps the limits, and the file then reads back as the text.
pub proof fn lemma_write_succeeds(v: FsView, name: Seq<char>, text: Seq<char>)
    requires
        name_error(name) is None,
        children_at(v.root, v.cwd) is Ok,
        find_name(children_at(v.root, v.cwd)->Ok_0, name) matches Some(i) ==> children_at(
            v.root,
            v.cwd,
        )->Ok_0[i].1 is File,
        tree_fits(written_root(v, name, text)),
        blob_size(written_root(v, name, text)) <= MAX_METADATA_BYTES,
    ensures
        write_file_spec(v, name, text).1 is Ok,
        write_file_spec(v, name, text).0.root == written_root(v, name, text),
        read_file_spec(write_file_spec(v, name, text).0, name) == Ok::<Seq<char>, &'static str>(
            text,
        ),
{
    lemma_limits_sync(written_root(v, name, text));
    lemma_write_then_read(v, name, text);
}

/// No prefix of `p` (the empty one included) leads to a file in `t`.
pub open spec fn no_file_on_way(t: Tree, p: Seq<Seq<char>>) -> bool {
    forall|k: int| 0 <= k <= p.len() ==> !(#[trigger] lookup(t, p.take(k)) matches Ok(Tree::File(_)))
}

/// With no file on the way, creating the directories along `p` succeeds,
/// `p` then leads to a directory, and an entry `n` below it is a
/// directory only if it was one before.
proof fn lemma_ensure_chain_ok(t: Tree, p: Seq<Seq<char>>, n: Seq<char>)
    requires
        no_file_on_way(t, p),
    ensures
        ensure_chain(t, p) is Ok,
        lookup(ensure_chain(t, p)->Ok_0, p) matches Ok(Tree::Dir(_)),
        lookup(ensure_chain(t, p)->Ok_0, p.push(n)) matches Ok(Tree::Dir(_)) ==> lookup(
            t,
            p.push(n),
        ) matches Ok(Tree::Dir(_)),
    decreases p.len(),
{
    assert(p.take(0) =~= Seq::<Seq<char>>::empty());
    assert(lookup(t, p.take(0)) == Ok::<Tree, &'static str>(t));
    if p.len() == 0 {
        assert(p.push(n) =~= seq![n]);
    } else {
        let cs = t->Dir_0;
        lemma_find_name(cs, p[0]);
        let cs2 = match find_name(cs, p[0]) {
            Some(_) => cs,
            None => cs.push((p[0], empty_dir())),
        };
        let i = match find_name(cs, p[0]) {
            Some(i) => i,
            None => cs.len() as int,
        };
        let child = cs2[i].1;
        let p1 = p.drop_first();
        assert forall|k: int| 0 <= k <= p1.len() implies !(#[trigger] lookup(child, p1.take(k)) matches Ok(
            Tree::File(_),
        )) by {
            match find_name(cs, p[0]) {
                Some(_) => {
                    let pk = p.take(k + 1);
                    assert(pk[0] == p[0]);
                    assert(pk.drop_first() =~= p1.take(k));
                    assert(lookup(t, pk) == lookup(child, p1.take(k)));
                },
                None => {
                    if k > 0 {
                        assert(lookup(empty_dir(), p1.take(k)) is Err);
                    } else {
                        assert(p1.take(0) =~= Seq::<Seq<char>>::empty());
                    }
                },
            }
        }
        lemma_ensure_chain_ok(child, p1, n);
        let c = ensure_chain(child, p1)->Ok_0;
        let cs3 = cs2.update(i, (p[0], c));
        lemma_find_name(cs2, p[0]);
        assert forall|j: int| 0 <= j < i implies cs3[j].0 != p[0] by {
            assert(cs3[j] == cs2[j]);
            if j < cs.len() {
                assert(cs2[j] == cs[j]);
            }
        }
        lemma_find_name_is(cs3, p[0], Some(i));
        assert(p1 =~= p.drop_first());
        assert(p.push(n).drop_first() =~= p1.push(n));
        assert(p.push(n)[0] == p[0]);
        match find_name(cs, p[0]) {
            Some(_) => {},
            None => {
                assert(lookup(empty_dir(), p1.push(n)) is Err);
            },
        }
    }
}

/// The tree that writing `text` at `path` (of at least two names) makes.
pub open spec fn path_written_root(v: FsView, path: Seq<char>, text: Seq<char>) -> Tree {
    let parts = split_path_spec(path);
    let parent = parts.drop_last();
    let root2 = ensure_chain(v.root, parent)->Ok_0;
    set_at(root2, parent, Tree::Dir(written_children(children_at(root2, parent)->Ok_0, parts.last(), text)))
}

/// A path write succeeds when no prefix of the parent names a file, the
/// path does not name a directory, its last name is valid and the new
/// tree keeps the limits; the file then reads back as the text.
pub proof fn lemma_write_path_succeeds(v: FsView, path: Seq<char>, text: Seq<char>)
    requires
        split_path_spec(path).len() >= 2,
        name_error(split_path_spec(path).last()) is None,
        no_file_on_way(v.root, split_path_spec(path).drop_last()),
        !(lookup(v.root, split_path_spec(path)) matches Ok(Tree::Dir(_))),
        tree_fits(path_written_root(v, path, text)),
        blob_size(path_written_root(v, path, text)) <= MAX_METADATA_BYTES,
    ensures
        write_at_path_spec(v, path, text).1 is Ok,
        write_at_path_spec(v, path, text).0.root == path_written_root(v, path, text),
        read_at_path_spec(write_at_path_spec(v, path, text).0, path) == Ok::<
            Seq<char>,
            &'static str,
        >(text),
{
    let parts = split_path_spec(path);
    let parent = parts.drop_last();
    let name = parts.last();
    lemma_ensure_chain_ok(v.root, parent, name);
    let root2 = ensure_chain(v.root, parent)->Ok_0;
    let cs = children_at(root2, parent)->Ok_0;
    assert(parent.push(name) =~= parts);
    lemma_find_name(cs, name);
    match find_name(cs, name) {
        Some(i) => {
            super::lemma_lookup_split(root2, parts, parent.len() as int);
            assert(parts.take(parent.len() as int) =~= parent);
            assert(parts.skip(parent.len() as int) =~= seq![name]);
            assert(seq![name][0] == name);
            assert(seq![name].drop_first() =~= Seq::<Seq<char>>::empty());
            assert(lookup(cs[i].1, Seq::<Seq<char>>::empty()) == Ok::<Tree, &'static str>(cs[i].1));
        },
        None => {},
    }
    lemma_limits_sync(path_written_root(v, path, text));
    lemma_write_path_then_read_path(v, path, text);
}

/// `cat` ignores whitespace around the name: reading through `a + name +
/// b`, with `a` and `b` all whitespace, reads what `name` reads (the text
/// itself is stored as written).
pub proof fn lemma_cat_padded_name(v: FsView, a: Seq<char>, name: Seq<char>, b: Seq<char>)
    requires
        crate::text::all_white(a),
        crate::text::all_white(b),
    ensures
        read_file_spec(v, crate::text::trim_spec(a + name + b)) == read_file_spec(
            v,
            crate::text::trim_spec(name),
        ),
{
    crate::text::lemma_trim_padding(a, name, b);
}

/// One state change of the filesystem, by the operation's number: `0`
/// touch, `1` mkdir, `2` write, `3` path write, `4` sync, any other a
/// hand-over of the pending image.  The reading operations change nothing.
pub open spec fn fs_step(v: FsView, step: (nat, Seq<char>, Seq<char>)) -> FsView {
    if step.0 == 0 {
        touch_spec(v, step.1).0
    } else if step.0 == 1 {
        mkdir_spec(v, step.1).0
    } else if step.0 == 2 {
        write_file_spec(v, step.1, step.2).0
    } else if step.0 == 3 {
        write_at_path_spec(v, step.1, step.2).0
    } else if step.0 == 4 {
        persist_spec(v).0
    } else {
        FsView { pending: None, ..v }
    }
}

/// The filesystem after the steps, first to last.
pub open spec fn run_fs(v: FsView, steps: Seq<(nat, Seq<char>, Seq<char>)>) -> FsView
    decreases steps.len(),
{
    if steps.len() == 0 {
        v
    } else {
        run_fs(fs_step(v, steps[0]), steps.drop_first())
    }
}

/// `pwd` is `/` in every state: a started filesystem is at the root, and
/// no run of operations after it moves the working directory.
pub proof fn lemma_pwd_always_root(
    mounted: Result<Tree, &'static str>,
    steps: Seq<(nat, Seq<char>, Seq<char>)>,
)
    ensures
        ({
            let v = run_fs(
                FsView { root: initial_root(mounted), cwd: Seq::empty(), pending: None },
                steps,
            );
            &&& v.cwd == Seq::<Seq<char>>::empty()
            &&& super::pwd_spec(v.cwd) == "/"@
        }),
{
    lemma_run_keeps_cwd(
        FsView { root: initial_root(mounted), cwd: Seq::empty(), pending: None },
        steps,
    );
    lemma_cwd_stays(
        FsView { root: initial_root(mounted), cwd: Seq::empty(), pending: None },
        Seq::empty(),
        Seq::empty(),
        Seq::empty(),
    );
}

proof fn lemma_run_keeps_cwd(v: FsView, steps: Seq<(nat, Seq<char>, Seq<char>)>)
    ensures
        run_fs(v, steps).cwd == v.cwd,
    decreases steps.len(),
{
    if steps.len() > 0 {
        lemma_cwd_stays(v, steps[0].1, steps[0].1, steps[0].2);
        lemma_run_keeps_cwd(fs_step(v, steps[0]), steps.drop_first());
    }
}

// ---------------------------------------------------------------------
// Completion

/// The completion candidates for `prefix` are exactly the names that
/// start with it, in their order: every name starting with `prefix` (one
/// equal to it included) is a candidate, and every candidate is such a
/// name.
pub proof fn lemma_completion_exact(ns: Seq<Seq<char>>, prefix: Seq<char>)
    ensures
        forall|i: int|
            0 <= i < ns.len() && prefix.is_prefix_of(#[trigger] ns[i]) ==> with_prefix(
                ns,
                prefix,
            ).contains(ns[i]),
        forall|j: int|
            0 <= j < with_prefix(ns, prefix).len() ==> ns.contains(
                #[trigger] with_prefix(ns, prefix)[j],
            ) && prefix.is_prefix_of(with_prefix(ns, prefix)[j]),
        with_prefix(ns, prefix).len() <= ns.len(),
    decreases ns.len(),
{
    if ns.len() > 0 {
        let init = ns.drop_last();
        lemma_completion_exact(init, prefix);
        let r = with_prefix(init, prefix);
        assert forall|i: int|
            0 <= i < ns.len() && prefix.is_prefix_of(#[trigger] ns[i]) implies with_prefix(
                ns,
                prefix,
            ).contains(ns[i]) by {
            if i < ns.len() - 1 {
                assert(init[i] == ns[i]);
                let k = choose|k: int| 0 <= k < r.len() && r[k] == init[i];
                assert(with_prefix(ns, prefix)[k] == r[k]);
            } else {
                assert(with_prefix(ns, prefix).last() == ns[i]);
            }
        }
        assert forall|j: int| 0 <= j < with_prefix(ns, prefix).len() implies ns.contains(
            #[trigger] with_prefix(ns, prefix)[j],
        ) && prefix.is_prefix_of(with_prefix(ns, prefix)[j]) by {
            if j < r.len() {
                assert(with_prefix(ns, prefix)[j] == r[j]);
                let k = choose|k: int| 0 <= k < init.len() && init[k] == r[j];
                assert(ns[k] == init[k]);
            } else {
                assert(ns[ns.len() - 1] == ns.last());
            }
        }
    }
}

/// Every entry of a directory, and every entry below it, is among the
/// names that completion searches.
pub proof fn lemma_names_cover(cs: Seq<(Seq<char>, Tree)>)
    ensures
        forall|i: int| 0 <= i < cs.len() ==> names_in(cs).contains(#[trigger] cs[i].0),
        forall|i: int, j: int|
            0 <= i < cs.len() && 0 <= j < names_of(cs[i].1).len() ==> names_in(cs).contains(
                #[trigger] names_of(cs[i].1)[j],
            ),
    decreases cs.len(),
{
    if cs.len() > 0 {
        let init = cs.drop_last();
        lemma_names_cover(init);
        let a = names_in(init);
        let b = names_of(cs.last().1);
        let all = a + seq![cs.last().0] + b;
        assert(names_in(cs) == all);
        assert forall|i: int| 0 <= i < cs.len() implies names_in(cs).contains(#[trigger] cs[i].0) by {
            if i < cs.len() - 1 {
                assert(init[i] == cs[i]);
                let k = choose|k: int| 0 <= k < a.len() && a[k] == init[i].0;
                assert(all[k] == a[k]);
            } else {
                assert(all[a.len() as int] == cs.last().0);
            }
        }
        assert forall|i: int, j: int|
            0 <= i < cs.len() && 0 <= j < names_of(cs[i].1).len() implies names_in(cs).contains(
                #[trigger] names_of(cs[i].1)[j],
            ) by {
            if i < cs.len() - 1 {
                assert(init[i] == cs[i]);
                let k = choose|k: int| 0 <= k < a.len() && a[k] == names_of(init[i].1)[j];
                assert(all[k] == a[k]);
            } else {
                assert(all[a.len() + 1 + j] == b[j]);
            }
        }
    }
}

/// Completion in a filesystem offers every entry name of the root
/// directory that starts with the prefix.
pub proof fn lemma_completion_offers_root_entries(v: FsView, prefix: Seq<char>, i: int)
    requires
        v.root matches Tree::Dir(cs) && 0 <= i < cs.len() && prefix.is_prefix_of(cs[i].0),
    ensures
        with_prefix(names_of(v.root), prefix).contains(v.root->Dir_0[i].0),
{
    let cs = v.root->Dir_0;
    lemma_names_cover(cs);
    assert(names_in(cs).contains(cs[i].0));
    let k = choose|k: int| 0 <= k < names_in(cs).len() && names_in(cs)[k] == cs[i].0;
    lemma_completion_exact(names_in(cs), prefix);
    assert(prefix.is_prefix_of(names_in(cs)[k]));
}

// ---------------------------------------------------------------------
// Which names are accepted

/// A name is refused only when it is empty or holds `/` or `\`; spaces,
/// dots and any other characters are fine.
pub proof fn lemma_name_rules(name: Seq<char>)
    ensures
        name_error(name) is None <==> (name.len() > 0 && !name.contains('/') && !name.contains(
            '\\',
        )),
        name.len() == 0 ==> name_error(name) == Some("name required"),
        name.len() > 0 && (name.contains('/') || name.contains('\\')) ==> name_error(name) == Some(
            "invalid name",
        ),
{
}

/// `touch` accepts any non-empty name without `/` or `\` that is not yet
/// taken, as long as the grown tree keeps the limits; `write` likewise
/// for a name that is not a directory.
pub proof fn lemma_plain_names_accepted(v: FsView, name: Seq<char>, text: Seq<char>)
    requires
        name.len() > 0,
        !name.contains('/'),
        !name.contains('\\'),
        children_at(v.root, v.cwd) is Ok,
    ensures
        find_name(children_at(v.root, v.cwd)->Ok_0, name) is None && tree_fits(
            created_root(v, name, Tree::File(Seq::empty())),
        ) && blob_size(created_root(v, name, Tree::File(Seq::empty()))) <= MAX_METADATA_BYTES
            ==> touch_spec(v, name).1 is Ok,
        (find_name(children_at(v.root, v.cwd)->Ok_0, name) matches Some(i) ==> children_at(
            v.root,
            v.cwd,
        )->Ok_0[i].1 is File) && tree_fits(written_root(v, name, text)) && blob_size(
            written_root(v, name, text),
        ) <= MAX_METADATA_BYTES ==> write_file_spec(v, name, text).1 is Ok,
{
    let cs = children_at(v.root, v.cwd)->Ok_0;
    if find_name(cs, name) is None && tree_fits(created_root(v, name, Tree::File(Seq::empty())))
        && blob_size(created_root(v, name, Tree::File(Seq::empty()))) <= MAX_METADATA_BYTES {
        lemma_create_succeeds(v, name, Tree::File(Seq::empty()));
    }
    if (find_name(cs, name) matches Some(i) ==> cs[i].1 is File) && tree_fits(
        written_root(v, name, text),
    ) && blob_size(written_root(v, name, text)) <= MAX_METADATA_BYTES {
        lemma_write_succeeds(v, name, text);
    }
}

} // verus!
