//! What a sync writes mounts back as the same tree.

use vstd::prelude::*;
use vstd::utf8::encode_utf8;

use super::{
    deserialize_from, dir_record, empty_dir, file_record, find_name, first_error, flatten,
    flatten_children, insert_node, join_path_spec, le16, le32, lemma_find_name, lemma_find_name_is,
    lemma_parse_first_used, nonempty_parts, parse_first, path_parts, record_bytes, record_error,
    records_bytes, Parsed, Record, Tree, lookup, set_at, add_child,
    serialize_spec, sync_spec, mount_spec, format_spec, superblock_spec, region_spec, tree_magic,
    superblock_magic, is_formatted, recorded_len, read_metadata_spec, zeros,
    MAX_METADATA_BYTES, lemma_records_bytes_concat, lemma_flatten_children_split,
    lemma_flatten_children_prepend, lemma_single_record, lemma_first_error_concat, MAX_FILE_SIZE,
    MAX_PATH_BYTES,
};
use crate::text::split_spec;

verus! {

/// A name that survives being joined into a path and split back out.
pub open spec fn valid_name(n: Seq<char>) -> bool {
    n.len() > 0 && !n.contains('/')
}

/// Every directory's names are valid and distinct, all the way down.
pub open spec fn tree_well_formed(t: Tree) -> bool
    decreases t,
{
    match t {
        Tree::File(_) => true,
        Tree::Dir(cs) => children_well_formed(cs),
    }
}

pub open spec fn children_well_formed(cs: Seq<(Seq<char>, Tree)>) -> bool
    decreases cs,
{
    &&& forall|i: int| 0 <= i < cs.len() ==> valid_name(#[trigger] cs[i].0)
    &&& forall|i: int, j: int|
        0 <= i < j < cs.len() ==> #[trigger] cs[i].0 != #[trigger] cs[j].0
    &&& forall|i: int| 0 <= i < cs.len() ==> tree_well_formed(#[trigger] cs[i].1)
}

// ---------------------------------------------------------------------
// Arithmetic of the little-endian fields

pub proof fn lemma_le16(n: nat)
    requires
        n < 65536,
    ensures
        le16(n)[0] as int + le16(n)[1] as int * 256 == n,
{
    assert(n % 256 + (n / 256 % 256) * 256 == n) by (nonlinear_arith)
        requires
            n < 65536,
    ;
}

pub proof fn lemma_le32(n: u32)
    ensures
        le32(n as nat)[0] as int + le32(n as nat)[1] as int * 256 + le32(n as nat)[2] as int
            * 65536 + le32(n as nat)[3] as int * 16777216 == n,
{
    assert(n % 256 + (n / 256 % 256) * 256 + (n / 65536 % 256) * 65536 + (n / 16777216 % 256)
        * 16777216 == n) by (bit_vector);
}

// ---------------------------------------------------------------------
// Paths: joining names and splitting them back

/// `names` joined with `/`.
pub open spec fn join_names(names: Seq<Seq<char>>) -> Seq<char>
    decreases names.len(),
{
    if names.len() == 0 {
        Seq::empty()
    } else if names.len() == 1 {
        names[0]
    } else {
        join_names(names.drop_last()) + seq!['/'] + names.last()
    }
}

pub open spec fn all_valid(names: Seq<Seq<char>>) -> bool {
    forall|i: int| 0 <= i < names.len() ==> valid_name(#[trigger] names[i])
}

pub proof fn lemma_join_names_nonempty(names: Seq<Seq<char>>)
    requires
        names.len() > 0,
        all_valid(names),
    ensures
        join_names(names).len() > 0,
    decreases names.len(),
{
    assert(valid_name(names[names.len() - 1]));
}

pub proof fn lemma_join_path_names(names: Seq<Seq<char>>, n: Seq<char>)
    requires
        all_valid(names),
    ensures
        join_path_spec(join_names(names), n) == join_names(names.push(n)),
{
    assert(names.push(n).drop_last() =~= names);
    if names.len() > 0 {
        lemma_join_names_nonempty(names);
    } else {
        assert(join_names(names.push(n)) == names.push(n)[0]);
    }
}

pub proof fn lemma_split_no_sep(s: Seq<char>)
    requires
        !s.contains('/'),
    ensures
        split_spec(s, '/') == seq![s],
    decreases s.len(),
{
    if s.len() > 0 {
        assert(!s.drop_last().contains('/')) by {
            if s.drop_last().contains('/') {
                let k = choose|k: int| 0 <= k < s.drop_last().len() && s.drop_last()[k] == '/';
                assert(s[k] == '/');
            }
        }
        lemma_split_no_sep(s.drop_last());
        assert(s.last() != '/') by {
            assert(s[s.len() - 1] == s.last());
        }
        assert(s.drop_last().push(s.last()) =~= s);
        assert(seq![s.drop_last()].update(0, s.drop_last().push(s.last())) =~= seq![s]);
    } else {
        assert(s =~= Seq::<char>::empty());
    }
}

pub proof fn lemma_split_append(a: Seq<char>, b: Seq<char>)
    requires
        !b.contains('/'),
    ensures
        split_spec(a + seq!['/'] + b, '/') == split_spec(a, '/').push(b),
    decreases b.len(),
{
    let s = a + seq!['/'] + b;
    if b.len() == 0 {
        assert(s =~= a.push('/'));
        assert(s.drop_last() =~= a);
        assert(s.last() == '/');
        assert(b =~= Seq::<char>::empty());
    } else {
        let b2 = b.drop_last();
        assert(!b2.contains('/')) by {
            if b2.contains('/') {
                let k = choose|k: int| 0 <= k < b2.len() && b2[k] == '/';
                assert(b[k] == '/');
            }
        }
        lemma_split_append(a, b2);
        assert(s.drop_last() =~= a + seq!['/'] + b2);
        assert(s.last() == b.last());
        assert(b.last() != '/') by {
            assert(b[b.len() - 1] == b.last());
        }
        let p = split_spec(a, '/').push(b2);
        assert(p.update(p.len() - 1, p.last().push(b.last())) =~= split_spec(a, '/').push(b)) by {
            assert(b2.push(b.last()) =~= b);
        }
    }
}

pub proof fn lemma_split_join(names: Seq<Seq<char>>)
    requires
        names.len() > 0,
        all_valid(names),
    ensures
        split_spec(join_names(names), '/') == names,
    decreases names.len(),
{
    assert(valid_name(names[names.len() - 1]));
    if names.len() == 1 {
        lemma_split_no_sep(names[0]);
        assert(seq![names[0]] =~= names);
    } else {
        let init = names.drop_last();
        assert(all_valid(init)) by {
            assert forall|i: int| 0 <= i < init.len() implies valid_name(#[trigger] init[i]) by {
                assert(init[i] == names[i]);
            }
        }
        lemma_split_join(init);
        lemma_split_append(join_names(init), names.last());
        assert(init.push(names.last()) =~= names);
    }
}

pub proof fn lemma_nonempty_parts_all(ps: Seq<Seq<char>>)
    requires
        forall|i: int| 0 <= i < ps.len() ==> (#[trigger] ps[i]).len() > 0,
    ensures
        nonempty_parts(ps) == ps,
    decreases ps.len(),
{
    if ps.len() > 0 {
        let init = ps.drop_last();
        assert forall|i: int| 0 <= i < init.len() implies (#[trigger] init[i]).len() > 0 by {
            assert(init[i] == ps[i]);
        }
        lemma_nonempty_parts_all(init);
        assert(ps[ps.len() - 1] == ps.last());
        assert(init.push(ps.last()) =~= ps);
    }
}

/// Splitting a joined path gives back its names.
pub proof fn lemma_path_parts_join(names: Seq<Seq<char>>)
    requires
        all_valid(names),
    ensures
        path_parts(join_names(names)) == names,
{
    if names.len() == 0 {
        assert(split_spec(Seq::<char>::empty(), '/') == seq![Seq::<char>::empty()]);
        reveal_with_fuel(nonempty_parts, 2);
        assert(seq![Seq::<char>::empty()].drop_last() =~= Seq::<Seq<char>>::empty());
    } else {
        lemma_split_join(names);
        assert forall|i: int| 0 <= i < names.len() implies (#[trigger] names[i]).len() > 0 by {
            assert(valid_name(names[i]));
        }
        lemma_nonempty_parts_all(names);
    }
}

// ---------------------------------------------------------------------
// Reading the records back

/// The node that a record stands for.
pub open spec fn record_node(r: Record) -> Tree {
    if r.kind == 1 {
        Tree::File(r.content)
    } else {
        empty_dir()
    }
}

/// What the loader inserts for each record: the names along its path and
/// its node.
pub open spec fn items_of(rs: Seq<Record>) -> Seq<(Seq<Seq<char>>, Tree)> {
    Seq::new(rs.len(), |i: int| (path_parts(rs[i].path), record_node(rs[i])))
}

pub open spec fn well_kinded(rs: Seq<Record>) -> bool {
    forall|i: int| 0 <= i < rs.len() ==> (#[trigger] rs[i]).kind == 1 || rs[i].kind == 2
}

/// Inserting each item in turn.
pub open spec fn fold_items(t: Tree, items: Seq<(Seq<Seq<char>>, Tree)>) -> Result<
    Tree,
    &'static str,
>
    decreases items.len(),
{
    if items.len() == 0 {
        Ok(t)
    } else {
        match insert_node(t, items[0].0, items[0].1) {
            Ok(t2) => fold_items(t2, items.drop_first()),
            Err(e) => Err(e),
        }
    }
}

pub proof fn lemma_fold_items_concat(
    t: Tree,
    a: Seq<(Seq<Seq<char>>, Tree)>,
    b: Seq<(Seq<Seq<char>>, Tree)>,
)
    ensures
        fold_items(t, a + b) == match fold_items(t, a) {
            Ok(t2) => fold_items(t2, b),
            Err(e) => Err(e),
        },
    decreases a.len(),
{
    if a.len() == 0 {
        assert(a + b =~= b);
    } else {
        assert((a + b)[0] == a[0]);
        assert((a + b).drop_first() =~= a.drop_first() + b);
        match insert_node(t, a[0].0, a[0].1) {
            Ok(t2) => lemma_fold_items_concat(t2, a.drop_first(), b),
            Err(e) => {},
        }
    }
}

/// The loader reads a well-formed record back as what was written.
pub proof fn lemma_parse_record(r: Record, rest: Seq<u8>)
    requires
        record_error(r) is None,
        r.kind == 1 || r.kind == 2,
    ensures
        parse_first(record_bytes(r) + rest) == (Parsed::Entry {
            path: r.path,
            node: record_node(r),
            used: record_bytes(r).len() as int,
        }),
{
    let pb = encode_utf8(r.path);
    vstd::utf8::encode_utf8_valid_utf8(r.path);
    vstd::utf8::encode_utf8_decode_utf8(r.path);
    let data = record_bytes(r) + rest;
    let head = seq![r.kind, pb.len() as u8] + pb;
    assert(data[0] == r.kind);
    assert(data[1] as int == pb.len());
    assert(data.skip(2).take(pb.len() as int) =~= pb);
    if r.kind == 1 {
        let cb = encode_utf8(r.content);
        vstd::utf8::encode_utf8_valid_utf8(r.content);
        vstd::utf8::encode_utf8_decode_utf8(r.content);
        lemma_le16(cb.len());
        let after = data.skip(2).skip(pb.len() as int);
        assert(after =~= le16(cb.len()) + cb + rest);
        assert(after[0] == le16(cb.len())[0] && after[1] == le16(cb.len())[1]);
        assert(after.skip(2).take(cb.len() as int) =~= cb);
    } else {
        assert(record_bytes(r) == head);
    }
}

/// Loading the bytes of well-formed records inserts their items in turn.
pub proof fn lemma_deserialize_records(root: Tree, rs: Seq<Record>)
    requires
        first_error(rs) is None,
        well_kinded(rs),
    ensures
        deserialize_from(root, records_bytes(rs)) == fold_items(root, items_of(rs)),
    decreases rs.len(),
{
    if rs.len() == 0 {
        assert(items_of(rs) =~= Seq::<(Seq<Seq<char>>, Tree)>::empty());
    } else {
        let r = rs[0];
        let tail = rs.drop_first();
        assert(record_error(r) is None);
        assert(r.kind == 1 || r.kind == 2);
        assert(well_kinded(tail)) by {
            assert forall|i: int| 0 <= i < tail.len() implies (#[trigger] tail[i]).kind == 1
                || tail[i].kind == 2 by {
                assert(tail[i] == rs[i + 1]);
            }
        }
        let data = records_bytes(rs);
        assert(data == record_bytes(r) + records_bytes(tail));
        lemma_parse_record(r, records_bytes(tail));
        lemma_parse_first_used(data);
        assert(data.skip(record_bytes(r).len() as int) =~= records_bytes(tail));
        assert(items_of(rs)[0] == (path_parts(r.path), record_node(r)));
        assert(items_of(rs).drop_first() =~= items_of(tail));
        match insert_node(root, path_parts(r.path), record_node(r)) {
            Ok(t) => lemma_deserialize_records(t, tail),
            Err(e) => {},
        }
    }
}

// ---------------------------------------------------------------------
// Paths into a tree

/// Renaming nothing keeps the first index of every name.
pub proof fn lemma_find_name_update(
    cs: Seq<(Seq<char>, Tree)>,
    i: int,
    v: (Seq<char>, Tree),
    n: Seq<char>,
)
    requires
        0 <= i < cs.len(),
        v.0 == cs[i].0,
    ensures
        find_name(cs.update(i, v), n) == find_name(cs, n),
{
    lemma_find_name(cs, n);
    let cs2 = cs.update(i, v);
    assert forall|j: int| 0 <= j < cs.len() implies cs2[j].0 == cs[j].0 by {}
    lemma_find_name_is(cs2, n, find_name(cs, n));
}

pub proof fn lemma_set_at_same(t: Tree, path: Seq<Seq<char>>, x: Tree)
    requires
        lookup(t, path) == Ok::<Tree, &'static str>(x),
    ensures
        set_at(t, path, x) == t,
    decreases path.len(),
{
    if path.len() > 0 {
        let cs = t->Dir_0;
        let i = find_name(cs, path[0])->0;
        lemma_find_name(cs, path[0]);
        lemma_set_at_same(cs[i].1, path.drop_first(), x);
        assert(cs.update(i, (cs[i].0, cs[i].1)) =~= cs);
    }
}

pub proof fn lemma_lookup_set_at(t: Tree, path: Seq<Seq<char>>, x: Tree)
    requires
        lookup(t, path) is Ok,
    ensures
        lookup(set_at(t, path, x), path) == Ok::<Tree, &'static str>(x),
    decreases path.len(),
{
    if path.len() > 0 {
        let cs = t->Dir_0;
        let i = find_name(cs, path[0])->0;
        lemma_find_name(cs, path[0]);
        let v = (cs[i].0, set_at(cs[i].1, path.drop_first(), x));
        lemma_find_name_update(cs, i, v, path[0]);
        lemma_lookup_set_at(cs[i].1, path.drop_first(), x);
    }
}

pub proof fn lemma_set_at_twice(t: Tree, path: Seq<Seq<char>>, a: Tree, b: Tree)
    requires
        lookup(t, path) is Ok,
    ensures
        set_at(set_at(t, path, a), path, b) == set_at(t, path, b),
    decreases path.len(),
{
    if path.len() > 0 {
        let cs = t->Dir_0;
        let i = find_name(cs, path[0])->0;
        lemma_find_name(cs, path[0]);
        let v = (cs[i].0, set_at(cs[i].1, path.drop_first(), a));
        lemma_find_name_update(cs, i, v, path[0]);
        lemma_set_at_twice(cs[i].1, path.drop_first(), a, b);
        let cs_a = cs.update(i, v);
        assert(cs_a.update(i, (cs_a[i].0, set_at(cs_a[i].1, path.drop_first(), b))) =~= cs.update(
            i,
            (cs[i].0, set_at(cs[i].1, path.drop_first(), b)),
        ));
    }
}

/// Setting a child of a directory is setting the directory.
pub proof fn lemma_set_at_child(
    t: Tree,
    path: Seq<Seq<char>>,
    ys: Seq<(Seq<char>, Tree)>,
    k: int,
    x: Tree,
)
    requires
        lookup(t, path) == Ok::<Tree, &'static str>(Tree::Dir(ys)),
        find_name(ys, ys[k].0) == Some(k),
        0 <= k < ys.len(),
    ensures
        set_at(t, path.push(ys[k].0), x) == set_at(t, path, Tree::Dir(ys.update(k, (ys[k].0, x)))),
        lookup(t, path.push(ys[k].0)) == Ok::<Tree, &'static str>(ys[k].1),
    decreases path.len(),
{
    let n = ys[k].0;
    if path.len() == 0 {
        reveal_with_fuel(set_at, 2);
        reveal_with_fuel(lookup, 2);
        assert(t == Tree::Dir(ys));
        assert(path.push(n) =~= seq![n]);
        assert(seq![n].drop_first() =~= Seq::<Seq<char>>::empty());
        assert(seq![n][0] == n);
    } else {
        let cs = t->Dir_0;
        let i = find_name(cs, path[0])->0;
        lemma_find_name(cs, path[0]);
        assert(path.push(n)[0] == path[0]);
        assert(path.push(n).drop_first() =~= path.drop_first().push(n));
        lemma_set_at_child(cs[i].1, path.drop_first(), ys, k, x);
    }
}

/// Inserting below a directory that the path reaches adds (or replaces)
/// one entry of that directory.
pub proof fn lemma_insert_at_dir(
    t: Tree,
    path: Seq<Seq<char>>,
    xs: Seq<(Seq<char>, Tree)>,
    n: Seq<char>,
    x: Tree,
)
    requires
        lookup(t, path) == Ok::<Tree, &'static str>(Tree::Dir(xs)),
    ensures
        insert_node(t, path.push(n), x) == Ok::<Tree, &'static str>(
            set_at(t, path, Tree::Dir(add_child(xs, n, x))),
        ),
    decreases path.len(),
{
    if path.len() == 0 {
        assert(path.push(n) =~= seq![n]);
    } else {
        let cs = t->Dir_0;
        let i = find_name(cs, path[0])->0;
        lemma_find_name(cs, path[0]);
        assert(path.push(n)[0] == path[0]);
        assert(path.push(n).drop_first() =~= path.drop_first().push(n));
        lemma_insert_at_dir(cs[i].1, path.drop_first(), xs, n, x);
    }
}

// ---------------------------------------------------------------------
// The tree, rebuilt record by record

/// What the loader inserts for `t` placed at the names `p`.
pub open spec fn node_items(p: Seq<Seq<char>>, t: Tree) -> Seq<(Seq<Seq<char>>, Tree)>
    decreases t,
{
    match t {
        Tree::File(c) => seq![(p, Tree::File(c))],
        Tree::Dir(cs) => seq![(p, empty_dir())] + dir_items(p, cs),
    }
}

/// What the loader inserts for the children `cs` of the directory at `p`.
pub open spec fn dir_items(p: Seq<Seq<char>>, cs: Seq<(Seq<char>, Tree)>) -> Seq<
    (Seq<Seq<char>>, Tree),
>
    decreases cs,
{
    if cs.len() == 0 {
        Seq::empty()
    } else {
        dir_items(p, cs.drop_last()) + node_items(p.push(cs.last().0), cs.last().1)
    }
}

pub proof fn lemma_items_concat(a: Seq<Record>, b: Seq<Record>)
    ensures
        items_of(a + b) == items_of(a) + items_of(b),
        well_kinded(a) && well_kinded(b) ==> well_kinded(a + b),
{
    assert(items_of(a + b) =~= items_of(a) + items_of(b));
    if well_kinded(a) && well_kinded(b) {
        assert forall|i: int| 0 <= i < (a + b).len() implies (#[trigger] (a + b)[i]).kind == 1
            || (a + b)[i].kind == 2 by {
            if i < a.len() {
                assert((a + b)[i] == a[i]);
            } else {
                assert((a + b)[i] == b[i - a.len()]);
            }
        }
    }
}

pub proof fn lemma_children_prefix(cs: Seq<(Seq<char>, Tree)>)
    requires
        cs.len() > 0,
        children_well_formed(cs),
    ensures
        children_well_formed(cs.drop_last()),
        valid_name(cs.last().0),
        tree_well_formed(cs.last().1),
        forall|j: int| 0 <= j < cs.len() - 1 ==> cs.drop_last()[j].0 != cs.last().0,
{
    let init = cs.drop_last();
    assert forall|i: int| 0 <= i < init.len() implies valid_name(#[trigger] init[i].0) by {
        assert(init[i] == cs[i]);
    }
    assert forall|i: int, j: int| 0 <= i < j < init.len() implies #[trigger] init[i].0
        != #[trigger] init[j].0 by {
        assert(init[i] == cs[i] && init[j] == cs[j]);
    }
    assert forall|i: int| 0 <= i < init.len() implies tree_well_formed(#[trigger] init[i].1) by {
        assert(init[i] == cs[i]);
    }
    assert(cs.last() == cs[cs.len() - 1]);
    assert(valid_name(cs[cs.len() - 1].0));
    assert(tree_well_formed(cs[cs.len() - 1].1));
    assert forall|j: int| 0 <= j < cs.len() - 1 implies cs.drop_last()[j].0 != cs.last().0 by {
        assert(cs.drop_last()[j] == cs[j]);
    }
}

/// The records of `t` at the joined path `p` are its items at `p`.
pub proof fn lemma_flatten_node_items(p: Seq<Seq<char>>, t: Tree)
    requires
        p.len() > 0,
        all_valid(p),
        tree_well_formed(t),
    ensures
        items_of(flatten(join_names(p), t)) == node_items(p, t),
        well_kinded(flatten(join_names(p), t)),
    decreases t,
{
    let path = join_names(p);
    lemma_path_parts_join(p);
    lemma_join_names_nonempty(p);
    match t {
        Tree::File(c) => {
            assert(items_of(seq![file_record(path, c)]) =~= seq![(p, Tree::File(c))]);
        },
        Tree::Dir(cs) => {
            let own = seq![dir_record(path)];
            assert(items_of(own) =~= seq![(p, empty_dir())]);
            lemma_flatten_dir_items(p, cs);
            lemma_items_concat(own, flatten_children(path, cs));
        },
    }
}

/// The records of the children `cs` under the joined path `p` are their
/// items under `p`.
pub proof fn lemma_flatten_dir_items(p: Seq<Seq<char>>, cs: Seq<(Seq<char>, Tree)>)
    requires
        all_valid(p),
        children_well_formed(cs),
    ensures
        items_of(flatten_children(join_names(p), cs)) == dir_items(p, cs),
        well_kinded(flatten_children(join_names(p), cs)),
    decreases cs,
{
    if cs.len() == 0 {
        assert(items_of(Seq::<Record>::empty()) =~= Seq::<(Seq<Seq<char>>, Tree)>::empty());
    } else {
        let init = cs.drop_last();
        let (n, c) = cs.last();
        lemma_children_prefix(cs);
        lemma_flatten_dir_items(p, init);
        lemma_join_path_names(p, n);
        let q = p.push(n);
        assert(all_valid(q)) by {
            assert forall|i: int| 0 <= i < q.len() implies valid_name(#[trigger] q[i]) by {
                if i < p.len() {
                    assert(q[i] == p[i]);
                }
            }
        }
        assert(decreases_to!(cs => cs[cs.len() - 1]));
        assert(decreases_to!(cs[cs.len() - 1] => cs[cs.len() - 1].1));
        lemma_flatten_node_items(q, c);
        lemma_items_concat(
            flatten_children(join_names(p), init),
            flatten(join_names(q), c),
        );
    }
}

/// Inserting the items of the children `cs` into a directory (reached by
/// `p`) that holds none of their names appends them in order.
pub proof fn lemma_fold_dir_items(
    t: Tree,
    p: Seq<Seq<char>>,
    pre: Seq<(Seq<char>, Tree)>,
    cs: Seq<(Seq<char>, Tree)>,
)
    requires
        lookup(t, p) == Ok::<Tree, &'static str>(Tree::Dir(pre)),
        children_well_formed(cs),
        forall|i: int| 0 <= i < cs.len() ==> find_name(pre, #[trigger] cs[i].0) is None,
    ensures
        fold_items(t, dir_items(p, cs)) == Ok::<Tree, &'static str>(
            set_at(t, p, Tree::Dir(pre + cs)),
        ),
    decreases cs,
{
    if cs.len() == 0 {
        lemma_set_at_same(t, p, Tree::Dir(pre));
        assert(pre + cs =~= pre);
    } else {
        let init = cs.drop_last();
        let (n, c) = cs.last();
        lemma_children_prefix(cs);
        assert forall|i: int| 0 <= i < init.len() implies find_name(pre, #[trigger] init[i].0)
            is None by {
            assert(init[i] == cs[i]);
        }
        lemma_fold_dir_items(t, p, pre, init);
        let t1 = set_at(t, p, Tree::Dir(pre + init));
        lemma_fold_items_concat(t, dir_items(p, init), node_items(p.push(n), c));
        assert(dir_items(p, cs) == dir_items(p, init) + node_items(p.push(n), c));
        assert(fold_items(t, dir_items(p, cs)) == fold_items(t1, node_items(p.push(n), c)));
        lemma_lookup_set_at(t, p, Tree::Dir(pre + init));
        // `n` is new to the directory
        let ys0 = pre + init;
        assert(find_name(pre, cs[cs.len() - 1].0) is None);
        lemma_find_name(pre, n);
        assert forall|j: int| 0 <= j < ys0.len() implies ys0[j].0 != n by {
            if j >= pre.len() {
                assert(ys0[j] == init[j - pre.len()]);
            }
        }
        lemma_find_name_is(ys0, n, None);
        assert(ys0.push((n, c)) =~= pre + cs);
        lemma_insert_at_dir(t1, p, ys0, n, c);
        lemma_insert_at_dir(t1, p, ys0, n, empty_dir());
        match c {
            Tree::File(x) => {
                let item = (p.push(n), Tree::File(x));
                assert(node_items(p.push(n), c) == seq![item]);
                lemma_set_at_twice(t, p, Tree::Dir(ys0), Tree::Dir(pre + cs));
                assert(seq![item].drop_first() =~= Seq::<(Seq<Seq<char>>, Tree)>::empty());
                assert(add_child(ys0, n, c) == ys0.push((n, c)));
                let done = set_at(t1, p, Tree::Dir(pre + cs));
                assert(insert_node(t1, p.push(n), c) == Ok::<Tree, &'static str>(done));
                assert(fold_items(done, seq![item].drop_first()) == Ok::<Tree, &'static str>(done));
                assert(fold_items(t1, seq![item]) == Ok::<Tree, &'static str>(done));
            },
            Tree::Dir(gcs) => {
                let ys = ys0.push((n, empty_dir()));
                let t2 = set_at(t1, p, Tree::Dir(ys));
                assert(add_child(ys0, n, empty_dir()) == ys);
                assert(insert_node(t1, p.push(n), empty_dir()) == Ok::<Tree, &'static str>(t2));
                lemma_set_at_twice(t, p, Tree::Dir(ys0), Tree::Dir(ys));
                assert(t2 == set_at(t, p, Tree::Dir(ys)));
                lemma_lookup_set_at(t, p, Tree::Dir(ys));
                let k = ys0.len() as int;
                assert(ys[k].0 == n);
                assert forall|j: int| 0 <= j < k implies ys[j].0 != n by {
                    assert(ys[j] == ys0[j]);
                }
                lemma_find_name_is(ys, n, Some(k));
                lemma_set_at_child(t2, p, ys, k, Tree::Dir(gcs));
                assert(ys[k].1 == Tree::Dir(Seq::<(Seq<char>, Tree)>::empty()));
                assert(tree_well_formed(c));
                assert(children_well_formed(gcs));
                assert(decreases_to!(cs => cs[cs.len() - 1]));
                assert(decreases_to!(cs[cs.len() - 1] => cs[cs.len() - 1].1));
                assert(decreases_to!(cs[cs.len() - 1].1 => gcs));
                lemma_fold_dir_items(t2, p.push(n), Seq::empty(), gcs);
                assert(Seq::<(Seq<char>, Tree)>::empty() + gcs =~= gcs);
                let items = node_items(p.push(n), c);
                assert(items == seq![(p.push(n), empty_dir())] + dir_items(p.push(n), gcs));
                assert(items[0] == (p.push(n), empty_dir()));
                assert(items.drop_first() =~= dir_items(p.push(n), gcs));
                lemma_set_at_twice(t, p, Tree::Dir(ys), Tree::Dir(ys.update(k, (n, c))));
                assert(ys.update(k, (n, c)) =~= pre + cs);
                let done = set_at(t, p, Tree::Dir(pre + cs));
                assert(set_at(t2, p.push(n), Tree::Dir(gcs)) == done);
                assert(fold_items(t2, dir_items(p.push(n), gcs)) == Ok::<Tree, &'static str>(done));
                assert(fold_items(t1, items) == fold_items(t2, items.drop_first()));
            },
        }
    }
}

// ---------------------------------------------------------------------
// The laws

/// What the superblock written for a blob of `len` bytes records.
pub proof fn lemma_superblock_fields(len: nat)
    requires
        len <= MAX_METADATA_BYTES,
    ensures
        is_formatted(superblock_spec(len)),
        recorded_len(superblock_spec(len)) == len,
        superblock_spec(len).len() == 512,
{
    let sb = superblock_spec(len);
    assert(sb.take(8) =~= superblock_magic());
    let l = le32(len);
    assert(sb[20] == l[0] && sb[21] == l[1] && sb[22] == l[2] && sb[23] == l[3]);
    lemma_le32(len as u32);
}

/// The parser reads back what the serializer wrote: a well-formed tree
/// that serializes gives a blob that starts with `TREE`, and the records
/// after it parse back into the very same tree.
pub proof fn lemma_serialize_then_parse(t: Tree)
    requires
        tree_well_formed(t),
        serialize_spec(t) is Ok,
    ensures
        serialize_spec(t)->Ok_0.take(4) == tree_magic(),
        deserialize_from(empty_dir(), serialize_spec(t)->Ok_0.skip(4)) == Ok::<
            Tree,
            &'static str,
        >(t),
{
    let rs = flatten(Seq::empty(), t);
    match t {
        Tree::File(c) => {
            let r = file_record(Seq::empty(), c);
            assert(rs == seq![r]);
            assert(encode_utf8(Seq::<char>::empty()) =~= Seq::<u8>::empty());
            assert(record_error(r) is Some);
            assert(first_error(rs) is Some);
        },
        Tree::Dir(cs) => {
            assert(rs =~= flatten_children(Seq::empty(), cs));
            let blob = tree_magic() + records_bytes(rs);
            assert(serialize_spec(t) == Ok::<Seq<u8>, &'static str>(blob));
            assert(blob.take(4) =~= tree_magic());
            assert(blob.skip(4) =~= records_bytes(rs));
            assert(join_names(Seq::<Seq<char>>::empty()) == Seq::<char>::empty());
            lemma_flatten_dir_items(Seq::empty(), cs);
            lemma_deserialize_records(empty_dir(), rs);
            lemma_fold_dir_items(empty_dir(), Seq::empty(), Seq::empty(), cs);
            assert(Seq::<(Seq<char>, Tree)>::empty() + cs =~= cs);
        },
    }
}

// ---------------------------------------------------------------------
// The documented limits

/// A path a record can hold: one to `MAX_PATH_BYTES` bytes of UTF-8.
pub open spec fn path_fits(path: Seq<char>) -> bool {
    0 < encode_utf8(path).len() <= MAX_PATH_BYTES
}

/// The node `t` at `path` keeps the limits: every path below it (its own
/// included, unless it is the root) fits, and every file holds at most
/// `MAX_FILE_SIZE` bytes.
pub open spec fn node_fits(path: Seq<char>, t: Tree) -> bool
    decreases t,
{
    match t {
        Tree::File(c) => path_fits(path) && encode_utf8(c).len() <= MAX_FILE_SIZE,
        Tree::Dir(cs) => (path.len() == 0 || path_fits(path)) && children_fit(path, cs),
    }
}

pub open spec fn children_fit(path: Seq<char>, cs: Seq<(Seq<char>, Tree)>) -> bool
    decreases cs,
{
    if cs.len() == 0 {
        true
    } else {
        children_fit(path, cs.drop_last()) && node_fits(
            join_path_spec(path, cs.last().0),
            cs.last().1,
        )
    }
}

/// The limits on a whole tree: a directory at the root, every path at
/// most `MAX_PATH_BYTES` bytes, every file at most `MAX_FILE_SIZE`.
pub open spec fn tree_fits(t: Tree) -> bool {
    node_fits(Seq::empty(), t)
}

/// How many bytes the metadata blob of `t` takes.
pub open spec fn blob_size(t: Tree) -> nat {
    4 + records_bytes(flatten(Seq::empty(), t)).len()
}

proof fn lemma_fits_no_error(path: Seq<char>, t: Tree)
    requires
        node_fits(path, t),
    ensures
        first_error(flatten(path, t)) is None,
    decreases t,
{
    match t {
        Tree::File(c) => {
            let r = file_record(path, c);
            assert(flatten(path, t) == seq![r]);
            assert(seq![r].drop_first() =~= Seq::<Record>::empty());
            assert(record_error(r) is None);
            assert(first_error(Seq::<Record>::empty()) is None);
            assert(first_error(seq![r]) is None);
        },
        Tree::Dir(cs) => {
            lemma_children_fit_no_error(path, cs);
            assert(first_error(Seq::<Record>::empty()) is None);
            if path.len() > 0 {
                assert(path_fits(path));
                let pb = encode_utf8(dir_record(path).path);
                assert(pb == encode_utf8(path));
                assert(0 < pb.len() <= MAX_PATH_BYTES);
                assert(!(dir_record(path).kind == 1));
                assert(record_error(dir_record(path)) is None);
                assert(seq![dir_record(path)][0] == dir_record(path));
                assert(seq![dir_record(path)].drop_first() =~= Seq::<Record>::empty());
                assert(first_error(seq![dir_record(path)]) is None);
            }
            let head = if path.len() == 0 {
                Seq::<Record>::empty()
            } else {
                seq![dir_record(path)]
            };
            assert(seq![dir_record(path)].drop_first() =~= Seq::<Record>::empty());
            lemma_first_error_concat(head, flatten_children(path, cs));
        },
    }
}

proof fn lemma_children_fit_no_error(path: Seq<char>, cs: Seq<(Seq<char>, Tree)>)
    requires
        children_fit(path, cs),
    ensures
        first_error(flatten_children(path, cs)) is None,
    decreases cs,
{
    if cs.len() > 0 {
        lemma_children_fit_no_error(path, cs.drop_last());
        lemma_fits_no_error(join_path_spec(path, cs.last().0), cs.last().1);
        lemma_first_error_concat(
            flatten_children(path, cs.drop_last()),
            flatten(join_path_spec(path, cs.last().0), cs.last().1),
        );
    }
}

/// The limits make a sync succeed: a tree that keeps them serializes to a
/// blob of `blob_size` bytes, and syncs exactly when that blob fits in the
/// metadata region.
pub proof fn lemma_limits_sync(t: Tree)
    requires
        tree_fits(t),
    ensures
        serialize_spec(t) is Ok,
        serialize_spec(t)->Ok_0.len() == blob_size(t),
        sync_spec(t) is Ok <==> blob_size(t) <= MAX_METADATA_BYTES,
{
    lemma_fits_no_error(Seq::empty(), t);
}

/// Persistence from the limits alone: a well-formed tree within the
/// path, file and metadata limits syncs, and what it writes mounts back as
/// the same tree.
pub proof fn lemma_limits_then_remount(t: Tree)
    requires
        tree_well_formed(t),
        tree_fits(t),
        blob_size(t) <= MAX_METADATA_BYTES,
    ensures
        sync_spec(t) is Ok,
        mount_spec(sync_spec(t)->Ok_0.0, sync_spec(t)->Ok_0.1) == (
            None::<(Seq<u8>, Seq<u8>)>,
            Ok::<Tree, &'static str>(t),
        ),
{
    lemma_limits_sync(t);
    lemma_sync_then_mount(t);
}

/// Persistence: the image that a sync writes mounts back as the very tree
/// that was synced, for every well-formed tree whose sync succeeds.
pub proof fn lemma_sync_then_mount(t: Tree)
    requires
        tree_well_formed(t),
        sync_spec(t) is Ok,
    ensures
        mount_spec(sync_spec(t)->Ok_0.0, sync_spec(t)->Ok_0.1) == (
            None::<(Seq<u8>, Seq<u8>)>,
            Ok::<Tree, &'static str>(t),
        ),
{
    let rs = flatten(Seq::empty(), t);
    match t {
        Tree::File(c) => {
            let r = file_record(Seq::empty(), c);
            assert(rs == seq![r]);
            assert(encode_utf8(Seq::<char>::empty()) =~= Seq::<u8>::empty());
            assert(record_error(r) is Some);
            assert(first_error(rs) is Some);
        },
        Tree::Dir(cs) => {
            assert(rs =~= flatten_children(Seq::empty(), cs));
            let blob = tree_magic() + records_bytes(rs);
            assert(serialize_spec(t) == Ok::<Seq<u8>, &'static str>(blob));
            let sb = superblock_spec(blob.len());
            let region = region_spec(blob);
            lemma_superblock_fields(blob.len());
            assert(read_metadata_spec(sb, region) == Ok::<Seq<u8>, &'static str>(blob)) by {
                assert(region.take(blob.len() as int) =~= blob);
            }
            lemma_serialize_then_parse(t);
        },
    }
}

/// A freshly formatted region mounts as the empty tree.
pub proof fn lemma_format_then_mount()
    ensures
        mount_spec(format_spec().0, format_spec().1) == (
            None::<(Seq<u8>, Seq<u8>)>,
            Ok::<Tree, &'static str>(empty_dir()),
        ),
{
    lemma_superblock_fields(0);
    assert(zeros(MAX_METADATA_BYTES as nat).take(0) =~= Seq::<u8>::empty());
}

// ---------------------------------------------------------------------
// Well-formedness is kept

pub proof fn lemma_wf_push(cs: Seq<(Seq<char>, Tree)>, n: Seq<char>, x: Tree)
    requires
        children_well_formed(cs),
        valid_name(n),
        find_name(cs, n) is None,
        tree_well_formed(x),
    ensures
        children_well_formed(cs.push((n, x))),
{
    lemma_find_name(cs, n);
    let cs2 = cs.push((n, x));
    assert forall|i: int| 0 <= i < cs2.len() implies valid_name(#[trigger] cs2[i].0) by {
        if i < cs.len() {
            assert(cs2[i] == cs[i]);
        }
    }
    assert forall|i: int, j: int| 0 <= i < j < cs2.len() implies #[trigger] cs2[i].0
        != #[trigger] cs2[j].0 by {
        assert(cs2[i] == cs[i]);
        if j < cs.len() {
            assert(cs2[j] == cs[j]);
        }
    }
    assert forall|i: int| 0 <= i < cs2.len() implies tree_well_formed(#[trigger] cs2[i].1) by {
        if i < cs.len() {
            assert(cs2[i] == cs[i]);
        }
    }
}

pub proof fn lemma_wf_update(cs: Seq<(Seq<char>, Tree)>, k: int, x: Tree)
    requires
        children_well_formed(cs),
        0 <= k < cs.len(),
        tree_well_formed(x),
    ensures
        children_well_formed(cs.update(k, (cs[k].0, x))),
{
    let cs2 = cs.update(k, (cs[k].0, x));
    assert forall|i: int| 0 <= i < cs2.len() implies valid_name(#[trigger] cs2[i].0) by {
        assert(cs2[i].0 == cs[i].0);
    }
    assert forall|i: int, j: int| 0 <= i < j < cs2.len() implies #[trigger] cs2[i].0
        != #[trigger] cs2[j].0 by {
        assert(cs2[i].0 == cs[i].0 && cs2[j].0 == cs[j].0);
    }
    assert forall|i: int| 0 <= i < cs2.len() implies tree_well_formed(#[trigger] cs2[i].1) by {
        if i != k {
            assert(cs2[i] == cs[i]);
        }
    }
}

pub proof fn lemma_wf_set_at(t: Tree, path: Seq<Seq<char>>, x: Tree)
    requires
        tree_well_formed(t),
        lookup(t, path) is Ok,
        tree_well_formed(x),
    ensures
        tree_well_formed(set_at(t, path, x)),
    decreases path.len(),
{
    if path.len() > 0 {
        let cs = t->Dir_0;
        let i = find_name(cs, path[0])->0;
        lemma_find_name(cs, path[0]);
        assert(tree_well_formed(cs[i].1));
        lemma_wf_set_at(cs[i].1, path.drop_first(), x);
        lemma_wf_update(cs, i, set_at(cs[i].1, path.drop_first(), x));
    }
}

/// The pieces of a split never hold the separator.
pub proof fn lemma_split_pieces(s: Seq<char>)
    ensures
        forall|i: int|
            0 <= i < split_spec(s, '/').len() ==> !(#[trigger] split_spec(s, '/')[i]).contains('/'),
        split_spec(s, '/').len() > 0,
    decreases s.len(),
{
    if s.len() > 0 {
        lemma_split_pieces(s.drop_last());
        let ps = split_spec(s.drop_last(), '/');
        if s.last() != '/' {
            let last = ps.last().push(s.last());
            assert(!last.contains('/')) by {
                assert(!ps[ps.len() - 1].contains('/'));
                if last.contains('/') {
                    let k = choose|k: int| 0 <= k < last.len() && last[k] == '/';
                    if k < last.len() - 1 {
                        assert(ps.last()[k] == '/');
                    }
                }
            }
            let r = ps.update(ps.len() - 1, last);
            assert forall|i: int| 0 <= i < r.len() implies !(#[trigger] r[i]).contains('/') by {
                if i < ps.len() - 1 {
                    assert(r[i] == ps[i]);
                }
            }
        } else {
            let r = ps.push(Seq::empty());
            assert forall|i: int| 0 <= i < r.len() implies !(#[trigger] r[i]).contains('/') by {
                if i < ps.len() {
                    assert(r[i] == ps[i]);
                }
            }
        }
    } else {
        assert(!Seq::<char>::empty().contains('/'));
    }
}

pub proof fn lemma_nonempty_parts_valid(ps: Seq<Seq<char>>)
    requires
        forall|i: int| 0 <= i < ps.len() ==> !(#[trigger] ps[i]).contains('/'),
    ensures
        all_valid(nonempty_parts(ps)),
    decreases ps.len(),
{
    if ps.len() > 0 {
        let init = ps.drop_last();
        assert forall|i: int| 0 <= i < init.len() implies !(#[trigger] init[i]).contains('/') by {
            assert(init[i] == ps[i]);
        }
        lemma_nonempty_parts_valid(init);
        assert(!ps[ps.len() - 1].contains('/'));
        let r = nonempty_parts(init);
        if ps.last().len() > 0 {
            assert forall|i: int| 0 <= i < r.push(ps.last()).len() implies valid_name(
                #[trigger] r.push(ps.last())[i],
            ) by {
                if i < r.len() {
                    assert(r.push(ps.last())[i] == r[i]);
                }
            }
        }
    }
}

/// The names along any path are valid.
pub proof fn lemma_path_parts_valid(path: Seq<char>)
    ensures
        all_valid(path_parts(path)),
{
    lemma_split_pieces(path);
    lemma_nonempty_parts_valid(split_spec(path, '/'));
}

pub proof fn lemma_wf_insert(t: Tree, parts: Seq<Seq<char>>, node: Tree)
    requires
        tree_well_formed(t),
        all_valid(parts),
        tree_well_formed(node),
    ensures
        insert_node(t, parts, node) matches Ok(t2) ==> tree_well_formed(t2),
    decreases parts.len(),
{
    if parts.len() > 0 {
        match t {
            Tree::File(_) => {},
            Tree::Dir(cs) => {
                let name = parts[0];
                assert(valid_name(parts[0]));
                lemma_find_name(cs, name);
                if parts.len() == 1 {
                    match find_name(cs, name) {
                        Some(i) => lemma_wf_update(cs, i, node),
                        None => lemma_wf_push(cs, name, node),
                    }
                } else {
                    let rest = parts.drop_first();
                    assert(all_valid(rest)) by {
                        assert forall|j: int| 0 <= j < rest.len() implies valid_name(
                            #[trigger] rest[j],
                        ) by {
                            assert(rest[j] == parts[j + 1]);
                        }
                    }
                    let cs2 = match find_name(cs, name) {
                        Some(_) => cs,
                        None => cs.push((name, empty_dir())),
                    };
                    let i = match find_name(cs, name) {
                        Some(i) => i,
                        None => cs.len() as int,
                    };
                    if find_name(cs, name) is None {
                        assert(children_well_formed(Seq::<(Seq<char>, Tree)>::empty()));
                        lemma_wf_push(cs, name, empty_dir());
                    }
                    assert(cs2[i].0 == name);
                    assert(tree_well_formed(cs2[i].1));
                    lemma_wf_insert(cs2[i].1, rest, node);
                    match insert_node(cs2[i].1, rest, node) {
                        Ok(c) => lemma_wf_update(cs2, i, c),
                        Err(_) => {},
                    }
                }
            },
        }
    }
}

pub proof fn lemma_wf_deserialize(root: Tree, data: Seq<u8>)
    requires
        tree_well_formed(root),
    ensures
        deserialize_from(root, data) matches Ok(t) ==> tree_well_formed(t),
    decreases data.len(),
{
    match parse_first(data) {
        Parsed::Entry { path, node, used } => {
            lemma_parse_first_used(data);
            lemma_path_parts_valid(path);
            assert(children_well_formed(Seq::<(Seq<char>, Tree)>::empty()));
            assert(tree_well_formed(node));
            lemma_wf_insert(root, path_parts(path), node);
            match insert_node(root, path_parts(path), node) {
                Ok(t) => lemma_wf_deserialize(t, data.skip(used)),
                Err(_) => {},
            }
        },
        _ => {},
    }
}

/// Whatever mounting loads is well formed.
pub proof fn lemma_mount_well_formed(sb: Seq<u8>, region: Seq<u8>)
    ensures
        mount_spec(sb, region).1 matches Ok(t) ==> tree_well_formed(t),
{
    assert(children_well_formed(Seq::<(Seq<char>, Tree)>::empty()));
    if is_formatted(sb) {
        match read_metadata_spec(sb, region) {
            Ok(blob) => if !(blob.len() < 4 || blob.take(4) != tree_magic()) {
                lemma_wf_deserialize(empty_dir(), blob.skip(4));
            },
            Err(_) => {},
        }
    }
}

} // verus!
