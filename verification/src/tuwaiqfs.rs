//! TuwaiqFS v2: the on-disk form of the filesystem tree.
//!
//! Disk layout (512-byte sectors):
//!
//! ```text
//! LBA 0-8191     bootloader / kernel area (never touched)
//! LBA 8192       superblock
//! LBA 8193-8464  legacy data slots (reserved)
//! LBA 8465-8712  metadata blob (tree serialization, 248 sectors)
//! ```
//!
//! Superblock: magic `TQFSv2\0\0` at 0, then little-endian `u32` fields:
//! version (8), metadata LBA (12), metadata sector count (16) and the
//! metadata length in bytes (20).  The length is recorded by the writer and
//! read back as is: the blob is never inferred by scanning for zeros.
//!
//! The blob is `TREE` followed by records `kind, path_len, path` with, for
//! files (`kind` 1), a little-endian `u16` content length and the content;
//! directories are `kind` 2.  Paths join names with `/`.
//!
//! This module computes: the sector contents to write are handed back as a
//! [`MetadataImage`], and mounting takes the sectors that were read.

use vstd::prelude::*;
use vstd::utf8::{decode_utf8, encode_utf8, valid_utf8};

use crate::text;

pub mod roundtrip;

verus! {

pub const SUPERBLOCK_LBA: u32 = 8192;

pub const METADATA_LBA: u32 = 8465;

pub const METADATA_SECTORS: u32 = 248;

pub const SECTOR_SIZE: usize = 512;

/// 248 sectors of 512 bytes.
pub const MAX_METADATA_BYTES: usize = 126976;

pub const MAX_FILE_SIZE: usize = 2048;

pub const VERSION: u32 = 2;

/// Longest path (in bytes) that a record can hold.
pub const MAX_PATH_BYTES: usize = 120;

/// Serialized node loaded from or written to disk.
pub enum FsNode {
    File { content: String },
    Dir { children: Vec<(String, FsNode)> },
}

/// The sector contents that one sync (or a format) writes: the superblock
/// at `SUPERBLOCK_LBA` and the metadata region, `METADATA_SECTORS` sectors
/// from `METADATA_LBA` on.
pub struct MetadataImage {
    pub superblock: Vec<u8>,
    pub region: Vec<u8>,
}

/// A filesystem tree as a mathematical value: a file's characters, or a
/// directory's named children in order.
pub enum Tree {
    File(Seq<char>),
    Dir(Seq<(Seq<char>, Tree)>),
}

pub open spec fn node_tree(n: FsNode) -> Tree
    decreases n,
{
    match n {
        FsNode::File { content } => Tree::File(content@),
        FsNode::Dir { children } => Tree::Dir(children_trees(children@)),
    }
}

pub open spec fn children_trees(cs: Seq<(String, FsNode)>) -> Seq<(Seq<char>, Tree)>
    decreases cs,
{
    Seq::new(
        cs.len(),
        |i: int|
            if 0 <= i < cs.len() {
                (cs[i].0@, node_tree(cs[i].1))
            } else {
                (Seq::empty(), Tree::File(Seq::empty()))
            },
    )
}

impl View for FsNode {
    type V = Tree;

    open spec fn view(&self) -> Tree {
        node_tree(*self)
    }
}

impl View for MetadataImage {
    type V = (Seq<u8>, Seq<u8>);

    open spec fn view(&self) -> (Seq<u8>, Seq<u8>) {
        (self.superblock@, self.region@)
    }
}

pub open spec fn result_tree(r: Result<FsNode, &'static str>) -> Result<Tree, &'static str> {
    match r {
        Ok(n) => Ok(n@),
        Err(e) => Err(e),
    }
}

pub open spec fn option_image(o: Option<MetadataImage>) -> Option<(Seq<u8>, Seq<u8>)> {
    match o {
        Some(img) => Some(img@),
        None => None,
    }
}

pub open spec fn empty_dir() -> Tree {
    Tree::Dir(Seq::empty())
}

// ---------------------------------------------------------------------
// Records

/// One serialized record: `kind` 1 is a file, 2 a directory.
pub struct Record {
    pub kind: u8,
    pub path: Seq<char>,
    pub content: Seq<char>,
}

pub open spec fn file_record(path: Seq<char>, content: Seq<char>) -> Record {
    Record { kind: 1, path, content }
}

pub open spec fn dir_record(path: Seq<char>) -> Record {
    Record { kind: 2, path, content: Seq::empty() }
}

/// Why a record cannot be written, if it cannot.
pub open spec fn record_error(r: Record) -> Option<&'static str> {
    let pb = encode_utf8(r.path);
    if pb.len() == 0 || pb.len() > MAX_PATH_BYTES {
        Some("invalid path")
    } else if r.kind == 1 && encode_utf8(r.content).len() > MAX_FILE_SIZE {
        Some("file too large")
    } else {
        None
    }
}

pub open spec fn le16(n: nat) -> Seq<u8> {
    seq![(n % 256) as u8, (n / 256 % 256) as u8]
}

pub open spec fn le32(n: nat) -> Seq<u8> {
    seq![(n % 256) as u8, (n / 256 % 256) as u8, (n / 65536 % 256) as u8, (n / 16777216 % 256) as u8]
}

pub open spec fn record_bytes(r: Record) -> Seq<u8> {
    let pb = encode_utf8(r.path);
    let head = seq![r.kind, pb.len() as u8] + pb;
    if r.kind == 1 {
        let cb = encode_utf8(r.content);
        head + le16(cb.len()) + cb
    } else {
        head
    }
}

pub open spec fn records_bytes(rs: Seq<Record>) -> Seq<u8>
    decreases rs.len(),
{
    if rs.len() == 0 {
        Seq::empty()
    } else {
        record_bytes(rs[0]) + records_bytes(rs.drop_first())
    }
}

pub open spec fn first_error(rs: Seq<Record>) -> Option<&'static str>
    decreases rs.len(),
{
    if rs.len() == 0 {
        None
    } else if record_error(rs[0]) is Some {
        record_error(rs[0])
    } else {
        first_error(rs.drop_first())
    }
}

pub open spec fn join_path_spec(base: Seq<char>, name: Seq<char>) -> Seq<char> {
    if base.len() == 0 {
        name
    } else {
        base + seq!['/'] + name
    }
}

/// The records of `t` placed at `path`, in the order they are written:
/// a directory's own record (none for the root) before its children.
pub open spec fn flatten(path: Seq<char>, t: Tree) -> Seq<Record>
    decreases t,
{
    match t {
        Tree::File(c) => seq![file_record(path, c)],
        Tree::Dir(cs) => (if path.len() == 0 {
            Seq::empty()
        } else {
            seq![dir_record(path)]
        }) + flatten_children(path, cs),
    }
}

pub open spec fn flatten_children(path: Seq<char>, cs: Seq<(Seq<char>, Tree)>) -> Seq<Record>
    decreases cs,
{
    if cs.len() == 0 {
        Seq::empty()
    } else {
        flatten_children(path, cs.drop_last()) + flatten(
            join_path_spec(path, cs.last().0),
            cs.last().1,
        )
    }
}

pub open spec fn tree_magic() -> Seq<u8> {
    seq![84u8, 82u8, 69u8, 69u8]
}

/// The metadata blob of `t`, or the error of its first unwritable record.
pub open spec fn serialize_spec(t: Tree) -> Result<Seq<u8>, &'static str> {
    let rs = flatten(Seq::empty(), t);
    match first_error(rs) {
        Some(e) => Err(e),
        None => Ok(tree_magic() + records_bytes(rs)),
    }
}

pub open spec fn superblock_magic() -> Seq<u8> {
    seq![84u8, 81u8, 70u8, 83u8, 118u8, 50u8, 0u8, 0u8]
}

pub open spec fn zeros(n: nat) -> Seq<u8> {
    Seq::new(n, |i: int| 0u8)
}

/// The superblock recording a metadata blob of `len` bytes.
pub open spec fn superblock_spec(len: nat) -> Seq<u8> {
    superblock_magic() + le32(VERSION as nat) + le32(METADATA_LBA as nat) + le32(
        METADATA_SECTORS as nat,
    ) + le32(len) + zeros(488)
}

/// The metadata region holding `blob`, padded with zeros.
pub open spec fn region_spec(blob: Seq<u8>) -> Seq<u8> {
    blob + zeros((MAX_METADATA_BYTES - blob.len()) as nat)
}

/// What a sync of `t` writes, or why it cannot.
pub open spec fn sync_spec(t: Tree) -> Result<(Seq<u8>, Seq<u8>), &'static str> {
    match serialize_spec(t) {
        Err(e) => Err(e),
        Ok(blob) => if blob.len() > MAX_METADATA_BYTES {
            Err("filesystem metadata too large")
        } else {
            Ok((superblock_spec(blob.len()), region_spec(blob)))
        },
    }
}

/// What formatting writes: a superblock recording an empty blob, and a
/// zeroed region.
pub open spec fn format_spec() -> (Seq<u8>, Seq<u8>) {
    (superblock_spec(0), zeros(MAX_METADATA_BYTES as nat))
}

// ---------------------------------------------------------------------
// Reading back

/// The non-empty pieces of `ps`, in order.
pub open spec fn nonempty_parts(ps: Seq<Seq<char>>) -> Seq<Seq<char>>
    decreases ps.len(),
{
    if ps.len() == 0 {
        Seq::empty()
    } else {
        let r = nonempty_parts(ps.drop_last());
        if ps.last().len() > 0 {
            r.push(ps.last())
        } else {
            r
        }
    }
}

/// The names along `path`: its `/`-separated pieces, empty ones dropped.
pub open spec fn path_parts(path: Seq<char>) -> Seq<Seq<char>> {
    nonempty_parts(text::split_spec(path, '/'))
}

/// Index of the first child named `name`.
pub open spec fn find_name(cs: Seq<(Seq<char>, Tree)>, name: Seq<char>) -> Option<int>
    decreases cs.len(),
{
    if cs.len() == 0 {
        None
    } else if cs[0].0 == name {
        Some(0)
    } else {
        match find_name(cs.drop_first(), name) {
            Some(i) => Some(i + 1),
            None => None,
        }
    }
}

/// The subtree at the names `path` (first match at each level).
pub open spec fn lookup(t: Tree, path: Seq<Seq<char>>) -> Result<Tree, &'static str>
    decreases path.len(),
{
    if path.len() == 0 {
        Ok(t)
    } else {
        match t {
            Tree::File(_) => Err("not a directory"),
            Tree::Dir(cs) => match find_name(cs, path[0]) {
                Some(i) => lookup(cs[i].1, path.drop_first()),
                None => Err("directory not found"),
            },
        }
    }
}

/// `t` with the subtree at `path` replaced by `x` (unchanged when `path`
/// does not lead anywhere).
pub open spec fn set_at(t: Tree, path: Seq<Seq<char>>, x: Tree) -> Tree
    decreases path.len(),
{
    if path.len() == 0 {
        x
    } else {
        match t {
            Tree::File(_) => t,
            Tree::Dir(cs) => match find_name(cs, path[0]) {
                Some(i) => Tree::Dir(cs.update(i, (cs[i].0, set_at(cs[i].1, path.drop_first(), x)))),
                None => t,
            },
        }
    }
}

/// `cs` with the entry named `n` set to `x`, appended when absent.
pub open spec fn add_child(cs: Seq<(Seq<char>, Tree)>, n: Seq<char>, x: Tree) -> Seq<
    (Seq<char>, Tree),
> {
    match find_name(cs, n) {
        Some(i) => cs.update(i, (n, x)),
        None => cs.push((n, x)),
    }
}

/// `t` with `node` placed at `parts`: missing directories on the way are
/// appended, an existing entry at the end is replaced, and a file on the
/// way is a conflict.
pub open spec fn insert_node(t: Tree, parts: Seq<Seq<char>>, node: Tree) -> Result<Tree, &'static str>
    decreases parts.len(),
{
    if parts.len() == 0 {
        Ok(t)
    } else {
        match t {
            Tree::File(_) => Err("path conflict"),
            Tree::Dir(cs) => {
                let name = parts[0];
                if parts.len() == 1 {
                    match find_name(cs, name) {
                        Some(i) => Ok(Tree::Dir(cs.update(i, (name, node)))),
                        None => Ok(Tree::Dir(cs.push((name, node)))),
                    }
                } else {
                    let cs2 = match find_name(cs, name) {
                        Some(_) => cs,
                        None => cs.push((name, empty_dir())),
                    };
                    let i = match find_name(cs, name) {
                        Some(i) => i,
                        None => cs.len() as int,
                    };
                    match insert_node(cs2[i].1, parts.drop_first(), node) {
                        Ok(c) => Ok(Tree::Dir(cs2.update(i, (name, c)))),
                        Err(e) => Err(e),
                    }
                }
            },
        }
    }
}

/// What the loader makes of the first record of `data`.
pub enum Parsed {
    /// The data ends here (nothing left, or a record cut short before its
    /// path ends).
    Stop,
    /// The record is damaged.
    Fail(&'static str),
    /// A record for `node` at `path`, `used` bytes long.
    Entry { path: Seq<char>, node: Tree, used: int },
}

pub open spec fn parse_first(data: Seq<u8>) -> Parsed {
    if data.len() < 2 {
        Parsed::Stop
    } else {
        let kind = data[0];
        let plen = data[1] as int;
        let rest = data.skip(2);
        if plen > rest.len() {
            Parsed::Stop
        } else {
            let pb = rest.take(plen);
            let after = rest.skip(plen);
            if !valid_utf8(pb) {
                Parsed::Fail("invalid path in metadata")
            } else if kind == 1 {
                if after.len() < 2 {
                    Parsed::Fail("truncated file record")
                } else {
                    let clen = after[0] as int + after[1] as int * 256;
                    let body = after.skip(2);
                    if clen > body.len() {
                        Parsed::Fail("truncated file content")
                    } else if !valid_utf8(body.take(clen)) {
                        Parsed::Fail("invalid utf-8 in file")
                    } else {
                        Parsed::Entry {
                            path: decode_utf8(pb),
                            node: Tree::File(decode_utf8(body.take(clen))),
                            used: 2 + plen + 2 + clen,
                        }
                    }
                }
            } else if kind == 2 {
                Parsed::Entry { path: decode_utf8(pb), node: empty_dir(), used: 2 + plen }
            } else {
                Parsed::Fail("unknown record kind")
            }
        }
    }
}

pub proof fn lemma_parse_first_used(data: Seq<u8>)
    ensures
        parse_first(data) matches Parsed::Entry { used, .. } ==> 2 <= used <= data.len(),
{
}

/// Reading the records in `data` into `root`, as the loader does: a record
/// cut short before its path ends the data, other damage is an error.
pub open spec fn deserialize_from(root: Tree, data: Seq<u8>) -> Result<Tree, &'static str>
    decreases data.len(),
{
    match parse_first(data) {
        Parsed::Stop => Ok(root),
        Parsed::Fail(e) => Err(e),
        Parsed::Entry { path, node, used } => {
            proof {
                lemma_parse_first_used(data);
            }
            match insert_node(root, path_parts(path), node) {
                Ok(t) => deserialize_from(t, data.skip(used)),
                Err(e) => Err(e),
            }
        },
    }
}

/// The metadata length that the superblock records.
pub open spec fn recorded_len(sb: Seq<u8>) -> int {
    sb[20] as int + sb[21] as int * 256 + sb[22] as int * 65536 + sb[23] as int * 16777216
}

pub open spec fn read_metadata_spec(sb: Seq<u8>, region: Seq<u8>) -> Result<Seq<u8>, &'static str> {
    let len = recorded_len(sb);
    if len > MAX_METADATA_BYTES || len > region.len() {
        Err("metadata length out of range")
    } else {
        Ok(region.take(len))
    }
}

/// The tree a formatted disk holds.  A blob that does not start with the
/// `TREE` magic (one too short for it included) holds none.  A blob under
/// eight bytes that starts with it holds a tree only when its records
/// parse: such a blob is what a single empty directory with a one-letter
/// name syncs to, and it must come back after a reboot, while a damaged
/// one reads as empty.  From eight bytes on, a damaged blob is an error.
pub open spec fn load_tree_spec(sb: Seq<u8>, region: Seq<u8>) -> Result<Tree, &'static str> {
    match read_metadata_spec(sb, region) {
        Err(e) => Err(e),
        Ok(blob) => if blob.len() < 4 || blob.take(4) != tree_magic() {
            Ok(empty_dir())
        } else {
            match deserialize_from(empty_dir(), blob.skip(4)) {
                Err(e) => if blob.len() < 8 {
                    Ok(empty_dir())
                } else {
                    Err(e)
                },
                Ok(t) => Ok(t),
            }
        },
    }
}

pub open spec fn is_formatted(sb: Seq<u8>) -> bool {
    sb.take(8) == superblock_magic()
}

/// Mounting: an unformatted disk is formatted (the first component is
/// what to write) and mounts empty; a formatted one loads its tree.
pub open spec fn mount_spec(sb: Seq<u8>, region: Seq<u8>) -> (
    Option<(Seq<u8>, Seq<u8>)>,
    Result<Tree, &'static str>,
) {
    if !is_formatted(sb) {
        (Some(format_spec()), Ok(empty_dir()))
    } else {
        (None, load_tree_spec(sb, region))
    }
}

// ---------------------------------------------------------------------
// Facts about the record encoding

pub proof fn lemma_records_bytes_concat(a: Seq<Record>, b: Seq<Record>)
    ensures
        records_bytes(a + b) == records_bytes(a) + records_bytes(b),
    decreases a.len(),
{
    if a.len() == 0 {
        assert(a + b =~= b);
    } else {
        lemma_records_bytes_concat(a.drop_first(), b);
        assert((a + b).drop_first() =~= a.drop_first() + b);
        assert(records_bytes(a) + records_bytes(b) =~= record_bytes(a[0]) + (records_bytes(
            a.drop_first(),
        ) + records_bytes(b)));
    }
}

pub proof fn lemma_first_error_concat(a: Seq<Record>, b: Seq<Record>)
    ensures
        first_error(a + b) == (if first_error(a) is Some {
            first_error(a)
        } else {
            first_error(b)
        }),
    decreases a.len(),
{
    if a.len() == 0 {
        assert(a + b =~= b);
    } else {
        lemma_first_error_concat(a.drop_first(), b);
        assert((a + b).drop_first() =~= a.drop_first() + b);
    }
}

pub proof fn lemma_single_record(r: Record)
    ensures
        records_bytes(seq![r]) == record_bytes(r),
        first_error(seq![r]) == record_error(r),
{
    reveal_with_fuel(records_bytes, 2);
    reveal_with_fuel(first_error, 2);
    assert(seq![r].drop_first() =~= Seq::<Record>::empty());
    assert(record_bytes(r) + Seq::<u8>::empty() =~= record_bytes(r));
}

// ---------------------------------------------------------------------
// Writing

/// Appends `bytes` to `out`.
fn append_bytes(out: &mut Vec<u8>, bytes: &[u8])
    ensures
        final(out)@ == old(out)@ + bytes@,
{
    let mut i: usize = 0;
    while i < bytes.len()
        invariant
            i <= bytes@.len(),
            out@ == old(out)@ + bytes@.take(i as int),
        decreases bytes@.len() - i,
    {
        assert(bytes@.take(i + 1) =~= bytes@.take(i as int).push(bytes@[i as int]));
        out.push(bytes[i]);
        i = i + 1;
    }
    assert(bytes@.take(bytes@.len() as int) =~= bytes@);
}

pub open spec fn write_record_spec(kind: u8, path: Seq<char>, content: Option<Seq<char>>) -> Result<
    Seq<u8>,
    &'static str,
> {
    let pb = encode_utf8(path);
    if pb.len() == 0 || pb.len() > MAX_PATH_BYTES {
        Err("invalid path")
    } else if kind == 1 {
        match content {
            None => Err("missing file content"),
            Some(c) => if encode_utf8(c).len() > MAX_FILE_SIZE {
                Err("file too large")
            } else {
                Ok(record_bytes(file_record(path, c)))
            },
        }
    } else {
        Ok(record_bytes(Record { kind, path, content: Seq::empty() }))
    }
}

/// Appends one record; nothing is appended when it cannot be written.
fn write_record(out: &mut Vec<u8>, kind: u8, path: &str, content: Option<&String>) -> (r: Result<
    (),
    &'static str,
>)
    ensures
        ({
            let c = match content {
                Some(s) => Some(s@),
                None => None,
            };
            match write_record_spec(kind, path@, c) {
                Ok(b) => r is Ok && final(out)@ == old(out)@ + b,
                Err(e) => r == Err::<(), &'static str>(e) && final(out)@ == old(out)@,
            }
        }),
{
    let path_bytes = path.as_bytes();
    if path_bytes.len() == 0 || path_bytes.len() > MAX_PATH_BYTES {
        return Err("invalid path");
    }
    if kind == 1 {
        let text = match content {
            Some(t) => t,
            None => return Err("missing file content"),
        };
        let bytes = text.as_str().as_bytes();
        if bytes.len() > MAX_FILE_SIZE {
            return Err("file too large");
        }
        let len = bytes.len();
        out.push(kind);
        out.push(path_bytes.len() as u8);
        append_bytes(out, path_bytes);
        out.push((len % 256) as u8);
        out.push((len / 256) as u8);
        append_bytes(out, bytes);
        proof {
            let pb = encode_utf8(path@);
            let cb = encode_utf8(text@);
            assert(out@ =~= old(out)@ + (seq![kind, pb.len() as u8] + pb + le16(cb.len()) + cb));
        }
    } else {
        out.push(kind);
        out.push(path_bytes.len() as u8);
        append_bytes(out, path_bytes);
        proof {
            let pb = encode_utf8(path@);
            assert(out@ =~= old(out)@ + (seq![kind, pb.len() as u8] + pb));
        }
    }
    Ok(())
}

fn join_path(base: &str, name: &str) -> (r: String)
    ensures
        r@ == join_path_spec(base@, name@),
{
    if base.is_empty() {
        name.to_owned()
    } else {
        let mut path = base.to_owned();
        proof {
            reveal_strlit("/");
        }
        path.append("/");
        path.append(name);
        path
    }
}

/// Appends the records of `node` placed at `path`, stopping at the first
/// one that cannot be written.
fn flatten_tree(path: &str, node: &FsNode, out: &mut Vec<u8>) -> (r: Result<(), &'static str>)
    ensures
        first_error(flatten(path@, node@)) matches Some(e) ==> r == Err::<(), &'static str>(e),
        first_error(flatten(path@, node@)) is None ==> r is Ok && final(out)@ == old(out)@
            + records_bytes(flatten(path@, node@)),
    decreases node,
{
    match node {
        FsNode::File { content } => {
            proof {
                lemma_single_record(file_record(path@, content@));
            }
            match write_record(out, 1, path, Some(content)) {
                Ok(()) => Ok(()),
                Err(e) => Err(e),
            }
        },
        FsNode::Dir { children } => {
            let ghost ts = children_trees(children@);
            let ghost own: Seq<Record> = if path@.len() == 0 {
                Seq::empty()
            } else {
                seq![dir_record(path@)]
            };
            if !path.is_empty() {
                proof {
                    lemma_single_record(dir_record(path@));
                }
                match write_record(out, 2, path, None) {
                    Ok(()) => {},
                    Err(e) => {
                        proof {
                            lemma_first_error_concat(own, flatten_children(path@, ts));
                        }
                        return Err(e);
                    },
                }
            }
            assert(own =~= own + flatten_children(path@, ts.take(0)));
            let mut i: usize = 0;
            while i < children.len()
                invariant
                    i <= children@.len(),
                    ts == children_trees(children@),
                    node@ == Tree::Dir(ts),
                    node->children == *children,
                    own == (if path@.len() == 0 {
                        Seq::empty()
                    } else {
                        seq![dir_record(path@)]
                    }),
                    first_error(own + flatten_children(path@, ts.take(i as int))) is None,
                    out@ == old(out)@ + records_bytes(own + flatten_children(path@, ts.take(i as int))),
                decreases children@.len() - i,
            {
                let entry = &children[i];
                proof {
                    assert(children@[i as int] == *entry);
                    assert(decreases_to!(*node => node->children));
                    assert(decreases_to!(node->children => (node->children)@));
                    assert(node->children == *children);
                    assert(decreases_to!(children@ => children@[i as int]));
                    assert(decreases_to!(children@[i as int] => children@[i as int].1));
                    assert(decreases_to!(*node => entry.1));
                }
                let child_path = join_path(path, entry.0.as_str());
                let ghost done = own + flatten_children(path@, ts.take(i as int));
                let ghost next = flatten(join_path_spec(path@, ts[i as int].0), ts[i as int].1);
                proof {
                    assert(ts.take(i + 1).drop_last() =~= ts.take(i as int));
                    assert(flatten_children(path@, ts.take(i + 1)) == flatten_children(
                        path@,
                        ts.take(i as int),
                    ) + next);
                    assert(own + flatten_children(path@, ts.take(i + 1)) =~= done + next);
                    lemma_first_error_concat(done, next);
                    lemma_records_bytes_concat(done, next);
                }
                match flatten_tree(child_path.as_str(), &entry.1, out) {
                    Ok(()) => {},
                    Err(e) => {
                        proof {
                            let later = flatten_children(path@, ts.skip(i + 1));
                            lemma_flatten_children_split(path@, ts, i + 1);
                            lemma_first_error_concat(done + next, later);
                            lemma_first_error_concat(own, flatten_children(path@, ts));
                            assert(own + flatten_children(path@, ts) =~= done + next + later);
                        }
                        return Err(e);
                    },
                }
                i = i + 1;
            }
            assert(ts.take(children@.len() as int) =~= ts);
            Ok(())
        },
    }
}

fn empty_root() -> (r: FsNode)
    ensures
        r@ == empty_dir(),
{
    let children: Vec<(String, FsNode)> = Vec::new();
    assert(children_trees(children@) =~= Seq::empty());
    FsNode::Dir { children }
}

/// The metadata blob of `root`: the tree magic followed by its records.
fn serialize_tree(root: &FsNode) -> (r: Result<Vec<u8>, &'static str>)
    ensures
        match serialize_spec(root@) {
            Ok(b) => r is Ok && r.unwrap()@ == b,
            Err(e) => r == Err::<Vec<u8>, &'static str>(e),
        },
{
    let mut blob: Vec<u8> = Vec::new();
    blob.push(84u8);
    blob.push(82u8);
    blob.push(69u8);
    blob.push(69u8);
    assert(blob@ =~= tree_magic());
    let root_path = String::new();
    match flatten_tree(root_path.as_str(), root, &mut blob) {
        Ok(()) => Ok(blob),
        Err(e) => Err(e),
    }
}

fn push_u32_le(out: &mut Vec<u8>, v: u32)
    ensures
        final(out)@ == old(out)@ + le32(v as nat),
{
    out.push((v % 256) as u8);
    out.push((v / 256 % 256) as u8);
    out.push((v / 65536 % 256) as u8);
    out.push((v / 16777216 % 256) as u8);
    assert(final(out)@ =~= old(out)@ + le32(v as nat));
}

/// The superblock recording a metadata blob of `metadata_len` bytes.
fn superblock_image(metadata_len: u32) -> (r: Vec<u8>)
    ensures
        r@ == superblock_spec(metadata_len as nat),
{
    let mut sb: Vec<u8> = Vec::new();
    sb.push(84u8);
    sb.push(81u8);
    sb.push(70u8);
    sb.push(83u8);
    sb.push(118u8);
    sb.push(50u8);
    sb.push(0u8);
    sb.push(0u8);
    assert(sb@ =~= superblock_magic());
    push_u32_le(&mut sb, VERSION);
    push_u32_le(&mut sb, METADATA_LBA);
    push_u32_le(&mut sb, METADATA_SECTORS);
    push_u32_le(&mut sb, metadata_len);
    let ghost head = sb@;
    let mut i: usize = 0;
    while i < 488
        invariant
            i <= 488,
            sb@ == head + zeros(i as nat),
        decreases 488 - i,
    {
        sb.push(0u8);
        assert(head + zeros((i + 1) as nat) =~= (head + zeros(i as nat)).push(0u8));
        i = i + 1;
    }
    sb
}

/// The metadata region holding `blob`, zero-padded to its full size.
fn region_image(blob: &[u8]) -> (r: Vec<u8>)
    requires
        blob@.len() <= MAX_METADATA_BYTES,
    ensures
        r@ == region_spec(blob@),
{
    let mut region: Vec<u8> = Vec::new();
    append_bytes(&mut region, blob);
    assert(region@ =~= blob@ + zeros(0));
    let mut i: usize = blob.len();
    while i < MAX_METADATA_BYTES
        invariant
            blob@.len() <= i <= MAX_METADATA_BYTES,
            region@ == blob@ + zeros((i - blob@.len()) as nat),
        decreases MAX_METADATA_BYTES - i,
    {
        region.push(0u8);
        assert(blob@ + zeros((i + 1 - blob@.len()) as nat) =~= (blob@ + zeros(
            (i - blob@.len()) as nat,
        )).push(0u8));
        i = i + 1;
    }
    region
}

/// A freshly formatted TuwaiqFS region: a superblock recording an empty
/// blob, and zeroed metadata sectors.
pub fn format_region() -> (r: MetadataImage)
    ensures
        r@ == format_spec(),
{
    let superblock = superblock_image(0);
    let empty: Vec<u8> = Vec::new();
    let region = region_image(empty.as_slice());
    assert(region@ =~= zeros(MAX_METADATA_BYTES as nat));
    MetadataImage { superblock, region }
}

/// Persist the full filesystem tree: the superblock (with the blob's
/// length) and the metadata region to write, or why the tree cannot be
/// stored.
pub fn sync_tree(root: &FsNode) -> (r: Result<MetadataImage, &'static str>)
    ensures
        match sync_spec(root@) {
            Ok(v) => r is Ok && r.unwrap()@ == v,
            Err(e) => r == Err::<MetadataImage, &'static str>(e),
        },
{
    let blob = match serialize_tree(root) {
        Ok(b) => b,
        Err(e) => return Err(e),
    };
    if blob.len() > MAX_METADATA_BYTES {
        return Err("filesystem metadata too large");
    }
    let superblock = superblock_image(blob.len() as u32);
    let region = region_image(blob.as_slice());
    Ok(MetadataImage { superblock, region })
}

pub proof fn lemma_flatten_children_split(path: Seq<char>, ts: Seq<(Seq<char>, Tree)>, k: int)
    requires
        0 <= k <= ts.len(),
    ensures
        flatten_children(path, ts) == flatten_children(path, ts.take(k)) + flatten_children(
            path,
            ts.skip(k),
        ),
    decreases ts.len() - k,
{
    if k == ts.len() {
        assert(ts.take(k) =~= ts);
        assert(ts.skip(k) =~= Seq::<(Seq<char>, Tree)>::empty());
        assert(flatten_children(path, ts) + Seq::<Record>::empty() =~= flatten_children(path, ts));
    } else {
        lemma_flatten_children_split(path, ts, k + 1);
        // ts.skip(k) = [ts[k]] ++ ts.skip(k+1): peel from the front of the suffix
        lemma_flatten_children_prepend(path, ts[k], ts.skip(k + 1));
        assert(ts.skip(k) =~= seq![ts[k]] + ts.skip(k + 1));
        assert(ts.take(k + 1).drop_last() =~= ts.take(k));
        assert(ts.take(k + 1).last() == ts[k]);
        let f = flatten(join_path_spec(path, ts[k].0), ts[k].1);
        assert(flatten_children(path, ts.take(k + 1)) == flatten_children(path, ts.take(k)) + f);
        assert(flatten_children(path, ts.take(k)) + f + flatten_children(path, ts.skip(k + 1))
            =~= flatten_children(path, ts.take(k)) + (f + flatten_children(path, ts.skip(k + 1))));
    }
}

pub proof fn lemma_flatten_children_prepend(
    path: Seq<char>,
    first: (Seq<char>, Tree),
    rest: Seq<(Seq<char>, Tree)>,
)
    ensures
        flatten_children(path, seq![first] + rest) == flatten(join_path_spec(path, first.0), first.1)
            + flatten_children(path, rest),
    decreases rest.len(),
{
    let f = flatten(join_path_spec(path, first.0), first.1);
    if rest.len() == 0 {
        reveal_with_fuel(flatten_children, 2);
        assert(seq![first] + rest =~= seq![first]);
        assert(seq![first].drop_last() =~= Seq::<(Seq<char>, Tree)>::empty());
        assert(Seq::<Record>::empty() + f =~= f);
        assert(f + Seq::<Record>::empty() =~= f);
    } else {
        lemma_flatten_children_prepend(path, first, rest.drop_last());
        assert((seq![first] + rest).drop_last() =~= seq![first] + rest.drop_last());
        let g = flatten(join_path_spec(path, rest.last().0), rest.last().1);
        assert(f + flatten_children(path, rest.drop_last()) + g =~= f + (flatten_children(
            path,
            rest.drop_last(),
        ) + g));
    }
}

// ---------------------------------------------------------------------
// Reading

pub open spec fn strs_view(v: Seq<&str>) -> Seq<Seq<char>> {
    Seq::new(v.len(), |i: int| v[i]@)
}

/// `find_name` is the index of the first child with that name.
pub proof fn lemma_find_name(cs: Seq<(Seq<char>, Tree)>, name: Seq<char>)
    ensures
        find_name(cs, name) matches Some(i) ==> 0 <= i < cs.len() && cs[i].0 == name && forall|
            j: int,
        |
            0 <= j < i ==> cs[j].0 != name,
        find_name(cs, name) is None ==> forall|j: int| 0 <= j < cs.len() ==> cs[j].0 != name,
    decreases cs.len(),
{
    if cs.len() > 0 {
        lemma_find_name(cs.drop_first(), name);
        assert forall|j: int| 1 <= j < cs.len() implies cs[j] == cs.drop_first()[j - 1] by {}
    }
}

/// A characterization of the first index is enough to pin `find_name`.
pub proof fn lemma_find_name_is(cs: Seq<(Seq<char>, Tree)>, name: Seq<char>, k: Option<int>)
    requires
        k matches Some(i) ==> 0 <= i < cs.len() && cs[i].0 == name && forall|j: int|
            0 <= j < i ==> cs[j].0 != name,
        k is None ==> forall|j: int| 0 <= j < cs.len() ==> cs[j].0 != name,
    ensures
        find_name(cs, name) == k,
{
    lemma_find_name(cs, name);
}

/// Index of the first child named `name`.
fn find_position(children: &Vec<(String, FsNode)>, name: &str) -> (r: Option<usize>)
    ensures
        find_name(children_trees(children@), name@) == match r {
            Some(p) => Some(p as int),
            None => None::<int>,
        },
{
    let ghost ts = children_trees(children@);
    let mut j: usize = 0;
    while j < children.len()
        invariant
            j <= children@.len(),
            ts == children_trees(children@),
            forall|k: int| 0 <= k < j ==> ts[k].0 != name@,
        decreases children@.len() - j,
    {
        if text::str_eq(children[j].0.as_str(), name) {
            proof {
                lemma_find_name_is(ts, name@, Some(j as int));
            }
            return Some(j);
        }
        j = j + 1;
    }
    proof {
        lemma_find_name_is(ts, name@, None);
    }
    None
}

pub proof fn lemma_children_update(cs: Seq<(String, FsNode)>, p: int, x: (String, FsNode))
    requires
        0 <= p < cs.len(),
    ensures
        children_trees(cs.update(p, x)) == children_trees(cs).update(p, (x.0@, node_tree(x.1))),
{
    assert(children_trees(cs.update(p, x)) =~= children_trees(cs).update(p, (x.0@, node_tree(x.1))));
}

pub proof fn lemma_children_push(cs: Seq<(String, FsNode)>, x: (String, FsNode))
    ensures
        children_trees(cs.push(x)) == children_trees(cs).push((x.0@, node_tree(x.1))),
{
    assert(children_trees(cs.push(x)) =~= children_trees(cs).push((x.0@, node_tree(x.1))));
}

/// `current` with `node` placed at `parts[i..]`; on failure, `current`
/// itself comes back with the error.
fn insert_rec(current: FsNode, parts: &Vec<&str>, i: usize, node: FsNode) -> (r: Result<
    FsNode,
    (FsNode, &'static str),
>)
    requires
        i < parts@.len(),
    ensures
        match r {
            Ok(t) => insert_node(current@, strs_view(parts@).skip(i as int), node@) == Ok::<
                Tree,
                &'static str,
            >(t@),
            Err((t, e)) => t@ == current@ && insert_node(
                current@,
                strs_view(parts@).skip(i as int),
                node@,
            ) == Err::<Tree, &'static str>(e),
        },
    decreases parts@.len() - i,
{
    let ghost ps = strs_view(parts@).skip(i as int);
    let ghost nt = node@;
    match current {
        FsNode::File { content } => Err((FsNode::File { content }, "path conflict")),
        FsNode::Dir { mut children } => {
            let ghost cs = children_trees(children@);
            let ghost old_children = children@;
            let name = parts[i];
            assert(ps[0] == name@);
            let pos = find_position(&children, name);
            proof {
                lemma_find_name(cs, name@);
            }
            if i == parts.len() - 1 {
                match pos {
                    Some(p) => {
                        let (n, _previous) = children.remove(p);
                        children.insert(p, (n, node));
                        proof {
                            assert(children@ =~= old_children.update(p as int, (n, node)));
                            lemma_children_update(old_children, p as int, (n, node));
                        }
                    },
                    None => {
                        let n = name.to_owned();
                        children.push((n, node));
                        proof {
                            lemma_children_push(old_children, (n, node));
                        }
                    },
                }
                Ok(FsNode::Dir { children })
            } else {
                let p = match pos {
                    Some(p) => p,
                    None => {
                        let n = name.to_owned();
                        let fresh = empty_root();
                        children.push((n, fresh));
                        proof {
                            lemma_children_push(old_children, (n, fresh));
                        }
                        children.len() - 1
                    },
                };
                let ghost cs2 = children_trees(children@);
                let ghost mid_children = children@;
                let (n, child) = children.remove(p);
                assert(cs2[p as int].1 == child@);
                assert(ps.drop_first() =~= strs_view(parts@).skip(i + 1));
                match insert_rec(child, parts, i + 1, node) {
                    Ok(c) => {
                        children.insert(p, (n, c));
                        proof {
                            assert(children@ =~= mid_children.update(p as int, (n, c)));
                            lemma_children_update(mid_children, p as int, (n, c));
                        }
                        Ok(FsNode::Dir { children })
                    },
                    Err((c, e)) => {
                        children.insert(p, (n, c));
                        proof {
                            assert(children@ =~= mid_children.update(p as int, (n, c)));
                            lemma_children_update(mid_children, p as int, (n, c));
                            assert(children_trees(children@) =~= cs2);
                        }
                        if pos.is_none() {
                            children.pop();
                            proof {
                                assert(children@ =~= old_children);
                            }
                        }
                        Err((FsNode::Dir { children }, e))
                    },
                }
            }
        },
    }
}

/// The non-empty pieces of `path` between `/`s.
pub(crate) fn path_pieces<'a>(path: &'a str) -> (r: Vec<&'a str>)
    ensures
        strs_view(r@) == path_parts(path@),
{
    let pieces = text::split_char(path, '/');
    let ghost sp = text::split_spec(path@, '/');
    let mut parts: Vec<&str> = Vec::new();
    let mut j: usize = 0;
    assert(strs_view(parts@) =~= nonempty_parts(sp.take(0)));
    while j < pieces.len()
        invariant
            j <= pieces@.len(),
            pieces@.len() == sp.len(),
            forall|k: int| 0 <= k < pieces@.len() ==> #[trigger] pieces@[k]@ == sp[k],
            strs_view(parts@) == nonempty_parts(sp.take(j as int)),
        decreases pieces@.len() - j,
    {
        let piece = pieces[j];
        assert(sp.take(j + 1).drop_last() =~= sp.take(j as int));
        assert(sp.take(j + 1).last() == piece@);
        if !piece.is_empty() {
            parts.push(piece);
            assert(strs_view(parts@) =~= nonempty_parts(sp.take(j as int)).push(piece@));
        }
        j = j + 1;
    }
    assert(sp.take(pieces@.len() as int) =~= sp);
    parts
}

/// Places `node` at `path` in `root`.
fn insert_at_path(root: &mut FsNode, path: &str, node: FsNode) -> (r: Result<(), &'static str>)
    ensures
        r is Ok ==> insert_node(old(root)@, path_parts(path@), node@) == Ok::<Tree, &'static str>(
            final(root)@,
        ),
        r matches Err(e) ==> insert_node(old(root)@, path_parts(path@), node@) == Err::<
            Tree,
            &'static str,
        >(e),
        r is Err ==> final(root)@ == old(root)@,
{
    let parts = path_pieces(path);
    if parts.len() == 0 {
        return Ok(());
    }
    let mut current = empty_root();
    std::mem::swap(&mut current, root);
    assert(strs_view(parts@).skip(0) =~= strs_view(parts@));
    match insert_rec(current, &parts, 0, node) {
        Ok(updated) => {
            *root = updated;
            Ok(())
        },
        Err((unchanged, e)) => {
            *root = unchanged;
            Err(e)
        },
    }
}

/// One record read from `data` at some offset.
enum RecordRead<'a> {
    Stop,
    Fail(&'static str),
    Entry { path: &'a str, node: FsNode, next: usize },
}

/// Reads the record at `offset`.
fn read_record<'a>(data: &'a [u8], offset: usize) -> (r: RecordRead<'a>)
    requires
        offset <= data@.len(),
    ensures
        match (r, parse_first(data@.skip(offset as int))) {
            (RecordRead::Stop, Parsed::Stop) => true,
            (RecordRead::Fail(e), Parsed::Fail(e2)) => e == e2,
            (RecordRead::Entry { path, node, next }, Parsed::Entry { path: p2, node: n2, used }) => {
                &&& path@ == p2
                &&& node@ == n2
                &&& next == offset + used
            },
            _ => false,
        },
{
    let ghost rest0 = data@.skip(offset as int);
    if data.len() - offset < 2 {
        return RecordRead::Stop;
    }
    let kind = data[offset];
    let path_len = data[offset + 1] as usize;
    assert(rest0[0] == kind && rest0[1] as int == path_len);
    let start = offset + 2;
    if data.len() - start < path_len {
        return RecordRead::Stop;
    }
    let path_bytes = &data[start..start + path_len];
    assert(path_bytes@ =~= rest0.skip(2).take(path_len as int));
    let path = match text::from_utf8(path_bytes) {
        Some(p) => p,
        None => return RecordRead::Fail("invalid path in metadata"),
    };
    let after = start + path_len;
    assert(data@.skip(after as int) =~= rest0.skip(2).skip(path_len as int));
    if kind == 1 {
        if data.len() - after < 2 {
            return RecordRead::Fail("truncated file record");
        }
        let content_len = data[after] as usize + data[after + 1] as usize * 256;
        let body = after + 2;
        assert(data@.skip(body as int) =~= rest0.skip(2).skip(path_len as int).skip(2));
        if data.len() - body < content_len {
            return RecordRead::Fail("truncated file content");
        }
        let content_bytes = &data[body..body + content_len];
        assert(content_bytes@ =~= data@.skip(body as int).take(content_len as int));
        let content = match text::from_utf8(content_bytes) {
            Some(c) => c,
            None => return RecordRead::Fail("invalid utf-8 in file"),
        };
        RecordRead::Entry {
            path,
            node: FsNode::File { content: content.to_owned() },
            next: body + content_len,
        }
    } else if kind == 2 {
        RecordRead::Entry { path, node: empty_root(), next: after }
    } else {
        RecordRead::Fail("unknown record kind")
    }
}

/// The tree that the records in `data` describe.
fn deserialize_tree(data: &[u8]) -> (r: Result<FsNode, &'static str>)
    ensures
        result_tree(r) == deserialize_from(empty_dir(), data@),
{
    let mut root = empty_root();
    let mut offset: usize = 0;
    assert(data@.skip(0) =~= data@);
    loop
        invariant
            offset <= data@.len(),
            deserialize_from(empty_dir(), data@) == deserialize_from(root@, data@.skip(
                offset as int,
            )),
        decreases data@.len() - offset,
    {
        proof {
            lemma_parse_first_used(data@.skip(offset as int));
        }
        match read_record(data, offset) {
            RecordRead::Stop => return Ok(root),
            RecordRead::Fail(e) => return Err(e),
            RecordRead::Entry { path, node, next } => {
                let ghost used = next - offset;
                assert(data@.skip(offset as int).skip(used) =~= data@.skip(next as int));
                match insert_at_path(&mut root, path, node) {
                    Ok(()) => {},
                    Err(e) => return Err(e),
                }
                offset = next;
            },
        }
    }
}

/// The metadata blob: exactly as many bytes of the region as the
/// superblock records.
fn read_metadata<'a>(superblock: &[u8; 512], region: &'a [u8]) -> (r: Result<&'a [u8], &'static str>)
    ensures
        match read_metadata_spec(superblock@, region@) {
            Ok(b) => r is Ok && r.unwrap()@ == b,
            Err(e) => r == Err::<&'a [u8], &'static str>(e),
        },
{
    let len = superblock[20] as usize + superblock[21] as usize * 256 + superblock[22] as usize
        * 65536 + superblock[23] as usize * 16777216;
    if len > MAX_METADATA_BYTES || len > region.len() {
        return Err("metadata length out of range");
    }
    let blob = &region[0..len];
    assert(blob@ =~= region@.take(len as int));
    Ok(blob)
}

fn load_tree(superblock: &[u8; 512], region: &[u8]) -> (r: Result<FsNode, &'static str>)
    ensures
        result_tree(r) == load_tree_spec(superblock@, region@),
{
    let blob = match read_metadata(superblock, region) {
        Ok(b) => b,
        Err(e) => return Err(e),
    };
    if blob.len() < 4 {
        return Ok(empty_root());
    }
    if !(blob[0] == 84u8 && blob[1] == 82u8 && blob[2] == 69u8 && blob[3] == 69u8) {
        assert(blob@.take(4) != tree_magic()) by {
            if blob@.take(4) == tree_magic() {
                assert(blob@.take(4)[0] == blob@[0]);
                assert(blob@.take(4)[1] == blob@[1]);
                assert(blob@.take(4)[2] == blob@[2]);
                assert(blob@.take(4)[3] == blob@[3]);
            }
        }
        return Ok(empty_root());
    }
    assert(blob@.take(4) =~= tree_magic());
    let body = &blob[4..blob.len()];
    assert(body@ =~= blob@.skip(4));
    match deserialize_tree(body) {
        Err(e) => {
            if blob.len() < 8 {
                Ok(empty_root())
            } else {
                Err(e)
            }
        },
        Ok(t) => Ok(t),
    }
}

fn superblock_formatted(superblock: &[u8; 512]) -> (r: bool)
    ensures
        r == is_formatted(superblock@),
{
    let r = superblock[0] == 84u8 && superblock[1] == 81u8 && superblock[2] == 70u8
        && superblock[3] == 83u8 && superblock[4] == 118u8 && superblock[5] == 50u8
        && superblock[6] == 0u8 && superblock[7] == 0u8;
    proof {
        let t = superblock@.take(8);
        if r {
            assert(t =~= superblock_magic());
        } else if t == superblock_magic() {
            assert(t[0] == superblock@[0] && t[1] == superblock@[1] && t[2] == superblock@[2]);
            assert(t[3] == superblock@[3] && t[4] == superblock@[4] && t[5] == superblock@[5]);
            assert(t[6] == superblock@[6] && t[7] == superblock@[7]);
        }
    }
    r
}

/// Mount TuwaiqFS from the superblock and metadata region that were read:
/// an unformatted disk is formatted (the image to write comes back first)
/// and mounts empty; a formatted one loads its tree.
pub fn mount(superblock: &[u8; 512], region: &[u8]) -> (r: (
    Option<MetadataImage>,
    Result<FsNode, &'static str>,
))
    ensures
        (option_image(r.0), result_tree(r.1)) == mount_spec(superblock@, region@),
{
    if !superblock_formatted(superblock) {
        return (Some(format_region()), Ok(empty_root()));
    }
    (None, load_tree(superblock, region))
}

} // verus!
