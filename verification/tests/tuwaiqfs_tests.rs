use kernel::tuwaiqfs::{
    format_region, mount, sync_tree, FsNode, MetadataImage, MAX_METADATA_BYTES, METADATA_LBA,
    METADATA_SECTORS, SUPERBLOCK_LBA, VERSION,
};

fn file(content: &str) -> FsNode {
    FsNode::File { content: content.to_string() }
}

fn dir(children: Vec<(&str, FsNode)>) -> FsNode {
    FsNode::Dir { children: children.into_iter().map(|(n, c)| (n.to_string(), c)).collect() }
}

fn same(a: &FsNode, b: &FsNode) -> bool {
    match (a, b) {
        (FsNode::File { content: x }, FsNode::File { content: y }) => x == y,
        (FsNode::Dir { children: xs }, FsNode::Dir { children: ys }) => {
            xs.len() == ys.len()
                && xs.iter().zip(ys.iter()).all(|((n1, c1), (n2, c2))| n1 == n2 && same(c1, c2))
        }
        _ => false,
    }
}

fn superblock(img: &MetadataImage) -> [u8; 512] {
    let mut sb = [0u8; 512];
    sb.copy_from_slice(&img.superblock);
    sb
}

fn u32_at(bytes: &[u8], at: usize) -> u32 {
    u32::from_le_bytes([bytes[at], bytes[at + 1], bytes[at + 2], bytes[at + 3]])
}

fn image_with_blob(blob: &[u8]) -> ([u8; 512], Vec<u8>) {
    let img = format_region();
    let mut sb = superblock(&img);
    sb[20..24].copy_from_slice(&(blob.len() as u32).to_le_bytes());
    let mut region = img.region;
    region[..blob.len()].copy_from_slice(blob);
    (sb, region)
}

#[test]
fn layout_constants() {
    assert_eq!(SUPERBLOCK_LBA, 8192);
    assert_eq!(METADATA_LBA, 8465);
    assert_eq!(METADATA_SECTORS, 248);
    assert_eq!(MAX_METADATA_BYTES, 248 * 512);
    assert_eq!(VERSION, 2);
}

#[test]
fn format_writes_an_empty_superblock_and_zeroed_region() {
    let img = format_region();
    assert_eq!(img.superblock.len(), 512);
    assert_eq!(&img.superblock[..8], b"TQFSv2\0\0");
    assert_eq!(u32_at(&img.superblock, 8), 2);
    assert_eq!(u32_at(&img.superblock, 12), 8465);
    assert_eq!(u32_at(&img.superblock, 16), 248);
    assert_eq!(u32_at(&img.superblock, 20), 0);
    assert!(img.superblock[24..].iter().all(|&b| b == 0));
    assert_eq!(img.region.len(), 248 * 512);
    assert!(img.region.iter().all(|&b| b == 0));
}

#[test]
fn unformatted_disk_is_formatted_and_mounts_empty() {
    let sb = [0u8; 512];
    let region = vec![0u8; 248 * 512];
    let (format, root) = mount(&sb, &region);
    let format = format.expect("a blank disk is formatted");
    assert_eq!(&format.superblock[..8], b"TQFSv2\0\0");
    assert!(same(&root.unwrap(), &dir(vec![])));
}

#[test]
fn formatted_region_mounts_empty() {
    let img = format_region();
    let (format, root) = mount(&superblock(&img), &img.region);
    assert!(format.is_none());
    assert!(same(&root.unwrap(), &dir(vec![])));
}

#[test]
fn sync_writes_records_and_their_length() {
    let root = dir(vec![("hello.txt", file("hello"))]);
    let img = sync_tree(&root).unwrap();
    let mut expected = b"TREE".to_vec();
    expected.extend_from_slice(&[1, 9]);
    expected.extend_from_slice(b"hello.txt");
    expected.extend_from_slice(&[5, 0]);
    expected.extend_from_slice(b"hello");
    assert_eq!(u32_at(&img.superblock, 20) as usize, expected.len());
    assert_eq!(&img.region[..expected.len()], &expected[..]);
    assert!(img.region[expected.len()..].iter().all(|&b| b == 0));
    assert_eq!(img.region.len(), 248 * 512);
}

#[test]
fn nested_directories_are_written_parent_first() {
    let root = dir(vec![("docs", dir(vec![("a.txt", file("x"))]))]);
    let img = sync_tree(&root).unwrap();
    let mut expected = b"TREE".to_vec();
    expected.extend_from_slice(&[2, 4]);
    expected.extend_from_slice(b"docs");
    expected.extend_from_slice(&[1, 10]);
    expected.extend_from_slice(b"docs/a.txt");
    expected.extend_from_slice(&[1, 0]);
    expected.extend_from_slice(b"x");
    assert_eq!(&img.region[..expected.len()], &expected[..]);
}

#[test]
fn synced_tree_mounts_back() {
    let root = dir(vec![
        ("hello.txt", file("hello")),
        ("docs", dir(vec![("notes.txt", file("ünïcödé ✓")), ("empty", dir(vec![]))])),
        (".notes", dir(vec![("todo", file(""))])),
    ]);
    let img = sync_tree(&root).unwrap();
    let (format, back) = mount(&superblock(&img), &img.region);
    assert!(format.is_none());
    assert!(same(&back.unwrap(), &root));
}

#[test]
fn one_letter_directory_survives_a_remount() {
    // A root holding one empty directory with a one-byte name is stored in
    // seven bytes: the magic and a single directory record.
    let root = dir(vec![("a", dir(vec![]))]);
    let img = sync_tree(&root).unwrap();
    assert_eq!(u32_at(&img.superblock, 20), 7);
    let (format, back) = mount(&superblock(&img), &img.region);
    assert!(format.is_none());
    assert!(same(&back.unwrap(), &root));
}

#[test]
fn short_or_foreign_blob_reads_as_empty() {
    for blob in [&b""[..], &b"TRE"[..], &b"JUNKJUNK"[..]] {
        let (sb, region) = image_with_blob(blob);
        let (_, back) = mount(&sb, &region);
        assert!(same(&back.unwrap(), &dir(vec![])));
    }
    let (sb, region) = image_with_blob(b"TREE");
    let (_, back) = mount(&sb, &region);
    assert!(same(&back.unwrap(), &dir(vec![])));
    // Under eight bytes, damaged records read as no tree at all.
    let (sb, region) = image_with_blob(&[b'T', b'R', b'E', b'E', 7, 1, b'a']);
    let (_, back) = mount(&sb, &region);
    assert!(same(&back.unwrap(), &dir(vec![])));
}

#[test]
fn root_file_cannot_be_synced() {
    assert_eq!(sync_tree(&file("x")).err(), Some("invalid path"));
}

#[test]
fn long_path_cannot_be_synced() {
    let name = "n".repeat(121);
    let root = dir(vec![(name.as_str(), file(""))]);
    assert_eq!(sync_tree(&root).err(), Some("invalid path"));
    let name = "n".repeat(120);
    let root = dir(vec![(name.as_str(), file(""))]);
    assert!(sync_tree(&root).is_ok());
}

#[test]
fn large_file_cannot_be_synced() {
    let root = dir(vec![("big", file(&"x".repeat(2049)))]);
    assert_eq!(sync_tree(&root).err(), Some("file too large"));
    let root = dir(vec![("big", file(&"x".repeat(2048)))]);
    assert!(sync_tree(&root).is_ok());
}

#[test]
fn too_much_metadata_cannot_be_synced() {
    let mut children = Vec::new();
    for i in 0..70 {
        children.push((format!("f{}", i), FsNode::File { content: "y".repeat(2000) }));
    }
    let root = FsNode::Dir { children };
    assert_eq!(sync_tree(&root).err(), Some("filesystem metadata too large"));
}

#[test]
fn unknown_record_kind_is_an_error() {
    let mut blob = b"TREE".to_vec();
    blob.extend_from_slice(&[7, 1, b'a', 0, 0]);
    let (sb, region) = image_with_blob(&blob);
    assert_eq!(mount(&sb, &region).1.err(), Some("unknown record kind"));
}

#[test]
fn truncated_records() {
    let mut blob = b"TREE".to_vec();
    blob.extend_from_slice(&[1, 1, b'a', 9]);
    let (sb, region) = image_with_blob(&blob);
    assert_eq!(mount(&sb, &region).1.err(), Some("truncated file record"));

    let mut blob = b"TREE".to_vec();
    blob.extend_from_slice(&[1, 1, b'a', 9, 0, b'x']);
    let (sb, region) = image_with_blob(&blob);
    assert_eq!(mount(&sb, &region).1.err(), Some("truncated file content"));
}

#[test]
fn cut_path_ends_the_records() {
    let mut blob = b"TREE".to_vec();
    blob.extend_from_slice(&[1, 1, b'a', 1, 0, b'x']);
    blob.extend_from_slice(&[2, 9, b'b']);
    let (sb, region) = image_with_blob(&blob);
    let root = mount(&sb, &region).1.unwrap();
    assert!(same(&root, &dir(vec![("a", file("x"))])));
}

#[test]
fn invalid_utf8_is_an_error() {
    let mut blob = b"TREE".to_vec();
    blob.extend_from_slice(&[2, 2, 0xC3, 0x28, 0, 0]);
    let (sb, region) = image_with_blob(&blob);
    assert_eq!(mount(&sb, &region).1.err(), Some("invalid path in metadata"));

    let mut blob = b"TREE".to_vec();
    blob.extend_from_slice(&[1, 1, b'a', 1, 0, 0xFF]);
    let (sb, region) = image_with_blob(&blob);
    assert_eq!(mount(&sb, &region).1.err(), Some("invalid utf-8 in file"));
}

#[test]
fn file_in_the_way_is_a_conflict() {
    let mut blob = b"TREE".to_vec();
    blob.extend_from_slice(&[1, 1, b'f', 0, 0]);
    blob.extend_from_slice(&[1, 3, b'f', b'/', b'x', 0, 0]);
    let (sb, region) = image_with_blob(&blob);
    assert_eq!(mount(&sb, &region).1.err(), Some("path conflict"));
}

#[test]
fn missing_parents_are_created_and_later_records_replace() {
    let mut blob = b"TREE".to_vec();
    blob.extend_from_slice(&[1, 5, b'a', b'/', b'b', b'/', b'c', 1, 0, b'1']);
    blob.extend_from_slice(&[1, 7, b'/', b'a', b'/', b'/', b'b', b'/', b'c', 1, 0, b'2']);
    let (sb, region) = image_with_blob(&blob);
    let root = mount(&sb, &region).1.unwrap();
    assert!(same(&root, &dir(vec![("a", dir(vec![("b", dir(vec![("c", file("2"))]))]))])));
}

#[test]
fn recorded_length_out_of_range_is_an_error() {
    let img = format_region();
    let mut sb = superblock(&img);
    sb[20..24].copy_from_slice(&(200_000u32).to_le_bytes());
    assert_eq!(mount(&sb, &img.region).1.err(), Some("metadata length out of range"));
    sb[20..24].copy_from_slice(&(100u32).to_le_bytes());
    assert_eq!(mount(&sb, &img.region[..50]).1.err(), Some("metadata length out of range"));
}

#[test]
fn blob_without_tree_magic_reads_as_empty() {
    let (sb, region) = image_with_blob(b"NOPE and more");
    assert!(same(&mount(&sb, &region).1.unwrap(), &dir(vec![])));
}

#[test]
fn small_file_survives_remount() {
    // The length is read from the superblock, so a short file whose length
    // has a zero high byte is not mistaken for the end of the data.
    let root = dir(vec![("hello.txt", file("hello"))]);
    let img = sync_tree(&root).unwrap();
    let (_, back) = mount(&superblock(&img), &img.region);
    assert!(same(&back.unwrap(), &root));
}
