use kernel::fs::{self, FileSystem};
use kernel::tuwaiqfs::{format_region, mount, FsNode};

fn fresh() -> Option<FileSystem> {
    let img = format_region();
    let mut sb = [0u8; 512];
    sb.copy_from_slice(&img.superblock);
    let (_, mounted) = mount(&sb, &img.region);
    let mut state = None;
    fs::init(&mut state, mounted);
    state
}

/// Writes what the filesystem left pending and mounts it again.
fn reboot(state: &mut Option<FileSystem>) -> Option<FileSystem> {
    let img = fs::take_pending(state).expect("a sync is pending");
    let mut sb = [0u8; 512];
    sb.copy_from_slice(&img.superblock);
    let (format, mounted) = mount(&sb, &img.region);
    assert!(format.is_none());
    let mut next = None;
    fs::init(&mut next, mounted);
    next
}

#[test]
fn fresh_filesystem_is_empty() {
    let state = fresh();
    assert_eq!(fs::ls(&state).unwrap(), Vec::<String>::new());
    assert_eq!(fs::pwd(&state).unwrap(), "/");
}

#[test]
fn uninitialized_filesystem_refuses() {
    let mut state: Option<FileSystem> = None;
    assert_eq!(fs::ls(&state).err(), Some("filesystem not initialized"));
    assert_eq!(fs::pwd(&state).err(), Some("filesystem not initialized"));
    assert_eq!(fs::touch(&mut state, "a").err(), Some("filesystem not initialized"));
    assert_eq!(fs::cat(&state, "a").err(), Some("filesystem not initialized"));
    assert_eq!(fs::sync_to_disk(&mut state).err(), Some("filesystem not initialized"));
    assert!(fs::take_pending(&mut state).is_none());
}

#[test]
fn touch_write_cat() {
    let mut state = fresh();
    assert_eq!(fs::touch(&mut state, "hello.txt"), Ok(()));
    assert_eq!(fs::ls(&state).unwrap(), vec!["hello.txt".to_string()]);
    assert_eq!(fs::cat(&state, "hello.txt").unwrap(), "");
    assert_eq!(fs::write(&mut state, "hello.txt", "hello"), Ok(()));
    assert_eq!(fs::cat(&state, "hello.txt").unwrap(), "hello");
}

#[test]
fn write_survives_reboot() {
    let mut state = fresh();
    fs::touch(&mut state, "hello.txt").unwrap();
    fs::write(&mut state, "hello.txt", "hello").unwrap();
    let state = reboot(&mut state);
    assert_eq!(fs::cat(&state, "hello.txt").unwrap(), "hello");
}

#[test]
fn every_mutation_leaves_a_sync() {
    let mut state = fresh();
    assert!(fs::take_pending(&mut state).is_none());
    fs::mkdir(&mut state, "docs").unwrap();
    assert!(fs::take_pending(&mut state).is_some());
    assert!(fs::take_pending(&mut state).is_none());
    fs::sync_to_disk(&mut state).unwrap();
    assert!(fs::take_pending(&mut state).is_some());
}

#[test]
fn names_are_trimmed() {
    let mut state = fresh();
    fs::touch(&mut state, "  spaced.txt \n").unwrap();
    assert_eq!(fs::ls(&state).unwrap(), vec!["spaced.txt".to_string()]);
    fs::write(&mut state, " spaced.txt", "x").unwrap();
    assert_eq!(fs::cat(&state, "spaced.txt\t").unwrap(), "x");
}

#[test]
fn duplicate_names_are_refused() {
    let mut state = fresh();
    fs::touch(&mut state, "a").unwrap();
    assert_eq!(fs::touch(&mut state, "a").err(), Some("file or directory already exists"));
    assert_eq!(fs::mkdir(&mut state, "a").err(), Some("file or directory already exists"));
}

#[test]
fn invalid_names_are_refused() {
    let mut state = fresh();
    assert_eq!(fs::touch(&mut state, "   ").err(), Some("name required"));
    assert_eq!(fs::touch(&mut state, "a/b").err(), Some("invalid name"));
    assert_eq!(fs::mkdir(&mut state, "a\\b").err(), Some("invalid name"));
    assert_eq!(fs::write(&mut state, "", "x").err(), Some("name required"));
    assert_eq!(fs::cat(&state, "x/y").err(), Some("invalid name"));
}

#[test]
fn directories_list_with_a_slash() {
    let mut state = fresh();
    fs::mkdir(&mut state, "docs").unwrap();
    fs::touch(&mut state, "a.txt").unwrap();
    assert_eq!(fs::ls(&state).unwrap(), vec!["docs/".to_string(), "a.txt".to_string()]);
    assert_eq!(fs::cat(&state, "docs").err(), Some("is a directory"));
    assert_eq!(fs::write(&mut state, "docs", "x").err(), Some("is a directory"));
    assert_eq!(fs::cat(&state, "missing").err(), Some("file not found"));
}

#[test]
fn paths_create_directories() {
    let mut state = fresh();
    assert_eq!(fs::write_in_path(&mut state, "a/b/c.txt", "deep"), Ok(()));
    assert_eq!(fs::cat_path(&state, "/a/b/c.txt").unwrap(), "deep");
    assert_eq!(fs::cat_path(&state, " a//b/c.txt ").unwrap(), "deep");
    assert_eq!(fs::ls_path(&state, "a").unwrap(), vec!["b/".to_string()]);
    assert_eq!(fs::ls_path(&state, "a/b").unwrap(), vec!["c.txt".to_string()]);
    assert_eq!(fs::ls(&state).unwrap(), vec!["a/".to_string()]);
    let state = reboot(&mut state);
    assert_eq!(fs::cat_path(&state, "a/b/c.txt").unwrap(), "deep");
}

#[test]
fn path_errors() {
    let mut state = fresh();
    fs::write_in_path(&mut state, "f", "file").unwrap();
    assert_eq!(fs::cat(&state, "f").unwrap(), "file");
    assert_eq!(fs::write_in_path(&mut state, "f/x/y", "z").err(), Some("path conflict"));
    assert_eq!(fs::write_in_path(&mut state, "f/y", "z").err(), Some("not a directory"));
    assert_eq!(fs::write_in_path(&mut state, "  /  ", "z").err(), Some("path required"));
    assert_eq!(fs::write_in_path(&mut state, "d/a\\b", "z").err(), Some("invalid name"));
    assert_eq!(fs::cat_path(&state, "").err(), Some("path required"));
    assert_eq!(fs::cat_path(&state, "nowhere/x").err(), Some("directory not found"));
    assert_eq!(fs::cat_path(&state, "f/x").err(), Some("not a directory"));
    assert_eq!(fs::ls_path(&state, "f").err(), Some("not a directory"));
    assert_eq!(fs::ls_path(&state, "nowhere").err(), Some("directory not found"));
    assert_eq!(fs::ls_path(&state, "/").unwrap(), vec!["f".to_string()]);
}

#[test]
fn completion_lists_matching_names_in_tree_order() {
    let mut state = fresh();
    fs::write_in_path(&mut state, "docs/hello.md", "").unwrap();
    fs::touch(&mut state, "hello.txt").unwrap();
    fs::touch(&mut state, "world").unwrap();
    assert_eq!(
        fs::completion_candidates(&state, "he").unwrap(),
        vec!["hello.md".to_string(), "hello.txt".to_string()]
    );
    assert_eq!(fs::completion_candidates(&state, "").unwrap().len(), 4);
    assert_eq!(fs::completion_candidates(&state, "zz").unwrap(), Vec::<String>::new());
}

#[test]
fn oversized_write_changes_nothing() {
    let mut state = fresh();
    let big = "x".repeat(3000);
    assert_eq!(fs::write(&mut state, "big", &big).err(), Some("file too large"));
    assert_eq!(fs::cat(&state, "big").err(), Some("file not found"));
    assert_eq!(fs::ls(&state).unwrap(), Vec::<String>::new());
    assert!(fs::take_pending(&mut state).is_none());

    fs::write(&mut state, "small", "keep").unwrap();
    assert!(fs::take_pending(&mut state).is_some());
    assert_eq!(fs::write(&mut state, "small", &big).err(), Some("file too large"));
    assert_eq!(fs::cat(&state, "small").unwrap(), "keep");
    assert!(fs::take_pending(&mut state).is_none());
    assert_eq!(fs::sync_to_disk(&mut state), Ok(()));
}

#[test]
fn oversized_path_write_creates_no_directories() {
    let mut state = fresh();
    let big = "x".repeat(3000);
    assert_eq!(fs::write_in_path(&mut state, "a/b/c.txt", &big).err(), Some("file too large"));
    assert_eq!(fs::ls(&state).unwrap(), Vec::<String>::new());
}

#[test]
fn touched_file_reads_empty_and_new_directory_lists_empty() {
    let mut state = fresh();
    fs::touch(&mut state, " notes.txt ").unwrap();
    assert_eq!(fs::cat(&state, "notes.txt").unwrap(), "");
    fs::mkdir(&mut state, "docs").unwrap();
    assert_eq!(fs::ls_path(&state, "docs").unwrap(), Vec::<String>::new());
    assert_eq!(fs::pwd(&state).unwrap(), "/");
}

#[test]
fn cat_trims_the_name_but_not_the_text() {
    let mut state = fresh();
    fs::write(&mut state, "a.txt", " padded text ").unwrap();
    assert_eq!(fs::cat(&state, " a.txt ").unwrap(), " padded text ");
    assert_eq!(fs::cat(&state, "a.txt").unwrap(), " padded text ");
}

#[test]
fn writes_leave_other_files_alone() {
    let mut state = fresh();
    fs::write(&mut state, "one", "1").unwrap();
    fs::write_in_path(&mut state, "docs/two", "2").unwrap();
    fs::write(&mut state, "three", "3").unwrap();
    fs::write_in_path(&mut state, "docs/four", "4").unwrap();
    assert_eq!(fs::cat(&state, "one").unwrap(), "1");
    assert_eq!(fs::cat_path(&state, "docs/two").unwrap(), "2");
    assert_eq!(fs::cat(&state, "three").unwrap(), "3");
    assert_eq!(fs::cat_path(&state, "docs/four").unwrap(), "4");
    assert_eq!(
        fs::ls(&state).unwrap(),
        vec!["one".to_string(), "docs/".to_string(), "three".to_string()]
    );
}

#[test]
fn failed_mount_starts_empty() {
    let mut state = None;
    fs::init(&mut state, Err("metadata length out of range"));
    assert_eq!(fs::ls(&state).unwrap(), Vec::<String>::new());
    let mut state = None;
    fs::init(&mut state, Ok(FsNode::File { content: String::from("x") }));
    assert_eq!(fs::ls(&state).unwrap(), Vec::<String>::new());
}

#[test]
fn label_names_the_format() {
    assert_eq!(fs::label(), "TuwaiqFS v2");
}
