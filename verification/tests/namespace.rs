use vfs::fs::Fs;
use vfs::tree::{AnyFile, Attribs, Dir, File, FsError};

fn file_entry(name: &str) -> AnyFile {
    AnyFile::File(File {
        name: name.to_string(),
        content: Box::new(0),
        attribs: Attribs::default(),
    })
}

#[test]
fn test_new_namespace() {
    let fs = Fs::new();
    assert_eq!(fs.path, "/".to_string());
    assert_eq!(fs.cwd.len(), 0);
    assert_eq!(fs.cwd_dir().member_count(), 0);
}

#[test]
fn test_mkdir_then_cd_empty() {
    // A freshly created directory can be entered and has no members.
    let mut fs = Fs::new();
    assert_eq!(fs.mkdir("x"), Ok(()));
    assert_eq!(fs.cd("x"), Ok(()));
    assert_eq!(fs.path, "/x".to_string());
    assert_eq!(fs.cwd_dir().member_count(), 0);
}

#[test]
fn test_mkdir_already_exists_leaves_tree_unchanged() {
    let mut fs = Fs::new();
    assert_eq!(fs.mkdir("x"), Ok(()));
    let path_before = fs.path.clone();
    let count_before = fs.cwd_dir().member_count();
    assert_eq!(fs.mkdir("x"), Err(FsError::AlreadyExists));
    // Cursor and base path are restored, and the tree holds the same members.
    assert_eq!(fs.path, path_before);
    assert_eq!(fs.cwd_dir().member_count(), count_before);
    assert_eq!(fs.cd("x"), Ok(()));
    assert_eq!(fs.cwd_dir().member_count(), 0);
}

#[test]
fn test_cd_not_found_keeps_position() {
    let mut fs = Fs::new();
    assert_eq!(fs.mkdir("a"), Ok(()));
    assert_eq!(fs.cd("a"), Ok(()));
    let path_before = fs.path.clone();
    assert_eq!(fs.cd("missing"), Err(FsError::NotFound));
    assert_eq!(fs.path, path_before);
    // A following `cd(".")` resolves to the same position as before the
    // failed call.
    assert_eq!(fs.cd("."), Ok(()));
    assert_eq!(fs.path, path_before);
}

#[test]
fn test_cd_through_file_fails() {
    let mut fs = Fs::new();
    {
        let (_cwd, root) = fs.split();
        assert_eq!(root.insert("f".to_string(), file_entry("f")), Ok(()));
    }
    assert_eq!(fs.cd("f"), Err(FsError::NotADirectory));
    assert_eq!(fs.path, "/".to_string());
    assert_eq!(fs.cd("f/deeper"), Err(FsError::NotADirectory));
}

#[test]
fn test_cd_invalid_path_on_relative_base() {
    // A parent marker that survives reduction cannot be walked against the
    // tree. The stored base path is normally absolute, so this arises only
    // when the fields are set by hand.
    let mut fs = Fs::new();
    fs.path = ".".to_string();
    assert_eq!(fs.cd(".."), Err(FsError::InvalidPath));
}

#[test]
fn test_mkdir_empty_name() {
    let mut fs = Fs::new();
    assert_eq!(fs.mkdir(""), Err(FsError::EmptyName));
    assert_eq!(fs.mkdir("."), Err(FsError::EmptyName));
    assert_eq!(fs.mkdir(".."), Err(FsError::EmptyName));
    assert_eq!(fs.mkdir("/"), Err(FsError::EmptyName));
}

#[test]
fn test_mkdir_propagates_missing_parent() {
    let mut fs = Fs::new();
    assert_eq!(fs.mkdir("a/b"), Err(FsError::NotFound));
    let path_before = fs.path.clone();
    assert_eq!(fs.path, path_before);
}

#[test]
fn test_mkdir_leaves_cursor_at_parent() {
    // The internal `cd` of a successful `mkdir` is observable: the cursor
    // stays at the resolved parent.
    let mut fs = Fs::new();
    assert_eq!(fs.mkdir("a"), Ok(()));
    assert_eq!(fs.path, "/".to_string());
    assert_eq!(fs.mkdir("a/b"), Ok(()));
    assert_eq!(fs.path, "/a".to_string());
}

#[test]
fn test_cd_walks_and_normalizes() {
    let mut fs = Fs::new();
    assert_eq!(fs.mkdir("a"), Ok(()));
    assert_eq!(fs.cd("a"), Ok(()));
    assert_eq!(fs.mkdir("b"), Ok(()));
    assert_eq!(fs.cd("b"), Ok(()));
    assert_eq!(fs.path, "/a/b".to_string());
    assert_eq!(fs.cd(".."), Ok(()));
    assert_eq!(fs.path, "/a".to_string());
    assert_eq!(fs.cd("/"), Ok(()));
    assert_eq!(fs.path, "/".to_string());
    assert_eq!(fs.cd("/a/b"), Ok(()));
    assert_eq!(fs.path, "/a/b".to_string());
    assert_eq!(fs.cd("../../a/./b/"), Ok(()));
    assert_eq!(fs.path, "/a/b".to_string());
    // The parent of the root is the root.
    assert_eq!(fs.cd("/../.."), Ok(()));
    assert_eq!(fs.path, "/".to_string());
}

#[test]
fn test_dir_insert_and_lookup() {
    let mut d = Dir::new();
    assert_eq!(d.member_count(), 0);
    assert_eq!(d.insert("a".to_string(), AnyFile::dir()), Ok(()));
    assert_eq!(d.insert("".to_string(), AnyFile::dir()), Err(FsError::EmptyName));
    assert_eq!(d.insert("a".to_string(), AnyFile::dir()), Err(FsError::AlreadyExists));
    assert_eq!(d.member_count(), 1);
    assert!(d.lookup(&"a".to_string()).is_some());
    assert!(d.lookup(&"b".to_string()).is_none());
}

#[test]
fn test_as_dir_ref() {
    let dir = AnyFile::dir();
    assert!(dir.as_dir_ref().is_some());
    let f = file_entry("f");
    assert!(f.as_dir_ref().is_none());
}

#[test]
fn test_split_gives_tree_access() {
    let mut fs = Fs::new();
    {
        let (cwd, root) = fs.split();
        assert_eq!(cwd.len(), 0);
        assert_eq!(root.insert("seeded".to_string(), AnyFile::dir()), Ok(()));
    }
    assert_eq!(fs.cd("seeded"), Ok(()));
    assert_eq!(fs.path, "/seeded".to_string());
}

#[test]
fn test_deep_tree() {
    let mut fs = Fs::new();
    assert_eq!(fs.mkdir("a"), Ok(()));
    assert_eq!(fs.mkdir("a/b"), Ok(()));
    // The cursor now stands on `/a`, so the next target is relative to it.
    assert_eq!(fs.path, "/a".to_string());
    assert_eq!(fs.mkdir("b/c"), Ok(()));
    assert_eq!(fs.cd("/a/b/c"), Ok(()));
    assert_eq!(fs.cwd_dir().member_count(), 0);
    assert_eq!(fs.cd("/a"), Ok(()));
    assert_eq!(fs.cwd_dir().member_count(), 1);
}
