use vfs::paths::reduce;

#[test]
fn test_reduce() {
    let reduced_path = |path: &str| reduce(path);
    let as_path = |path: &str| path.to_string();
    assert_eq!(reduced_path("//.."), as_path("/"));
    assert_eq!(reduced_path(".//.."), as_path("./.."));
    assert_eq!(reduced_path("./a/.."), as_path("."));
    assert_eq!(reduced_path("./a/"), as_path("./a"));
    assert_eq!(reduced_path("./a/b/.."), as_path("./a"));
    assert_eq!(reduced_path("./a//b//.."), as_path("./a"));
    assert_eq!(reduced_path("./a//b//../"), as_path("./a"));
    assert_eq!(reduced_path("./a/b/c/d/e/"), as_path("./a/b/c/d/e"));
    assert_eq!(reduced_path("/////a/b/c/"), as_path("/a/b/c"));
    assert_eq!(reduced_path(""), as_path(""));
    assert_eq!(reduced_path("/"), as_path("/"));
    assert_eq!(reduced_path("."), as_path("."));
    assert_eq!(reduced_path(".."), as_path(".."));
}

#[test]
fn test_reduce_idempotent_samples() {
    let samples = [
        "", "/", ".", "..", "//..", ".//..", "./a/..", "./a/", "./a//b//../", "/////a/b/c/",
        "a/b/c", "../../x", "./../a", "/a/../../b", "a/./b/./c/..", "..../...", "/..",
    ];
    for p in samples {
        let once = reduce(p);
        let twice = reduce(&once);
        assert_eq!(twice, once);
    }
}

#[test]
fn test_reduce_more_cases() {
    // Parent markers that cannot be resolved are kept literally.
    assert_eq!(reduce("../.."), "../..".to_string());
    assert_eq!(reduce("a/../.."), "..".to_string());
    // The parent of the root is the root.
    assert_eq!(reduce("/../.."), "/".to_string());
    assert_eq!(reduce("/a/../.."), "/".to_string());
    // Interior current-dir markers vanish.
    assert_eq!(reduce("a/./b"), "a/b".to_string());
    assert_eq!(reduce("/a/./b/."), "/a/b".to_string());
    // Names made of more than two dots are ordinary names.
    assert_eq!(reduce("..."), "...".to_string());
}
