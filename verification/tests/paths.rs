use oxc_tools::path::FsPath;

fn path(text: &str) -> FsPath {
    FsPath::new(text.as_bytes().to_vec())
}

fn text(path: &FsPath) -> String {
    String::from_utf8(path.as_bytes().to_vec()).unwrap()
}

fn components(s: &str) -> Vec<String> {
    path(s).components().into_iter().map(|c| String::from_utf8(c).unwrap()).collect()
}

#[test]
fn components_skip_repeated_separators_and_dots() {
    assert_eq!(components("/a//b/./c/"), ["/", "a", "b", "c"]);
    assert_eq!(components("./a"), [".", "a"]);
    assert_eq!(components("a/.."), ["a", ".."]);
    assert_eq!(components("/"), ["/"]);
    assert_eq!(components("//"), ["/"]);
    assert_eq!(components("/."), ["/"]);
    assert_eq!(components("."), ["."]);
    assert!(components("").is_empty());
    assert_eq!(components("a/.b"), ["a", ".b"]);
}

#[test]
fn components_agree_with_std() {
    for s in ["/a//b/./c/", "./a", "a/..", "/", "//x", "/.", ".", "", "a/.b", "..", "../x/", "a/./", "./.", ".//a"] {
        let std_components: Vec<String> = std::path::Path::new(s)
            .components()
            .map(|c| c.as_os_str().to_str().unwrap().to_string())
            .collect();
        assert_eq!(components(s), std_components, "{s}");
    }
}

#[test]
fn parents_and_ancestors_agree_with_std() {
    for s in ["/a//b/./c/", "./a", "a/..", "/", "//x", "/.", ".", "", "a", "/a", "a/./b", "../x/"] {
        let std_ancestors: Vec<String> =
            std::path::Path::new(s).ancestors().map(|p| p.to_str().unwrap().to_string()).collect();
        let ancestors: Vec<String> = path(s).ancestors().iter().map(text).collect();
        assert_eq!(ancestors, std_ancestors, "{s}");
        let parent = path(s).parent().map(|p| text(&p));
        assert_eq!(parent.as_deref(), std::path::Path::new(s).parent().map(|p| p.to_str().unwrap()));
    }
}

#[test]
fn join_agrees_with_std() {
    for base in ["/cwd", "/cwd/", "/", "", "rel"] {
        for rest in ["a", "/a", "", "./a", "a/b"] {
            let joined = std::path::Path::new(base).join(rest);
            assert_eq!(text(&path(base).join(rest.as_bytes())), joined.to_str().unwrap());
        }
    }
}

#[test]
fn strip_prefix_agrees_with_std() {
    for (s, base) in [
        ("/cwd/src//lib/x.js", "/cwd"),
        ("/cwd", "/cwd/"),
        ("/cwd/a/", "/cwd"),
        ("/other/a", "/cwd"),
        ("/cwdx", "/cwd"),
        ("a/b", ""),
        ("./a/", ""),
        ("/a", ""),
    ] {
        let expected =
            std::path::Path::new(s).strip_prefix(base).ok().map(|p| p.to_str().unwrap().to_string());
        let got = path(s).strip_prefix(&path(base)).map(|b| String::from_utf8(b).unwrap());
        assert_eq!(got, expected, "{s} {base}");
        assert_eq!(path(s).starts_with(&path(base)), expected.is_some());
    }
}

#[test]
fn file_names_agree_with_std() {
    for s in ["/a/b.js", "/", "..", ".", "a/..", "a/.", "", "b/"] {
        let expected = std::path::Path::new(s).file_name().map(|n| n.to_str().unwrap().to_string());
        assert_eq!(path(s).file_name().map(|b| String::from_utf8(b).unwrap()), expected, "{s}");
    }
}

#[test]
fn spellings_of_one_path_are_the_same() {
    assert!(path("/a//b/").same_as(&path("/a/./b")));
    assert!(!path("/a/b").same_as(&path("a/b")));
    assert!(path("/a").is_absolute());
    assert!(!path("a").is_absolute());
}

#[test]
fn joined_relative_path_is_below_its_base() {
    assert!(path("/cwd").join(b"../x").starts_with(&path("/cwd")));
    assert!(!path("/cwd").join(b"/x").starts_with(&path("/cwd")));
    assert_eq!(text(&path("/a/b").duplicate()), "/a/b");
}
