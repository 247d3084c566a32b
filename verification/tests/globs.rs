use oxc_tools::glob::{any_glob_matches, normalize_glob, pattern_fits, GlobMatcher};
use oxc_tools::path::FsPath;

fn path(text: &str) -> FsPath {
    FsPath::new(text.as_bytes().to_vec())
}

fn matcher(patterns: &[&str], targets: &[&str]) -> GlobMatcher {
    let patterns: Vec<Vec<u8>> = patterns.iter().map(|p| p.as_bytes().to_vec()).collect();
    let targets: Vec<FsPath> = targets.iter().map(|t| path(t)).collect();
    GlobMatcher::new(path("/cwd"), &patterns, &targets)
}

#[test]
fn patterns_without_slash_match_at_any_depth() {
    assert_eq!(normalize_glob(b"*.js"), b"**/*.js");
    assert_eq!(normalize_glob(b"foo/**/*.js"), b"foo/**/*.js");
    assert_eq!(normalize_glob(&normalize_glob(b"*.js")), b"**/*.js");
    assert_eq!(normalize_glob(b""), b"**/");
}

#[test]
fn paths_are_matched_below_the_working_directory() {
    let mut m = matcher(&["*.js", "docs/*.md"], &[]);
    assert!(m.matches(&path("/cwd/a.js")));
    assert!(m.matches(&path("/cwd/src/deep/a.js")));
    assert!(m.matches(&path("/cwd/docs/x.md")));
    assert!(!m.matches(&path("/cwd/docs/sub/x.md")));
    assert!(!m.matches(&path("/cwd/a.ts")));
    assert!(m.matches(&path("/cwd/a.js")));
}

#[test]
fn named_paths_are_accepted_once() {
    let mut m = matcher(&["*.css"], &["/cwd", "/cwd/a.js", "/cwd/src"]);
    assert!(m.matches(&path("/cwd/a.js")));
    assert!(!m.matches(&path("/cwd/a.js")));
    assert!(!m.matches(&path("/cwd//a.js")));
    assert!(!m.matches(&path("/cwd")));
    assert!(m.matches(&path("/cwd/src")));
    assert!(!m.matches(&path("/cwd/src/b.js")));
}

#[test]
fn spelling_of_the_path_counts_for_patterns() {
    let mut m = matcher(&["src/lib/*.js"], &[]);
    assert!(m.matches(&path("/cwd/src/lib/x.js")));
    assert!(!m.matches(&path("/cwd/src//lib/x.js")));
}

#[test]
fn matched_text_is_below_the_working_directory() {
    let m = matcher(&[], &[]);
    assert_eq!(m.matched_text(&path("/cwd/src/a.js")), b"src/a.js");
    assert_eq!(m.matched_text(&path("/other/a.js")), b"/other/a.js");
    let odd = FsPath::new([b"/cwd/".to_vec(), vec![0xff]].concat());
    assert_eq!(m.matched_text(&odd), "\u{fffd}".as_bytes());
}

#[test]
fn text_decides_where_it_is_given() {
    let mut m = matcher(&["*.js"], &[]);
    assert!(m.matches_text(&path("/cwd/a.ts"), b"a.js"));
    assert!(!m.matches_text(&path("/cwd/a.js"), b"a.ts"));
    assert_eq!(m.try_matches(&path("/cwd/a.js")), Some(true));
    assert_eq!(m.try_matches(&path("/cwd/a.ts")), Some(false));
}

#[test]
fn backslash_in_a_path_is_no_ordinary_byte_everywhere() {
    let separates = std::path::is_separator('\\');
    assert_eq!(any_glob_matches(&vec![b"*.js".to_vec()], b"a\\b.js"), !separates);
    assert!(any_glob_matches(&vec![b"**".to_vec()], b"a\\b.js"));
    assert!(!any_glob_matches(&vec![b"*.ts".to_vec()], b"a\\b.js"));
}

#[test]
fn any_pattern_is_enough() {
    assert!(any_glob_matches(&vec![b"*.css".to_vec(), b"**/*.{js,ts}".to_vec()], b"a/b.ts"));
    assert!(!any_glob_matches(&vec![b"*.css".to_vec()], b"a/b.ts"));
    assert!(!any_glob_matches(&vec![], b"a"));
}

#[test]
fn named_paths_are_accepted_once_whatever_comes_in_between() {
    let mut m = matcher(&["*.js"], &["/cwd/a.js", "/cwd/b"]);
    let mut accepted = 0;
    for visit in ["/cwd/a.js", "/cwd/x.js", "/cwd/b", "/cwd/./a.js", "/cwd/b/", "/cwd/a.js"] {
        if m.try_matches(&path(visit)) == Some(true) && path(visit).same_as(&path("/cwd/a.js")) {
            accepted += 1;
        }
    }
    assert_eq!(accepted, 1);
    assert_eq!(m.try_matches(&path("/cwd/x.js")), Some(true));
    assert_eq!(m.try_matches(&path("/cwd/b")), Some(false));
}

#[test]
fn ordinary_patterns_can_be_matched() {
    assert!(pattern_fits(b"src/**/*.{js,ts,{a,b}}"));
    assert!(pattern_fits(b""));
    assert!(pattern_fits(&vec![b'{'; 100_000]));
}
