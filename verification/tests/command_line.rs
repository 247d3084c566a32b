use oxc_tools::path::FsPath;
use oxc_tools::walker::{
    candidate_for_text, classify_arg, glob_candidate, is_glob_pattern, split_targets,
    strip_dot_slash, ArgClass, PathArg, RunAnswers, RunStep, ScopedWalker, TargetProbe, WalkReport,
};

fn path(text: &str) -> FsPath {
    FsPath::new(text.as_bytes().to_vec())
}

fn text(path: &FsPath) -> String {
    String::from_utf8(path.as_bytes().to_vec()).unwrap()
}

fn texts(paths: &[FsPath]) -> Vec<String> {
    paths.iter().map(text).collect()
}

fn walker(cwd: &str, args: &[(&str, bool)]) -> ScopedWalker {
    let args: Vec<PathArg> =
        args.iter().map(|(text, exists)| PathArg { path: path(text), exists: *exists }).collect();
    ScopedWalker::new(path(cwd), &args)
}

fn no_answers() -> RunAnswers {
    RunAnswers { matchers: None, targets: None, files: None, walk: None }
}

fn probe(text: &str, is_dir: bool, ignored: bool) -> TargetProbe {
    TargetProbe { path: path(text), is_dir, ignored }
}

#[test]
fn dot_slash_prefix_is_normalized() {
    assert_eq!(strip_dot_slash(b".//src/app.js"), b"src/app.js");
    assert_eq!(strip_dot_slash(b"./src"), b"src");
    assert_eq!(strip_dot_slash(b"./"), b"");
    assert_eq!(strip_dot_slash(b"."), b".");
    assert_eq!(strip_dot_slash(b"././a"), b"./a");
    assert_eq!(strip_dot_slash(b"src"), b"src");
}

#[test]
fn existing_path_is_no_glob() {
    assert!(is_glob_pattern(b"[id].tsx", false));
    assert!(!is_glob_pattern(b"[id].tsx", true));
    assert!(is_glob_pattern(b"{config}.js", false));
    assert!(is_glob_pattern(b"a?.js", false));
    assert!(is_glob_pattern(b"*.js", false));
    assert!(!is_glob_pattern(b"app.js", false));
}

#[test]
fn arguments_are_classified() {
    let cwd = path("/cwd");
    let class = |t: &str, exists: bool| classify_arg(&cwd, &path(t), t.as_bytes(), exists);
    assert!(matches!(class("!dist", false), ArgClass::Exclude(p) if p == b"!dist"));
    assert!(matches!(class("./**/*.js", false), ArgClass::Glob(p) if p == b"**/*.js"));
    assert!(matches!(class("[id].tsx", true), ArgClass::Target(p) if text(&p) == "/cwd/[id].tsx"));
    assert!(matches!(class("/abs/x.js", false), ArgClass::Target(p) if text(&p) == "/abs/x.js"));
    assert!(matches!(class(".", false), ArgClass::Target(p) if text(&p) == "/cwd"));
    assert!(matches!(class("./.", false), ArgClass::Target(p) if text(&p) == "/cwd"));
    assert!(matches!(class("./", false), ArgClass::Target(p) if text(&p) == "/cwd/"));
    assert!(matches!(class(".//src/app.js", false), ArgClass::Target(p) if text(&p) == "/cwd/src/app.js"));
}

#[test]
fn walker_sorts_its_arguments() {
    let w = walker("/cwd", &[("src", true), ("!dist", false), ("*.js", false), ("!x", false), ("lib", true)]);
    assert_eq!(text(w.working_dir()), "/cwd");
    assert_eq!(*w.exclude_patterns(), [b"!dist".to_vec(), b"!x".to_vec()]);
    assert_eq!(texts(&w.initial_targets()), ["/cwd/src", "/cwd/lib", "/cwd"]);
    assert!(w.glob_matcher(&[]).is_some());
}

#[test]
fn text_that_is_not_utf8_is_replaced() {
    let bad = FsPath::new(vec![b'!', 0xff]);
    let w = ScopedWalker::new(path("/cwd"), &[PathArg { path: bad, exists: false }]);
    assert_eq!(*w.exclude_patterns(), ["!\u{fffd}".as_bytes().to_vec()]);
    let relative = FsPath::new(vec![0xff]);
    let w = ScopedWalker::new(path("/cwd"), &[PathArg { path: relative, exists: false }]);
    assert_eq!(w.initial_targets()[0].as_bytes(), "/cwd/\u{fffd}".as_bytes());
    let absolute = FsPath::new(vec![b'/', 0xff]);
    let w = ScopedWalker::new(path("/cwd"), &[PathArg { path: absolute, exists: false }]);
    assert_eq!(w.initial_targets()[0].as_bytes(), [b'/', 0xff]);
}

#[test]
fn existence_is_asked_for_only_where_it_counts() {
    let cwd = path("/cwd");
    assert_eq!(glob_candidate(&cwd, &path("./[id].js")).map(|p| text(&p)).as_deref(), Some("/cwd/[id].js"));
    assert!(glob_candidate(&cwd, &path("app.js")).is_none());
    assert!(glob_candidate(&cwd, &path("!*.js")).is_none());
    assert_eq!(candidate_for_text(&cwd, b"/a/*").map(|p| text(&p)).as_deref(), Some("/a/*"));
    assert!(glob_candidate(&cwd, &FsPath::new(vec![0xff, b'*'])).map(|p| text(&p)).as_deref() == Some("/cwd/\u{fffd}*"));
}

#[test]
fn no_paths_start_from_the_working_directory() {
    assert_eq!(texts(&walker("/cwd", &[]).initial_targets()), ["/cwd"]);
    assert_eq!(texts(&walker("/cwd", &[("!dist", false)]).initial_targets()), ["/cwd"]);
    assert!(walker("/cwd", &[]).glob_matcher(&[]).is_none());
}

#[test]
fn starts_are_distinct() {
    let w = walker("/cwd", &[("src", true), ("./src/", true), ("/cwd//src", true), ("lib", true)]);
    assert_eq!(texts(&w.initial_targets()), ["/cwd/src", "/cwd/lib"]);
    let w = walker("/cwd", &[(".", true), ("*.js", false)]);
    assert_eq!(texts(&w.initial_targets()), ["/cwd"]);
}

#[test]
fn targets_are_split() {
    let probes = [
        probe("/cwd/src", true, false),
        probe("/cwd/a.js", false, false),
        probe("/cwd/dist", true, true),
        probe("/cwd/b.js", false, true),
        probe("/cwd/lib", true, false),
    ];
    let (dirs, files) = split_targets(&probes);
    assert_eq!(texts(&dirs), ["/cwd/src", "/cwd/lib"]);
    assert_eq!(texts(&files), ["/cwd/a.js"]);
}

#[test]
fn run_goes_through_its_phases() {
    let w = walker("/cwd", &[("src", true), ("a.js", true)]);
    let mut answers = no_answers();
    assert!(matches!(w.run(false, &answers), RunStep::BuildMatchers));
    answers.matchers = Some(Ok(()));
    match w.run(false, &answers) {
        RunStep::ProbeTargets(paths) => assert_eq!(texts(&paths), ["/cwd/src", "/cwd/a.js"]),
        step => panic!("{step:?}"),
    }
    answers.targets = Some(vec![probe("/cwd/src", true, false), probe("/cwd/a.js", false, false)]);
    match w.run(false, &answers) {
        RunStep::ProcessFiles(paths) => assert_eq!(texts(&paths), ["/cwd/a.js"]),
        step => panic!("{step:?}"),
    }
    answers.files = Some(Ok(false));
    match w.run(false, &answers) {
        RunStep::Walk(paths) => assert_eq!(texts(&paths), ["/cwd/src"]),
        step => panic!("{step:?}"),
    }
    answers.walk = Some(WalkReport { fatal: None, config_found: false });
    assert!(matches!(w.run(false, &answers), RunStep::Done(Ok(false))));
    assert!(matches!(w.run(true, &answers), RunStep::Done(Ok(true))));
    answers.walk = Some(WalkReport { fatal: None, config_found: true });
    assert!(matches!(w.run(false, &answers), RunStep::Done(Ok(true))));
}

#[test]
fn run_ends_with_the_first_error() {
    let w = walker("/cwd", &[]);
    let mut answers = no_answers();
    answers.matchers = Some(Err("bad ignore file".to_string()));
    assert!(matches!(w.run(true, &answers), RunStep::Done(Err(e)) if e == "bad ignore file"));
    answers.matchers = Some(Ok(()));
    answers.targets = Some(vec![probe("/cwd", true, false)]);
    answers.files = Some(Err("bad config".to_string()));
    assert!(matches!(w.run(true, &answers), RunStep::Done(Err(e)) if e == "bad config"));
    answers.files = Some(Ok(true));
    answers.walk = Some(WalkReport { fatal: Some("broken".to_string()), config_found: true });
    assert!(matches!(w.run(true, &answers), RunStep::Done(Err(e)) if e == "broken"));
}

#[test]
fn nothing_is_walked_without_a_directory() {
    let w = walker("/cwd", &[("a.js", true)]);
    let mut answers = no_answers();
    answers.matchers = Some(Ok(()));
    answers.targets = Some(vec![probe("/cwd/a.js", false, false), probe("/cwd/dist", true, true)]);
    assert!(matches!(w.run(false, &answers), RunStep::ProcessFiles(files) if files.len() == 1));
    answers.files = Some(Ok(false));
    assert!(matches!(w.run(false, &answers), RunStep::Done(Ok(false))));
    assert!(matches!(w.run(true, &answers), RunStep::Done(Ok(true))));
    answers.files = Some(Ok(true));
    assert!(matches!(w.run(false, &answers), RunStep::Done(Ok(true))));
}
