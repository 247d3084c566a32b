use editorconfig_parser::EditorConfig;
use oxc_tools::discovery::{
    discover_config_file, find_unique_config_by_readdir, FileKind, ListedEntry,
};
use oxc_tools::nested::{
    load_direct_config_in_dir, LoadAnswers, LoadStep, NestedConfigCtx, ProbeStep,
};
use oxc_tools::path::FsPath;

fn path(text: &str) -> FsPath {
    FsPath::new(text.as_bytes().to_vec())
}

fn names() -> Vec<Vec<u8>> {
    vec![b".oxfmtrc.json".to_vec(), b".oxfmtrc.jsonc".to_vec(), b"vite.config.ts".to_vec()]
}

fn entry(name: &str, kind: Option<FileKind>) -> ListedEntry {
    ListedEntry { name: name.as_bytes().to_vec(), kind }
}

fn ctx() -> NestedConfigCtx {
    NestedConfigCtx::new(names(), None)
}

fn nothing() -> LoadAnswers {
    LoadAnswers { listing: None, conflict_text: None, built: None, validated: None }
}

fn listed(files: &[&str]) -> Option<Option<Vec<ListedEntry>>> {
    Some(Some(files.iter().map(|f| entry(f, Some(FileKind::Regular))).collect()))
}

#[test]
fn config_files_are_known_by_name() {
    let file = discover_config_file(&names(), &path("/a/.oxfmtrc.jsonc")).unwrap();
    assert_eq!(file.kind, 1);
    assert_eq!(file.path.as_bytes(), b"/a/.oxfmtrc.jsonc");
    assert!(discover_config_file(&names(), &path("/a/b.json")).is_none());
    assert!(ctx().is_config_file(&path("/x/vite.config.ts")));
    assert!(!ctx().is_config_file(&path("/x/.oxfmtrc.json/y")));
    assert!(!ctx().is_config_file(&path("/")));
}

#[test]
fn unique_config_is_found() {
    let entries = vec![
        entry("a.js", Some(FileKind::Regular)),
        entry(".oxfmtrc.jsonc", Some(FileKind::Directory)),
        entry("vite.config.ts", Some(FileKind::Other)),
        entry(".oxfmtrc.json", None),
    ];
    assert!(matches!(find_unique_config_by_readdir(&names(), &path("/d"), &Some(entries)), Ok(None)));
    let entries = vec![entry("a.js", Some(FileKind::Regular)), entry(".oxfmtrc.json", Some(FileKind::Regular))];
    let found = find_unique_config_by_readdir(&names(), &path("/d"), &Some(entries)).unwrap().unwrap();
    assert_eq!(found.path.as_bytes(), b"/d/.oxfmtrc.json");
    assert!(matches!(find_unique_config_by_readdir(&names(), &path("/d"), &None), Ok(None)));
}

#[test]
fn two_configs_are_a_conflict() {
    let entries = vec![
        entry("vite.config.ts", Some(FileKind::Regular)),
        entry(".oxfmtrc.json", Some(FileKind::Regular)),
    ];
    let conflict = find_unique_config_by_readdir(&names(), &path("/d"), &Some(entries)).unwrap_err();
    assert_eq!(conflict.dir.as_bytes(), b"/d");
    let kinds: Vec<usize> = conflict.files.iter().map(|f| f.kind).collect();
    assert_eq!(kinds, [2, 0]);
}

#[test]
fn loading_goes_step_by_step() {
    let dir = path("/d");
    let mut answers = nothing();
    assert!(matches!(load_direct_config_in_dir(&names(), &dir, "/d", &None, &answers), LoadStep::ReadDirectory));
    answers.listing = listed(&[".oxfmtrc.json"]);
    assert!(matches!(load_direct_config_in_dir(&names(), &dir, "/d", &None, &answers), LoadStep::Build { file, editorconfig: None } if file.kind == 0));
    answers.built = Some(Ok(Some(7)));
    assert!(matches!(load_direct_config_in_dir(&names(), &dir, "/d", &None, &answers), LoadStep::Validate(7)));
    answers.validated = Some(Ok(()));
    assert!(matches!(load_direct_config_in_dir(&names(), &dir, "/d", &None, &answers), LoadStep::Done(Ok(Some(7)))));
}

#[test]
fn load_failures_name_the_directory() {
    let dir = path("/d");
    let mut answers = nothing();
    answers.listing = listed(&[".oxfmtrc.json"]);
    answers.built = Some(Err("bad json".to_string()));
    match load_direct_config_in_dir(&names(), &dir, "/d", &None, &answers) {
        LoadStep::Done(Err(e)) => assert_eq!(e, "Failed to load config in /d: bad json"),
        step => panic!("{step:?}"),
    }
    answers.built = Some(Ok(Some(1)));
    answers.validated = Some(Err("bad option".to_string()));
    match load_direct_config_in_dir(&names(), &dir, "/d", &None, &answers) {
        LoadStep::Done(Err(e)) => assert_eq!(e, "Failed to load config in /d: bad option"),
        step => panic!("{step:?}"),
    }
}

#[test]
fn conflicts_are_described_as_they_are() {
    let dir = path("/d");
    let mut answers = nothing();
    answers.listing = listed(&[".oxfmtrc.json", ".oxfmtrc.jsonc"]);
    assert!(matches!(load_direct_config_in_dir(&names(), &dir, "/d", &None, &answers), LoadStep::DescribeConflict(c) if c.files.len() == 2));
    answers.conflict_text = Some("two configs".to_string());
    assert!(matches!(load_direct_config_in_dir(&names(), &dir, "/d", &None, &answers), LoadStep::Done(Err(e)) if e == "two configs"));
}

#[test]
fn directories_without_formatting_config_have_none() {
    let dir = path("/d");
    let mut answers = nothing();
    answers.listing = Some(None);
    assert!(matches!(load_direct_config_in_dir(&names(), &dir, "/d", &None, &answers), LoadStep::Done(Ok(None))));
    answers.listing = listed(&["a.js"]);
    assert!(matches!(load_direct_config_in_dir(&names(), &dir, "/d", &None, &answers), LoadStep::Done(Ok(None))));
    answers.listing = listed(&["vite.config.ts"]);
    answers.built = Some(Ok(None));
    assert!(matches!(load_direct_config_in_dir(&names(), &dir, "/d", &None, &answers), LoadStep::Done(Ok(None))));
}

#[test]
fn editorconfig_comes_first_and_is_kept() {
    let mut c = NestedConfigCtx::new(names(), Some(path("/.editorconfig")));
    assert_eq!(c.editorconfig_path().unwrap().as_bytes(), b"/.editorconfig");
    assert!(c.cached_editorconfig().is_none());
    assert!(matches!(c.get_or_load_direct_config(&path("/d"), "/d", &nothing()), LoadStep::LoadEditorconfig));
    c.keep_editorconfig(Ok(Some(EditorConfig::parse("root = true"))));
    c.keep_editorconfig(Err("late".to_string()));
    assert!(matches!(c.cached_editorconfig(), Some(Ok(Some(e))) if e.root()));
    assert!(matches!(c.get_or_load_direct_config(&path("/d"), "/d", &nothing()), LoadStep::ReadDirectory));
}

#[test]
fn a_scope_is_built_with_the_editorconfig() {
    let mut c = ctx();
    c.keep_editorconfig(Ok(Some(EditorConfig::parse("root = true"))));
    let mut answers = nothing();
    answers.listing = listed(&["vite.config.ts"]);
    match c.get_or_load_direct_config(&path("/d"), "/d", &answers) {
        LoadStep::Build { file, editorconfig: Some(editorconfig) } => {
            assert_eq!(file.path.as_bytes(), b"/d/vite.config.ts");
            assert!(editorconfig.root());
        }
        step => panic!("{step:?}"),
    }
}

#[test]
fn broken_editorconfig_fails_every_load() {
    let mut c = ctx();
    c.keep_editorconfig(Err("unreadable".to_string()));
    c.keep_editorconfig(Ok(None));
    assert!(matches!(c.get_or_load_direct_config(&path("/d"), "/d", &nothing()), LoadStep::Done(Err(e)) if e == "unreadable"));
    assert!(c.editorconfig_path().is_none());
}

#[test]
fn a_directory_is_loaded_once() {
    let mut c = ctx();
    assert!(matches!(c.probe_dir(&path("/d")), ProbeStep::Load));
    assert!(matches!(c.probe_dir(&path("/d/")), ProbeStep::Wait));
    assert!(!c.config_found());
    assert_eq!(c.finish_load(&path("/d"), Ok(Some(3))), Ok(Some(3)));
    assert!(c.config_found());
    assert!(matches!(c.probe_dir(&path("//d")), ProbeStep::Known(Ok(Some(3)))));
    assert_eq!(c.lookup_scope(&path("/d")), Some(3));
    assert_eq!(c.lookup_scope(&path("/e")), None);
}

#[test]
fn the_first_result_counts() {
    let mut c = ctx();
    assert!(matches!(c.probe_dir(&path("/d")), ProbeStep::Load));
    assert_eq!(c.finish_load(&path("/d"), Ok(Some(3))), Ok(Some(3)));
    assert_eq!(c.finish_load(&path("/d"), Ok(Some(4))), Ok(Some(3)));
    assert_eq!(c.lookup_scope(&path("/d")), Some(3));
}

#[test]
fn no_config_and_failures_are_kept_too() {
    let mut c = ctx();
    assert!(matches!(c.probe_dir(&path("/none")), ProbeStep::Load));
    assert_eq!(c.finish_load(&path("/none"), Ok(None)), Ok(None));
    assert!(matches!(c.probe_dir(&path("/none")), ProbeStep::Known(Ok(None))));
    assert_eq!(c.finish_load(&path("/bad"), Err("broken".to_string())), Err("broken".to_string()));
    assert!(matches!(c.probe_dir(&path("/bad")), ProbeStep::Known(Err(e)) if e == "broken"));
    assert!(!c.config_found());
    assert_eq!(c.lookup_scope(&path("/none")), None);
}
