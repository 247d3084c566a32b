use oxc_tools::direct::{
    resolve_file_scope_config, DirectFiles, FileAnswers, FileScopeStep, FileStep,
};
use oxc_tools::discovery::FileKind;
use oxc_tools::filter::{filter_entry, is_ignored_dir, is_walk_excluded_dir, FilterStep};
use oxc_tools::nested::{ConfigLoadResult, NestedConfigCtx};
use oxc_tools::path::FsPath;
use oxc_tools::path_index::collect_paths;
use oxc_tools::visitor::{
    report_resolve_error, CachedScope, FatalError, ResolveOutcome, ScopeAnswers, ScopeStep,
    VisitAnswers, VisitStep, WalkState, WalkVisitor, WalkedEntry,
};

const ROOT: u64 = 100;

fn path(text: &str) -> FsPath {
    FsPath::new(text.as_bytes().to_vec())
}

fn ctx() -> NestedConfigCtx {
    NestedConfigCtx::new(vec![b".oxfmtrc.json".to_vec()], None)
}

fn visitor(root_config_dir: Option<&str>) -> WalkVisitor {
    WalkVisitor::new(true, ROOT, &root_config_dir.map(path))
}

/// Settles the scope of `parent`, where `configs` says which directories have a configuration.
fn settle(
    v: &mut WalkVisitor,
    c: &NestedConfigCtx,
    parent: &str,
    configs: &[(&str, u64)],
) -> (Result<CachedScope, String>, Vec<String>) {
    let parent = path(parent);
    let mut probed = vec![];
    if let Some(search) = v.search_scope(&parent, c) {
        let mut answers = ScopeAnswers { probes: vec![], ignored: vec![] };
        loop {
            match v.ensure_scope_cached(&parent, &search, &answers) {
                ScopeStep::Ready => break,
                ScopeStep::Probe(dir) => {
                    let text = String::from_utf8(dir.as_bytes().to_vec()).unwrap();
                    let found: ConfigLoadResult = match configs.iter().find(|(d, _)| *d == text) {
                        Some((_, 0)) => Err(format!("broken {text}")),
                        Some((_, scope)) => Ok(Some(*scope)),
                        None => Ok(None),
                    };
                    answers.probes.push(found);
                    probed.push(text);
                }
                ScopeStep::CheckIgnored { scope, dir } => {
                    answers.ignored.push(scope == 2 && dir.same_as(&path("/r/a/b")));
                }
                ScopeStep::Failed(err) => return (Err(err), probed),
            }
        }
    }
    (Ok(v.cached_scope(&parent).unwrap()), probed)
}

fn scope(v: &WalkVisitor, dir: &str) -> Option<u64> {
    v.cached_scope(&path(dir)).map(|c| c.scope)
}

#[test]
fn nearest_config_wins() {
    let mut v = visitor(None);
    let configs = [("/r", 1), ("/r/a", 2)];
    let (cached, probed) = settle(&mut v, &ctx(), "/r/a/b", &configs);
    assert_eq!(cached, Ok(CachedScope { scope: 2, ignored: true }));
    assert_eq!(probed, ["/r/a/b", "/r/a"]);
    assert_eq!(settle(&mut v, &ctx(), "/r/x", &configs).0.unwrap().scope, 1);
    assert_eq!(settle(&mut v, &ctx(), "/r/a/c", &configs).0.unwrap().scope, 2);
}

#[test]
fn inner_config_does_not_cover_outer_directories() {
    let mut v = visitor(None);
    let configs = [("/r/a/b", 3)];
    assert_eq!(settle(&mut v, &ctx(), "/r/a/b", &configs).0.unwrap().scope, 3);
    assert_eq!(scope(&v, "/r/a"), None);
    assert_eq!(scope(&v, "/r"), None);
    assert_eq!(settle(&mut v, &ctx(), "/r/a", &configs).0.unwrap().scope, ROOT);
    assert_eq!(scope(&v, "/r"), Some(ROOT));
}

#[test]
fn probed_directories_are_settled_together() {
    let mut v = visitor(None);
    let (_, probed) = settle(&mut v, &ctx(), "/r/a/b/c", &[("/r/a", 2)]);
    assert_eq!(probed, ["/r/a/b/c", "/r/a/b", "/r/a"]);
    assert_eq!(scope(&v, "/r/a/b"), Some(2));
    assert_eq!(scope(&v, "/r/a"), Some(2));
    assert_eq!(scope(&v, "/r"), None);
    let (cached, probed) = settle(&mut v, &ctx(), "/r/a/b/d", &[("/r/a", 2)]);
    assert_eq!(cached.unwrap().scope, 2);
    assert_eq!(probed, ["/r/a/b/d"]);
}

#[test]
fn registered_scopes_are_found_but_closer_ones_win() {
    let mut c = ctx();
    c.finish_load(&path("/r"), Ok(Some(1)));
    let mut v = visitor(None);
    let (cached, probed) = settle(&mut v, &c, "/r/a/b", &[("/r", 1), ("/r/a", 2)]);
    assert_eq!(cached.unwrap().scope, 2);
    assert_eq!(probed, ["/r/a/b", "/r/a"]);
    let (cached, probed) = settle(&mut v, &c, "/r/x", &[("/r", 1)]);
    assert_eq!(cached.unwrap().scope, 1);
    assert_eq!(probed, ["/r/x"]);
}

#[test]
fn root_config_dir_is_not_probed() {
    let mut v = visitor(Some("/r"));
    let (cached, probed) = settle(&mut v, &ctx(), "/r/a", &[("/r", 9)]);
    assert_eq!(cached.unwrap().scope, ROOT);
    assert_eq!(probed, ["/r/a"]);
    assert_eq!(settle(&mut v, &ctx(), "/r", &[("/r", 9)]).0.unwrap().scope, ROOT);
}

#[test]
fn search_goes_all_the_way_up() {
    let mut v = visitor(None);
    let (cached, probed) = settle(&mut v, &ctx(), "/top/r/a", &[("/top", 5)]);
    assert_eq!(cached.unwrap().scope, 5);
    assert_eq!(probed, ["/top/r/a", "/top/r", "/top"]);
    let (cached, probed) = settle(&mut v, &ctx(), "/other/a", &[("/top", 5)]);
    assert_eq!(cached.unwrap().scope, ROOT);
    assert_eq!(probed, ["/other/a", "/other", "/"]);
}

#[test]
fn config_above_a_start_counts_like_for_a_named_file() {
    let configs = [("/cwd/packages", 5)];
    let mut c = ctx();
    c.finish_load(&path("/cwd/packages"), Ok(Some(5)));
    let mut v = visitor(Some("/cwd"));
    let (cached, probed) = settle(&mut v, &c, "/cwd/packages/a/src", &configs);
    assert_eq!(cached.unwrap().scope, 5);
    assert_eq!(probed, ["/cwd/packages/a/src", "/cwd/packages/a"]);
    let probes: Vec<ConfigLoadResult> = vec![Ok(None), Ok(None), Ok(Some(5))];
    let named = resolve_file_scope_config(
        &path("/cwd/packages/a/src"),
        ROOT,
        &Some(path("/cwd")),
        &probes,
    );
    assert!(matches!(named, FileScopeStep::Resolved(5)));
}

#[test]
fn broken_config_fails_its_directory() {
    let mut v = visitor(None);
    let (cached, _) = settle(&mut v, &ctx(), "/r/a/b", &[("/r/a", 0)]);
    assert_eq!(cached, Err("broken /r/a".to_string()));
    assert_eq!(scope(&v, "/r/a/b"), None);
    assert_eq!(settle(&mut v, &ctx(), "/r/x", &[("/r/a", 0)]).0.unwrap().scope, ROOT);
}

#[test]
fn without_nesting_the_root_counts() {
    let mut v = WalkVisitor::new(false, ROOT, &None);
    let (cached, probed) = settle(&mut v, &ctx(), "/r/a", &[("/r/a", 2)]);
    assert_eq!(cached.unwrap(), CachedScope { scope: ROOT, ignored: false });
    assert!(probed.is_empty());
    assert_eq!(scope(&v, "/r"), None);
}

fn no_answers() -> VisitAnswers {
    VisitAnswers {
        parent_probe: None,
        globally_ignored: None,
        scope_failure: None,
        ignored: None,
        selected: None,
        classified: None,
        resolved: None,
        sent: None,
    }
}

fn file(text: &str) -> Option<WalkedEntry> {
    Some(WalkedEntry { path: path(text), kind: Some(FileKind::Regular) })
}

fn settled_visitor() -> WalkVisitor {
    let mut v = visitor(None);
    settle(&mut v, &ctx(), "/r/a", &[("/r/a", 7)]).0.unwrap();
    v
}

#[test]
fn visit_passes_over_what_is_no_file() {
    let v = settled_visitor();
    let none = collect_paths(&[]);
    let step = |entry: Option<WalkedEntry>| v.visit(&entry, &none, false, &ctx(), &no_answers());
    assert!(matches!(step(None), VisitStep::Finish(WalkState::Skip)));
    for kind in [None, Some(FileKind::Directory), Some(FileKind::Other)] {
        let entry = Some(WalkedEntry { path: path("/r/a/x"), kind });
        assert!(matches!(step(entry), VisitStep::Finish(WalkState::Continue)));
    }
}

#[test]
fn visit_passes_over_what_was_processed() {
    let v = settled_visitor();
    let processed = collect_paths(&[path("/r//a/x.js")]);
    let step = v.visit(&file("/r/a/x.js"), &processed, false, &ctx(), &no_answers());
    assert!(matches!(step, VisitStep::Finish(WalkState::Continue)));
}

#[test]
fn visit_hands_a_file_on() {
    let v = settled_visitor();
    let none = collect_paths(&[]);
    let c = ctx();
    let mut a = no_answers();
    let entry = file("/r/a/x.js");
    assert!(matches!(v.visit(&entry, &none, true, &c, &a), VisitStep::CheckIgnored(7)));
    a.ignored = Some(false);
    assert!(matches!(v.visit(&entry, &none, true, &c, &a), VisitStep::MatchGlobs));
    assert!(matches!(v.visit(&entry, &none, false, &c, &a), VisitStep::Classify));
    a.selected = Some(true);
    assert!(matches!(v.visit(&entry, &none, true, &c, &a), VisitStep::Classify));
    a.classified = Some(true);
    assert!(matches!(v.visit(&entry, &none, true, &c, &a), VisitStep::Resolve(7)));
    a.resolved = Some(Ok(ResolveOutcome::Format));
    assert!(matches!(v.visit(&entry, &none, true, &c, &a), VisitStep::Send));
    a.sent = Some(true);
    assert!(matches!(v.visit(&entry, &none, true, &c, &a), VisitStep::Finish(WalkState::Continue)));
    a.sent = Some(false);
    assert!(matches!(v.visit(&entry, &none, true, &c, &a), VisitStep::Finish(WalkState::Quit)));
}

#[test]
fn visit_keeps_files_back() {
    let v = settled_visitor();
    let none = collect_paths(&[]);
    let c = ctx();
    let entry = file("/r/a/x.js");
    let mut a = no_answers();
    a.ignored = Some(true);
    assert!(matches!(v.visit(&entry, &none, true, &c, &a), VisitStep::Finish(WalkState::Continue)));
    a.ignored = Some(false);
    a.selected = Some(false);
    assert!(matches!(v.visit(&entry, &none, true, &c, &a), VisitStep::Finish(WalkState::Continue)));
    a.selected = Some(true);
    a.classified = Some(false);
    assert!(matches!(v.visit(&entry, &none, true, &c, &a), VisitStep::Finish(WalkState::Continue)));
    a.classified = Some(true);
    a.resolved = Some(Ok(ResolveOutcome::MissingPlugin));
    assert!(matches!(v.visit(&entry, &none, true, &c, &a), VisitStep::Finish(WalkState::Continue)));
    a.resolved = Some(Err("bad".to_string()));
    assert!(matches!(v.visit(&entry, &none, true, &c, &a), VisitStep::Report(e) if e == "bad"));
}

#[test]
fn visit_obeys_an_ignored_directory() {
    let mut v = visitor(None);
    settle(&mut v, &ctx(), "/r/a/b", &[("/r/a", 2)]).0.unwrap();
    let step = v.visit(&file("/r/a/b/x.js"), &collect_paths(&[]), false, &ctx(), &no_answers());
    assert!(matches!(step, VisitStep::Finish(WalkState::Continue)));
}

#[test]
fn config_files_are_discovered_before_they_are_ignored() {
    let v = settled_visitor();
    let none = collect_paths(&[]);
    let c = ctx();
    let entry = file("/r/a/.oxfmtrc.json");
    let mut a = no_answers();
    assert!(matches!(v.visit(&entry, &none, false, &c, &a), VisitStep::ProbeParent));
    a.parent_probe = Some(Err("broken".to_string()));
    assert!(matches!(v.visit(&entry, &none, false, &c, &a), VisitStep::Fatal(e) if e == "broken"));
    a.parent_probe = Some(Ok(()));
    assert!(matches!(v.visit(&entry, &none, false, &c, &a), VisitStep::CheckGlobalIgnore));
    a.globally_ignored = Some(true);
    assert!(matches!(v.visit(&entry, &none, false, &c, &a), VisitStep::Finish(WalkState::Continue)));
    a.globally_ignored = Some(false);
    assert!(matches!(v.visit(&entry, &none, false, &c, &a), VisitStep::CheckIgnored(7)));
}

#[test]
fn unsettled_scope_is_settled_first() {
    let v = visitor(None);
    let none = collect_paths(&[]);
    let mut a = no_answers();
    assert!(matches!(v.visit(&file("/r/a/x.js"), &none, false, &ctx(), &a), VisitStep::EnsureScope));
    a.scope_failure = Some("broken".to_string());
    assert!(matches!(v.visit(&file("/r/a/x.js"), &none, false, &ctx(), &a), VisitStep::Fatal(e) if e == "broken"));
}

#[test]
fn the_first_fatal_error_counts() {
    let mut fatal = FatalError::new();
    fatal.record_fatal("first".to_string());
    fatal.record_fatal("second".to_string());
    assert_eq!(fatal.into_error().as_deref(), Some("first"));
    assert_eq!(FatalError::new().into_error(), None);
}

#[test]
fn resolve_errors_are_reported_with_help() {
    let report = report_resolve_error("/r/a/x.js", "bad option".to_string());
    assert_eq!(report.message, "Invalid resolved configuration for /r/a/x.js");
    assert_eq!(report.help, "bad option");
}

#[test]
fn hardcoded_directories_are_skipped() {
    for name in [".git", ".jj", ".sl", ".svn", ".hg"] {
        assert!(is_ignored_dir(name.as_bytes(), false));
        assert!(is_ignored_dir(name.as_bytes(), true));
    }
    assert!(is_ignored_dir(b"node_modules", false));
    assert!(!is_ignored_dir(b"node_modules", true));
    assert!(!is_ignored_dir(b"src", false));
    assert!(!is_ignored_dir(b".github", false));
    assert!(is_walk_excluded_dir(b"src", true, true));
    assert!(!is_walk_excluded_dir(b"src", true, false));
    assert!(is_walk_excluded_dir(b".git", true, false));
}

#[test]
fn entries_are_filtered() {
    let c = ctx();
    let step = |kind: Option<FileKind>, name: &str, ignored: Option<bool>| {
        filter_entry(kind, name.as_bytes(), &path("/r").join(name.as_bytes()), &c, false, ignored)
    };
    assert_eq!(step(None, "x", Some(false)), FilterStep::PassOver);
    assert_eq!(step(Some(FileKind::Directory), ".git", Some(false)), FilterStep::PassOver);
    assert_eq!(step(Some(FileKind::Directory), "node_modules", None), FilterStep::PassOver);
    assert_eq!(step(Some(FileKind::Directory), "src", None), FilterStep::CheckGlobalIgnore);
    assert_eq!(step(Some(FileKind::Directory), "src", Some(true)), FilterStep::PassOver);
    assert_eq!(step(Some(FileKind::Directory), "src", Some(false)), FilterStep::Enter);
    assert_eq!(step(Some(FileKind::Regular), "a.js", Some(true)), FilterStep::PassOver);
    assert_eq!(step(Some(FileKind::Other), "a.js", Some(false)), FilterStep::Enter);
    assert_eq!(step(Some(FileKind::Regular), ".oxfmtrc.json", Some(true)), FilterStep::Enter);
    assert_eq!(step(Some(FileKind::Directory), ".oxfmtrc.json", Some(true)), FilterStep::PassOver);
    assert_eq!(step(Some(FileKind::Regular), ".git", None), FilterStep::CheckGlobalIgnore);
}

fn no_file_answers() -> FileAnswers {
    FileAnswers {
        regular: None,
        scope_failure: None,
        ignored: None,
        classified: None,
        resolved: None,
        sent: None,
    }
}

#[test]
fn named_files_are_handed_on() {
    let mut files = DirectFiles::new(true, ROOT);
    let f = path("/r/a/x.js");
    let mut a = no_file_answers();
    assert!(matches!(files.process(&f, &a), FileStep::CheckRegular));
    a.regular = Some(false);
    assert!(matches!(files.process(&f, &a), FileStep::Next));
    a.regular = Some(true);
    assert!(matches!(files.process(&f, &a), FileStep::ResolveScope));
    a.scope_failure = Some("broken".to_string());
    assert!(matches!(files.process(&f, &a), FileStep::Abort(e) if e == "broken"));
    files.keep_scope(&f, 5);
    assert!(matches!(files.process(&f, &a), FileStep::CheckIgnored(5)));
    assert!(matches!(files.process(&path("/r/a/y.js"), &a), FileStep::CheckIgnored(5)));
    assert!(matches!(files.process(&path("/r/y.js"), &a), FileStep::Abort(_)));
    a.ignored = Some(true);
    assert!(matches!(files.process(&f, &a), FileStep::Next));
    a.ignored = Some(false);
    assert!(matches!(files.process(&f, &a), FileStep::Classify));
    a.classified = Some(false);
    assert!(matches!(files.process(&f, &a), FileStep::Next));
    a.classified = Some(true);
    assert!(matches!(files.process(&f, &a), FileStep::Resolve(5)));
    a.resolved = Some(Ok(ResolveOutcome::MissingPlugin));
    assert!(matches!(files.process(&f, &a), FileStep::Next));
    a.resolved = Some(Err("bad".to_string()));
    assert!(matches!(files.process(&f, &a), FileStep::Report(e) if e == "bad"));
    a.resolved = Some(Ok(ResolveOutcome::Format));
    assert!(matches!(files.process(&f, &a), FileStep::Send));
    a.sent = Some(false);
    assert!(matches!(files.process(&f, &a), FileStep::Stop));
    a.sent = Some(true);
    assert!(matches!(files.process(&f, &a), FileStep::Next));
    files.mark_processed(&f);
    let processed = files.into_processed();
    let v = settled_visitor();
    let step = v.visit(&file("/r/a/x.js"), &processed, false, &ctx(), &no_answers());
    assert!(matches!(step, VisitStep::Finish(WalkState::Continue)));
}

#[test]
fn named_files_fall_under_the_root_without_nesting() {
    let files = DirectFiles::new(false, ROOT);
    let mut a = no_file_answers();
    a.regular = Some(true);
    assert!(matches!(files.process(&path("/r/a/x.js"), &a), FileStep::CheckIgnored(ROOT)));
}

#[test]
fn named_files_get_their_nearest_config() {
    let parent = path("/r/a");
    let mut probes: Vec<ConfigLoadResult> = vec![];
    match resolve_file_scope_config(&parent, ROOT, &None, &probes) {
        FileScopeStep::Probe(dir) => assert_eq!(dir.as_bytes(), b"/r/a"),
        step => panic!("{step:?}"),
    }
    probes.push(Ok(None));
    match resolve_file_scope_config(&parent, ROOT, &None, &probes) {
        FileScopeStep::Probe(dir) => assert_eq!(dir.as_bytes(), b"/r"),
        step => panic!("{step:?}"),
    }
    assert!(matches!(resolve_file_scope_config(&parent, ROOT, &Some(path("/r/")), &probes), FileScopeStep::Resolved(ROOT)));
    probes.push(Ok(Some(4)));
    assert!(matches!(resolve_file_scope_config(&parent, ROOT, &None, &probes), FileScopeStep::Resolved(4)));
    probes[0] = Err("broken".to_string());
    assert!(matches!(resolve_file_scope_config(&parent, ROOT, &None, &probes), FileScopeStep::Failed(e) if e == "broken"));
    let probes: Vec<ConfigLoadResult> = vec![Ok(None), Ok(None), Ok(None)];
    assert!(matches!(resolve_file_scope_config(&parent, ROOT, &None, &probes), FileScopeStep::Resolved(ROOT)));
}
