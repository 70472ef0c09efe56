use shitview::indexer::{
    buffered_change, change_depth, completion_phase, database_file_name, event_kind_name, fnv1a64, ignore_scope_dirs, ignored, ignores,
    order_entries, pending_from_task, progress_report, project_key, promote_in_memory, record_for_path, relative_below,
    strip_bom,
    watch_command, watch_plan, ChangeKind, DirectoryResult, DirectoryTask, IgnoreMatch, IndexCommand, IndexOptions,
    IndexPath, IndexPhase, PathFacts, ScanAction, ScanOutcome, ScanScheduler, WatchAction, WatchStep,
};
use shitview::models::NodeKind;
use shitview::scanner::FsEntry;

fn path(text: &str) -> IndexPath {
    let components = text.split('/').filter(|c| !c.is_empty()).map(|c| c.as_bytes().to_vec()).collect();
    IndexPath::from_parts(text, components)
}

fn task(text: &str, priority: i64) -> DirectoryTask {
    DirectoryTask { path: path(text), path_key: text.as_bytes().to_vec(), depth: text.matches('/').count(), priority }
}

fn keys(tasks: &[DirectoryTask]) -> Vec<String> {
    tasks.iter().map(|t| t.path.display.clone()).collect()
}

#[test]
fn database_path_is_stable_for_a_project() {
    let key = b"H:/project".to_vec();
    assert_eq!(database_file_name(&key), database_file_name(&key));
    assert_ne!(fnv1a64(b"a"), fnv1a64(b"b"));
}

#[test]
fn fnv1a64_matches_the_reference_values() {
    assert_eq!(fnv1a64(b""), 0xcbf29ce484222325);
    assert_eq!(fnv1a64(b"a"), 0xaf63dc4c8601ec8c);
    assert_eq!(fnv1a64(b"foobar"), 0x85944171f73967e8);
}

#[test]
fn database_file_names_are_sixteen_hex_digits() {
    assert_eq!(database_file_name(b""), "cbf29ce484222325.sqlite3");
    assert_eq!(database_file_name(b"a"), "af63dc4c8601ec8c.sqlite3");
    let name = database_file_name(b"H:/project");
    assert_eq!(name.len(), 16 + ".sqlite3".len());
}

#[test]
fn default_options_follow_the_machine() {
    let o = IndexOptions::from_parallelism(Some(8));
    assert_eq!((o.worker_count, o.queue_capacity, o.visible_node_limit, o.watch), (8, 32, 10_000, true));
    assert_eq!(IndexOptions::from_parallelism(None).worker_count, 4);
    assert_eq!(IndexOptions::from_parallelism(Some(1)).worker_count, 2);
    assert_eq!(IndexOptions::from_parallelism(Some(64)).worker_count, 16);
    assert_eq!(IndexOptions::from_parallelism(Some(64)).queue_capacity, 64);
}

#[test]
fn progress_reports_and_completion_phases() {
    let p = progress_report(IndexPhase::Scanning, 3, Some((10, 2, 5)), true);
    assert_eq!((p.indexed_nodes, p.issue_count, p.pending_directories, p.generation, p.resumed), (10, 2, 5, 3, true));
    let q = progress_report(IndexPhase::Paused, 1, None, false);
    assert_eq!((q.indexed_nodes, q.issue_count, q.pending_directories), (0, 0, 0));
    assert_eq!(completion_phase(0), IndexPhase::Complete);
    assert_eq!(completion_phase(4), IndexPhase::CompleteWithWarnings);
}

#[test]
fn project_keys_fold_case_only_when_asked() {
    assert_eq!(project_key(r"\\?\H:\Project\Ä", true), "h:/project/ä");
    assert_eq!(project_key(r"\\?\H:\Project", false), "H:/Project");
}

#[test]
fn change_kinds_have_buffer_names() {
    assert_eq!(event_kind_name(ChangeKind::Create), "create");
    assert_eq!(event_kind_name(ChangeKind::RenameBoth), "rename");
    assert_eq!(event_kind_name(ChangeKind::Rename), "rename");
    assert_eq!(event_kind_name(ChangeKind::Modify), "modify");
    assert_eq!(event_kind_name(ChangeKind::Remove), "remove");
    assert_eq!(event_kind_name(ChangeKind::Access), "access");
    assert_eq!(event_kind_name(ChangeKind::Any), "any");
    assert_eq!(event_kind_name(ChangeKind::Other), "other");
    let b = buffered_change(ChangeKind::RenameBoth, &vec![r"H:\a".to_owned(), r"H:\b".to_owned()]);
    assert_eq!((b.kind, b.primary.as_str(), b.secondary.as_deref()), ("rename", "H:/a", Some("H:/b")));
    let e = buffered_change(ChangeKind::Create, &vec![]);
    assert_eq!((e.primary.as_str(), e.secondary), ("", None));
}

#[test]
fn watched_changes_become_steps() {
    assert_eq!(watch_plan(ChangeKind::Create, 0), vec![]);
    assert_eq!(watch_plan(ChangeKind::RenameBoth, 2), vec![WatchStep::Delete(0), WatchStep::Upsert(1)]);
    assert_eq!(watch_plan(ChangeKind::RenameBoth, 1), vec![WatchStep::UpsertIfExists(0)]);
    assert_eq!(watch_plan(ChangeKind::Remove, 2), vec![WatchStep::Delete(0), WatchStep::Delete(1)]);
    assert_eq!(watch_plan(ChangeKind::Access, 3), vec![]);
    assert_eq!(
        watch_plan(ChangeKind::Modify, 2),
        vec![WatchStep::UpsertIfExists(0), WatchStep::UpsertIfExists(1)]
    );
}

#[test]
fn changed_paths_outside_the_root_or_in_tool_folders_are_skipped() {
    let root = path("/home/me/project");
    assert_eq!(change_depth(&root, &path("/home/me/project/src/main.rs")), Some(2));
    assert_eq!(change_depth(&root, &path("/home/me/project")), Some(0));
    assert_eq!(change_depth(&root, &path("/home/me/other/x")), None);
    assert_eq!(change_depth(&root, &path("/home/me/project/.git/HEAD")), None);
    assert_eq!(change_depth(&root, &path("/home/me/project/a/.shitview/layout.json")), None);
    assert_eq!(change_depth(&root, &path("/home/me/projectx/a")), None);
}

#[test]
fn commands_while_watching() {
    assert_eq!(watch_command(&IndexCommand::Shutdown, true), WatchAction::Stop);
    assert_eq!(watch_command(&IndexCommand::Cancel, false), WatchAction::Stop);
    assert_eq!(watch_command(&IndexCommand::Pause, true), WatchAction::PauseWatcher);
    assert_eq!(watch_command(&IndexCommand::Resume, false), WatchAction::ResumeWatcher);
    assert_eq!(watch_command(&IndexCommand::Resume, true), WatchAction::Ignore);
    assert_eq!(watch_command(&IndexCommand::Prioritize(path("/x")), true), WatchAction::Ignore);
}

#[test]
fn ignore_files_later_override_earlier_and_tool_folders_are_always_out() {
    assert!(!ignored(false, Some("src"), &vec![]));
    assert!(ignored(false, Some("target"), &vec![IgnoreMatch::Ignore]));
    assert!(!ignored(false, Some("keep"), &vec![IgnoreMatch::Ignore, IgnoreMatch::Whitelist]));
    assert!(ignored(false, Some("x"), &vec![IgnoreMatch::Whitelist, IgnoreMatch::Ignore, IgnoreMatch::Unmatched]));
    assert!(ignored(false, Some(".git"), &vec![IgnoreMatch::Whitelist]));
    assert!(ignored(false, Some(".shitview"), &vec![]));
    assert!(!ignored(true, Some(".git"), &vec![]));
}

#[test]
fn records_take_names_sizes_and_kinds() {
    let facts = PathFacts { is_symlink: false, is_dir: false, is_file: true, len: 12, modified_ns: Some(5), stable_id: Some(vec![1, 2]) };
    let r = record_for_path(b"k".to_vec(), Some(b"p".to_vec()), r"H:\p\main.rs", Some("main.rs"), 2, &facts);
    assert_eq!((r.display_path.as_str(), r.display_name.as_str(), r.kind, r.depth, r.size_bytes), ("H:/p/main.rs", "main.rs", NodeKind::File, 2, 12));
    assert_eq!((r.modified_ns, r.stable_id.clone()), (Some(5), Some(vec![1, 2])));
    let dir = PathFacts { is_symlink: false, is_dir: true, is_file: false, len: 4096, modified_ns: None, stable_id: None };
    let d = record_for_path(b"/".to_vec(), None, "/", None, 0, &dir);
    assert_eq!((d.display_name.as_str(), d.kind, d.size_bytes), ("/", NodeKind::Directory, 0));
    let link = PathFacts { is_symlink: true, is_dir: true, is_file: false, len: 0, modified_ns: None, stable_id: None };
    assert_eq!(record_for_path(vec![], None, "l", Some(""), 1, &link).kind, NodeKind::Symlink);
    assert_eq!(record_for_path(vec![], None, "l", Some(""), 1, &link).display_name, "l");
}

#[test]
fn directory_entries_are_ordered_and_collected() {
    let entry = |handle: usize, name: &str| FsEntry { handle, path: format!("/r/{name}"), name: Some(name.to_owned()), sort_name: name.to_owned() };
    let listing = vec![Ok(entry(1, "b")), Err("bad".to_owned()), Ok(entry(2, "A")), Ok(entry(3, ".git"))];
    let ordered: Vec<usize> = order_entries(&listing).iter().map(|e| e.handle).collect();
    assert_eq!(ordered, vec![3, 2, 1]);

    let mut result = DirectoryResult::new();
    result.note_listing_errors("/r", &listing);
    assert_eq!(result.issues.len(), 1);
    assert_eq!((result.issues[0].path.as_str(), result.issues[0].operation.as_str(), result.issues[0].message.as_str()), ("/r", "read_entry", "bad"));
    let dir = PathFacts { is_symlink: false, is_dir: true, is_file: false, len: 0, modified_ns: None, stable_id: None };
    let rec = record_for_path(b"/r/A".to_vec(), Some(b"/r".to_vec()), "/r/A", Some("A"), 1, &dir);
    result.add_entry(rec, path("/r/A"), false);
    let rec = record_for_path(b"/r/.git".to_vec(), Some(b"/r".to_vec()), "/r/.git", Some(".git"), 1, &dir);
    result.add_entry(rec, path("/r/.git"), true);
    assert_eq!(result.records.len(), 1);
    assert_eq!(result.directories.len(), 1);
    assert_eq!((result.directories[0].depth, result.directories[0].priority), (1, 0));
    result.note_issue("/r/x", "metadata", "gone");
    assert_eq!(result.issues[1].operation, "metadata");
}

#[test]
fn a_fresh_scan_starts_from_the_root_and_hands_out_work_in_order() {
    let (mut s, pending) = ScanScheduler::new(2, vec![], task("/p", 0));
    assert_eq!(pending.len(), 1);
    assert_eq!(pending[0].display_path, "/p");
    let root = s.next_task().unwrap();
    s.task_sent();
    assert!(s.next_task().is_none());
    assert!(!s.is_finished());
    let pending = s.on_result(&root.path_key, vec![task("/p/a", 7), task("/p/b", 0), task("/p/a", 0)]);
    assert_eq!(pending.iter().map(|p| p.display_path.clone()).collect::<Vec<_>>(), vec!["/p/a", "/p/b"]);
    assert!(pending.iter().all(|p| p.priority == 0));
    let a = s.next_task().unwrap();
    s.task_sent();
    let b = s.next_task().unwrap();
    s.task_sent();
    assert_eq!((a.path.display.as_str(), b.path.display.as_str()), ("/p/a", "/p/b"));
    assert!(s.next_task().is_none());
    assert!(s.on_result(&a.path_key, vec![task("/p/b", 0)]).is_empty());
    s.on_result(&b.path_key, vec![]);
    assert!(s.is_finished());
}

#[test]
fn a_resumed_scan_puts_prioritized_directories_first() {
    let (mut s, pending) = ScanScheduler::new(0, vec![task("/p/x", 0), task("/p/y", 100), task("/p/z", 0)], task("/p", 0));
    assert!(pending.is_empty());
    let first = s.next_task().unwrap();
    assert_eq!(first.path.display, "/p/y");
    s.task_sent();
    assert!(s.next_task().is_none());
}

#[test]
fn pause_resume_cancel_and_prioritize_while_scanning() {
    let (mut s, _) = ScanScheduler::new(4, vec![task("/p/a", 0), task("/p/b/c", 0), task("/p/d", 0)], task("/p", 0));
    assert!(matches!(s.on_command(IndexCommand::Pause), ScanAction::Paused));
    assert!(s.next_task().is_none());
    assert!(matches!(s.on_command(IndexCommand::Resume), ScanAction::Resumed));
    match s.on_command(IndexCommand::Prioritize(path("/p/b"))) {
        ScanAction::Prioritized(display) => assert_eq!(display, "/p/b"),
        _ => panic!("expected a prioritized path"),
    }
    let next = s.next_task().unwrap();
    assert_eq!((next.path.display.as_str(), next.priority), ("/p/b/c", 100));
    assert!(matches!(s.on_command(IndexCommand::Cancel), ScanAction::Finish(ScanOutcome::Cancelled)));
    assert!(matches!(s.on_command(IndexCommand::Shutdown), ScanAction::Finish(ScanOutcome::Shutdown)));
}

#[test]
fn promotion_moves_related_directories_and_keeps_the_rest() {
    let mut high = vec![task("/h", 100)];
    let mut normal = vec![task("/p/a", 0), task("/p/ab", 0), task("/p", 0), task("/q", 0), task("/p/a/deep", 0)];
    promote_in_memory(&path("/p/a"), &mut high, &mut normal);
    assert_eq!(keys(&high), vec!["/h", "/p/a", "/p", "/p/a/deep"]);
    assert!(high[1..].iter().all(|t| t.priority == 100));
    assert_eq!(keys(&normal), vec!["/p/ab", "/q"]);
}

#[test]
fn pending_rows_copy_the_task() {
    let t = DirectoryTask { path: path(r"\\?\C:\x"), path_key: vec![9, 9], depth: 3, priority: -1 };
    let p = pending_from_task(&t);
    assert_eq!((p.path_key, p.display_path.as_str(), p.depth, p.priority), (vec![9, 9], "C:/x", 3, -1));
}

#[test]
fn gitignore_rules_decide_which_entries_are_left_out() {
    let scopes = vec![("/p".to_owned(), "ignored/\n*.log\n!keep.log\n".to_owned())];
    assert!(ignores("/p", &scopes, None, "/p/ignored", Some("ignored"), true));
    assert!(!ignores("/p", &scopes, None, "/p/ignored", Some("ignored"), false));
    assert!(ignores("/p", &scopes, None, "/p/ignored/large.bin", Some("large.bin"), false));
    assert!(ignores("/p", &scopes, None, "/p/src/x.log", Some("x.log"), false));
    assert!(!ignores("/p", &scopes, None, "/p/src/keep.log", Some("keep.log"), false));
    assert!(!ignores("/p", &scopes, None, "/p/src/main.rs", Some("main.rs"), false));
    assert!(ignores("/p", &vec![], None, "/p/.git", Some(".git"), true));
}

#[test]
fn nested_and_project_ignore_files_override_in_order() {
    let scopes = vec![
        ("/p".to_owned(), "*.tmp\n".to_owned()),
        ("/p/sub".to_owned(), "\u{feff}!a.tmp\n/only-here\n".to_owned()),
    ];
    assert!(!ignores("/p", &scopes, None, "/p/sub/a.tmp", Some("a.tmp"), false));
    assert!(ignores("/p", &scopes, None, "/p/sub/b.tmp", Some("b.tmp"), false));
    assert!(ignores("/p", &scopes, None, "/p/sub/only-here", Some("only-here"), false));
    assert!(ignores("/p", &scopes, Some("a.tmp\n"), "/p/sub/a.tmp", Some("a.tmp"), false));
}

#[test]
fn paths_below_a_root_and_byte_order_marks() {
    assert_eq!(relative_below("/p", "/p/a/b"), Some("a/b".to_owned()));
    assert_eq!(relative_below(r"C:\p", r"C:\p\a"), Some("a".to_owned()));
    assert_eq!(relative_below("/p", "/pa/b"), None);
    assert_eq!(relative_below("/p", "/p"), None);
    assert_eq!(relative_below("/p", "/p//a"), None);
    assert_eq!(strip_bom("\u{feff}\u{feff}x\u{feff}"), "x\u{feff}");
    assert_eq!(strip_bom("plain"), "plain");
}

#[test]
fn rests_the_matcher_would_misread_are_not_below_the_root() {
    assert_eq!(relative_below("/p", "/p/./x"), None);
    assert_eq!(relative_below("a", "a/a//b"), None);
    assert_eq!(relative_below("/p", "/p/C:/x"), None);
    assert_eq!(relative_below("/p", "/p/C:x"), Some("C:x".to_owned()));
    assert_eq!(relative_below(".", "./.hidden"), Some(".hidden".to_owned()));
    assert_eq!(relative_below("./a", "./a/a/b"), None);
    assert_eq!(relative_below("./a", "./a/b"), Some("b".to_owned()));
}

#[test]
fn a_pause_holds_through_other_commands_and_results_until_a_resume() {
    let (mut s, _) = ScanScheduler::new(4, vec![task("/p/a", 0), task("/p/b", 0)], task("/p", 0));
    assert!(matches!(s.on_command(IndexCommand::Pause), ScanAction::Paused));
    s.on_command(IndexCommand::Prioritize(path("/p/b")));
    assert!(s.next_task().is_none());
    s.on_result(&vec![1], vec![task("/p/new", 0)]);
    assert!(s.next_task().is_none());
    assert!(!s.is_finished());
    s.on_command(IndexCommand::Pause);
    assert!(s.next_task().is_none());
    assert!(matches!(s.on_command(IndexCommand::Resume), ScanAction::Resumed));
    assert_eq!(s.next_task().unwrap().priority, 100);
}

#[test]
fn ignore_files_apply_from_the_project_root_down() {
    assert_eq!(ignore_scope_dirs("/p", "/p/a/b"), vec!["/p", "/p/a", "/p/a/b"]);
    assert_eq!(ignore_scope_dirs("/p", "/p"), vec!["/p"]);
    assert_eq!(ignore_scope_dirs(r"C:\p", r"C:\p\a\b"), vec![r"C:\p", r"C:\p\a", r"C:\p\a\b"]);
    assert_eq!(ignore_scope_dirs("/", "/etc/x"), vec!["/", "/etc", "/etc/x"]);
    assert!(ignore_scope_dirs("/p", "/q/a").is_empty());
    assert!(ignore_scope_dirs("/p", "/pa").is_empty());
}

#[test]
fn roots_that_end_in_a_separator_hold_their_entries() {
    assert_eq!(relative_below("/", "/etc"), Some("etc".to_owned()));
    assert_eq!(relative_below(r"C:\", r"C:\x"), Some("x".to_owned()));
    assert_eq!(relative_below("/", "//etc"), None);
    let scopes = vec![("/".to_owned(), "*.log\n".to_owned())];
    assert!(ignores("/", &scopes, None, "/x.log", Some("x.log"), false));
    assert!(!ignores("/", &scopes, None, "/x.txt", Some("x.txt"), false));
}

#[test]
fn without_ignore_files_only_repository_folders_are_left_out() {
    assert!(ignores("/p", &vec![], None, "/elsewhere/.git", Some(".git"), true));
    assert!(!ignores("/p", &vec![], None, "/elsewhere/src", Some("src"), true));
    assert!(!ignores("/p/.git", &vec![], None, "/p/.git", Some(".git"), true));
}
