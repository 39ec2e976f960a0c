use monat::config::Config;
use monat::config::HistFileLocation;
use monat::config::local_history_file;
use monat::histmanager::HistManager;
use monat::pathepitome::PathEpitome;
use monat::pathepitome::PathEpitomeParseError;
use monat::pathepitome::parse_paths;
use monat::pathepitome::simplify_relative_path;

fn local_config() -> Config {
    Config::new(true, false, false)
}

fn global_config() -> Config {
    Config::new(false, false, true)
}

fn empty_local_manager() -> HistManager {
    HistManager::new(local_config(), Vec::new())
}

#[test]
fn test_parse_path_str_wo_idx() {
    let path = ",/abc/def";
    if let Ok((idx, suffix_str)) = PathEpitome::parse_path_str(&path) {
        assert_eq!(idx, 0);
        assert_eq!(suffix_str, "abc/def");
    } else {
        assert!(false, "Error parsing {}", path);
    }
}

#[test]
fn test_parse_path_str_w_idx() {
    let path = ",1/abc/def";
    if let Ok((idx, suffix_str)) = PathEpitome::parse_path_str(&path) {
        assert_eq!(idx, 1);
        assert_eq!(suffix_str, "abc/def");
    } else {
        assert!(false, "Error parsing {}", path);
    }
}

#[test]
fn test_parse_path_str_error() {
    let path = ",abc/def";
    if let Err(PathEpitomeParseError::SyntaxError(msg)) = PathEpitome::parse_path_str(&path) {
        assert_eq!(msg, "A slash (/) is expected after comma expression");
    } else {
        assert!(
            false,
            "Should raise 'PathEpitomeParseError::SyntaxError' when parsing {}",
            path
        );
    }
}

#[test]
fn test_parse_default_index() {
    let parsed = PathEpitome::parse_path_str(",/foo").unwrap();
    assert_eq!(parsed.0, 0);
    assert_eq!(parsed.1, "foo");
}

#[test]
fn test_parse_no_suffix() {
    let parsed = PathEpitome::parse_path_str(",7").unwrap();
    assert_eq!(parsed.0, 7);
    assert_eq!(parsed.1, "");
    let parsed = PathEpitome::parse_path_str(",").unwrap();
    assert_eq!(parsed.0, 0);
    assert_eq!(parsed.1, "");
}

#[test]
fn test_parse_empty_suffix_after_slash() {
    let parsed = PathEpitome::parse_path_str(",12/").unwrap();
    assert_eq!(parsed.0, 12);
    assert_eq!(parsed.1, "");
}

#[test]
fn test_fifo_bound() {
    let mut manager = empty_local_manager();
    let mut inserted: Vec<String> = Vec::new();
    for i in 0..10 {
        let record = format!("prefix{}", i);
        inserted.push(record.clone());
        manager.add_if_nonexists(record);
    }
    let saved = manager.save().expect("a dirty cache saves its records");
    // The bound is 9: of the 10 distinct prefixes the oldest is discarded.
    assert_eq!(saved.len(), 9);
    for i in 0..9 {
        assert_eq!(saved[i], inserted[i + 1]);
    }
    assert_eq!(manager.get(1), Some("prefix9".to_string()));
    assert_eq!(manager.get(9), Some("prefix1".to_string()));
    assert_eq!(manager.get(10), None);
}

#[test]
fn test_deduplication() {
    let mut manager = empty_local_manager();
    manager.add_if_nonexists("proj/src".to_string());
    manager.add_if_nonexists("proj/src".to_string());
    assert_eq!(manager.len(), 1);
    assert_eq!(manager.get(1), Some("proj/src".to_string()));
    assert_eq!(manager.get(2), None);
    // The first save writes; inserting the same record again does not make
    // the cache dirty, so a further save is a no-op.
    assert!(manager.save().is_some());
    manager.add_if_nonexists("proj/src".to_string());
    assert!(manager.save().is_none());
}

#[test]
fn test_blank_record_rejected() {
    let mut manager = empty_local_manager();
    manager.add_if_nonexists("".to_string());
    manager.add_if_nonexists("  \t".to_string());
    assert_eq!(manager.len(), 0);
    assert!(manager.save().is_none());
}

#[test]
fn test_recency_indexing() {
    let mut manager = empty_local_manager();
    manager.add_if_nonexists("a".to_string());
    manager.add_if_nonexists("b".to_string());
    manager.add_if_nonexists("c".to_string());
    assert_eq!(manager.get(1), Some("c".to_string()));
    assert_eq!(manager.get(2), Some("b".to_string()));
    assert_eq!(manager.get(3), Some("a".to_string()));
    assert_eq!(manager.get(4), None);
}

#[test]
fn test_idempotent_save() {
    let mut manager = empty_local_manager();
    manager.add_if_nonexists("docs".to_string());
    assert_eq!(manager.save(), Some(vec!["docs".to_string()]));
    assert_eq!(manager.save(), None);
}

#[test]
fn test_save_without_location_writes_nothing() {
    let conf = Config::new(false, false, false);
    assert_eq!(conf.hist_location, HistFileLocation::Neither);
    let mut manager = HistManager::new(conf, Vec::new());
    manager.add_if_nonexists("docs".to_string());
    assert_eq!(manager.save(), None);
}

#[test]
fn test_index_zero_unset() {
    // Empty cache, former-prefix register never set: index 0 is out of range.
    let mut manager = empty_local_manager();
    match PathEpitome::new(",/docs", &mut manager, "/home/u") {
        Err(PathEpitomeParseError::IndexOutOfRangeError(i)) => assert_eq!(i, 0),
        _ => assert!(false, "index 0 must be out of range while the register is unset"),
    }
}

#[test]
fn test_index_zero_empty_register() {
    // With the register set (even to an empty prefix) the same expression
    // resolves against it.
    let mut manager = empty_local_manager();
    manager.set_former_prefix(String::new());
    let e = PathEpitome::new(",/docs", &mut manager, "/home/u").unwrap();
    assert_eq!(e.get_path("/home/u"), "/home/u/docs");
}

#[test]
fn test_resolve_history_reference() {
    let conf = local_config();
    let manager_records = vec!["/home/u/proj".to_string()];
    let mut manager = HistManager::new(conf, manager_records);
    let e = PathEpitome::new(",1/readme.md", &mut manager, "/home/u").unwrap();
    assert_eq!(e.get_path("/home/u"), "/home/u/proj/readme.md");
    assert_eq!(e.prefix(), "/home/u/proj");
}

#[test]
fn test_index_out_of_range() {
    let conf = local_config();
    let records = vec!["one".to_string(), "two".to_string()];
    let mut manager = HistManager::new(conf, records);
    match PathEpitome::new(",5/x", &mut manager, "/home/u") {
        Err(PathEpitomeParseError::IndexOutOfRangeError(i)) => assert_eq!(i, 5),
        _ => assert!(false, "an index past the records must be out of range"),
    }
}

#[test]
fn test_literal_path_local_mode() {
    let mut manager = empty_local_manager();
    let e = PathEpitome::new("src/lib.rs", &mut manager, "/home/u/proj").unwrap();
    assert_eq!(e.get_path("/home/u/proj"), "/home/u/proj/src/lib.rs");
    // Project-local personality: the prefix is recorded relative to the
    // current working directory.
    assert_eq!(manager.get(1), Some("src".to_string()));
}

#[test]
fn test_literal_path_global_mode() {
    let mut manager = HistManager::new(global_config(), Vec::new());
    let e = PathEpitome::new("src/lib.rs", &mut manager, "/home/u/proj").unwrap();
    assert_eq!(e.get_path("/home/u/proj"), "/home/u/proj/src/lib.rs");
    // User-global personality: the resolver leaves the insertion to the
    // caller, which resolves the record against the real filesystem.
    assert_eq!(manager.len(), 0);
    let record = e.prefix_record("/home/u/proj");
    assert_eq!(record, "src");
    let query = manager.canonical_query(&record);
    assert_eq!(query, Some("src".to_string()));
    // The caller's filesystem resolution of "src" from /home/u/proj:
    manager.add_canonical("/home/u/proj/src".to_string());
    assert_eq!(manager.get(1), Some("/home/u/proj/src".to_string()));
}

#[test]
fn test_canonical_query_substitutes_dot() {
    let manager = HistManager::new(global_config(), Vec::new());
    assert_eq!(manager.canonical_query(&String::new()), Some(".".to_string()));
    let local = empty_local_manager();
    assert_eq!(local.canonical_query(&String::new()), None);
}

#[test]
fn test_dot_resolution() {
    // The composed path really resolves `..` components: the wrapper does not
    // hand its argument back unchanged.
    let mut manager = empty_local_manager();
    let e = PathEpitome::new("a/../b", &mut manager, "/x").unwrap();
    assert_eq!(e.get_path("/x"), "/x/b");
}

#[test]
fn test_simplify_relative_path() {
    assert_eq!(simplify_relative_path("src", "/home/u/proj"), "src");
    assert_eq!(simplify_relative_path("/home/u/proj/src", "/home/u/proj"), "src");
    assert_eq!(simplify_relative_path(".", "/home/u/proj"), "");
    // A prefix outside the working directory stays absolute.
    assert_eq!(simplify_relative_path("/etc", "/home/u/proj"), "/etc");
}

#[test]
fn test_parse_paths_two_expressions() {
    let mut manager = empty_local_manager();
    let paths = parse_paths(
        &mut manager,
        Some("src/lib.rs".to_string()),
        Some(",0/readme.md".to_string()),
        "/home/u/proj",
    )
    .unwrap();
    assert_eq!(paths, vec![
        "/home/u/proj/src/lib.rs".to_string(),
        "/home/u/proj/src/readme.md".to_string(),
    ]);
    // The prefix was recorded once; the second expression reused it.
    assert_eq!(manager.len(), 1);
    assert_eq!(manager.get(1), Some("src".to_string()));
}

#[test]
fn test_parse_paths_error_propagates() {
    let mut manager = empty_local_manager();
    match parse_paths(&mut manager, Some(",9/x".to_string()), None, "/home/u") {
        Err(PathEpitomeParseError::IndexOutOfRangeError(i)) => assert_eq!(i, 9),
        _ => assert!(false, "the first failure must surface"),
    }
}

#[test]
fn test_config_selection() {
    assert_eq!(Config::new(true, false, false).hist_location, HistFileLocation::Local);
    assert_eq!(Config::new(false, true, true).hist_location, HistFileLocation::Local);
    assert_eq!(Config::new(false, false, true).hist_location, HistFileLocation::Home);
    assert_eq!(Config::new(false, false, false).hist_location, HistFileLocation::Neither);
    assert_eq!(Config::new(true, false, false).max_records_num, 9);
    assert!(Config::new(true, false, false).use_local());
    assert!(!Config::new(false, false, true).use_local());
    let default = Config::default();
    assert_eq!(default.max_records_num, 9);
    assert_eq!(default.hist_location, HistFileLocation::Home);
}

#[test]
fn test_local_history_file() {
    assert_eq!(local_history_file(), "./.monat/history");
}

#[test]
fn test_load_history_records() {
    let conf = local_config();
    let records = conf.load_history_records("a\n\n  \t\nb\r\nc");
    assert_eq!(records, vec!["a".to_string(), "b".to_string(), "c".to_string()]);
    let empty = conf.load_history_records("");
    assert_eq!(empty.len(), 0);
}

#[test]
fn test_save_history_records_round_trip() {
    let conf = local_config();
    let records = vec!["a".to_string(), "b/c".to_string()];
    let content = conf.save_history_records(&records);
    assert_eq!(content, "a\nb/c\n");
    assert_eq!(conf.load_history_records(&content), records);
    let none: Vec<String> = Vec::new();
    assert_eq!(conf.save_history_records(&none), "\n");
}

#[test]
fn test_pretty_lines() {
    let mut manager = empty_local_manager();
    assert_eq!(manager.pretty_lines(), vec!["[No history]".to_string()]);
    for i in 0..12 {
        manager.add_if_nonexists(format!("p{}", i));
    }
    let lines = manager.pretty_lines();
    assert_eq!(lines.len(), 12);
    assert_eq!(lines[0], "1 -- p0");
    assert_eq!(lines[9], "10 -- p9");
    assert_eq!(lines[11], "12 -- p11");
}

#[test]
fn test_history_reference_extends_recency() {
    // Resolving a history reference re-records the prefix it used, so a chain
    // of references keeps extending the recency list.
    let conf = local_config();
    let records = vec!["deep/dir".to_string(), "other".to_string()];
    let mut manager = HistManager::new(conf, records);
    let e = PathEpitome::new(",2/file", &mut manager, "/w").unwrap();
    assert_eq!(e.get_path("/w"), "/w/deep/dir/file");
    // "deep/dir" was already present: nothing inserted twice.
    assert_eq!(manager.len(), 2);
    assert_eq!(manager.get(1), Some("other".to_string()));
}
