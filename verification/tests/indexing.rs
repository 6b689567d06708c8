use laputa::indexing::{
    clear_qmd_cache, find_qmd_binary, find_qmd_binary_uncached, first_present, QmdSearch,
    SearchEvent, qmd_bundle_dir, qmd_dev_dir, qmd_from_which,
    qmd_in, qmd_system_candidates, QmdBinary, QmdCache,
};
use laputa::status::{
    check_index_status, extract_count_from_line, extract_first_number, parse_indexed_count,
    parse_status_for_vault, vault_dir_name,
};
use laputa::tasks::{
    ensure_collection, run_full_index, run_incremental_update, CollectionStep, CommandOutcome,
    FullIndexStep, QmdEvent, UpdateStep,
};

#[test]
fn vault_dir_name_extracts_last_segment() {
    assert_eq!(vault_dir_name("/Users/luca/Laputa"), "laputa");
    assert_eq!(vault_dir_name("/home/user/MyVault"), "myvault");
}

#[test]
fn vault_dir_name_fallback() {
    assert_eq!(vault_dir_name(""), "laputa");
}

#[test]
fn extract_first_number_works() {
    assert_eq!(
        extract_first_number("Total: 9078 files indexed"),
        Some(9078)
    );
    assert_eq!(extract_first_number("Vectors: 14676 embedded"), Some(14676));
    assert_eq!(extract_first_number("no numbers here"), None);
}

#[test]
fn parse_status_finds_collection() {
    let status = r#"
QMD Status

Index: /Users/luca/.cache/qmd/index.sqlite
Size:  100.9 MB

Documents
  Total:    9115 files indexed
  Vectors:  14676 embedded
  Pending:  26 need embedding

Collections
  laputa (qmd://laputa/)
    Pattern:  **/*.md
    Files:    9078 (updated 20d ago)
"#;
    let result = parse_status_for_vault(status, "laputa");
    assert!(result.collection_exists);
    assert_eq!(result.indexed_count, 9078);
    assert_eq!(result.embedded_count, 14676);
    assert_eq!(result.pending_embed, 26);
}

#[test]
fn parse_status_missing_collection() {
    let status = r#"
QMD Status

Documents
  Total:    100 files indexed
  Vectors:  50 embedded
  Pending:  0

Collections
  other (qmd://other/)
    Files:    100
"#;
    let result = parse_status_for_vault(status, "laputa");
    assert!(!result.collection_exists);
}

#[test]
fn extract_count_from_line_works() {
    assert_eq!(
        extract_count_from_line("Files:    9078 (updated 20d ago)", "Files:"),
        Some(9078)
    );
    assert_eq!(extract_count_from_line("Pattern:  **/*.md", "Files:"), None);
}

#[test]
fn parse_indexed_count_from_output() {
    assert_eq!(parse_indexed_count("Indexed 342 files in 1.2s"), 342);
    assert_eq!(parse_indexed_count("No output"), 0);
}

// ---------------------------------------------------------------------------
// Further cases
// ---------------------------------------------------------------------------

#[test]
fn vault_dir_name_ignores_trailing_separators_and_dots() {
    assert_eq!(vault_dir_name("/home/user/Notes/"), "notes");
    assert_eq!(vault_dir_name("/home/user/Notes/."), "notes");
    assert_eq!(vault_dir_name("/"), "laputa");
    assert_eq!(vault_dir_name("/home/user/.."), "laputa");
}

#[test]
fn extract_first_number_edge_cases() {
    assert_eq!(extract_first_number("count +7 here"), Some(7));
    assert_eq!(extract_first_number("+ -3 12"), Some(12));
    assert_eq!(extract_first_number("99999999999999999999999 5"), Some(5));
    assert_eq!(extract_first_number("1.5 2"), Some(2));
    assert_eq!(extract_first_number("\u{3000}42\u{a0}"), Some(42));
    assert_eq!(extract_first_number(""), None);
}

#[test]
fn parse_status_total_used_when_collection_has_no_file_count() {
    let status = "Total: 120 files\nVectors: 0\nCollections\n  laputa (qmd://laputa/)\n";
    let result = parse_status_for_vault(status, "laputa");
    assert!(result.available);
    assert!(result.qmd_installed);
    assert!(result.collection_exists);
    assert_eq!(result.indexed_count, 120);
    assert_eq!(result.embedded_count, 0);
    assert_eq!(result.pending_embed, 0);
}

#[test]
fn parse_status_other_collection_closes_section() {
    let status = "  laputa (qmd://laputa/)\n  Files: 10\n  other (qmd://other/)\n  Files: 99\n";
    let result = parse_status_for_vault(status, "laputa");
    assert!(result.collection_exists);
    assert_eq!(result.indexed_count, 10);
}

#[test]
fn parse_status_with_crlf_lines() {
    let status = "Vectors: 5 embedded\r\nPending: 3\r\n";
    let result = parse_status_for_vault(status, "laputa");
    assert_eq!(result.embedded_count, 5);
    assert_eq!(result.pending_embed, 3);
    assert!(!result.collection_exists);
}

#[test]
fn parse_indexed_count_takes_first_line_with_number() {
    assert_eq!(parse_indexed_count("Updating...\nIndexed 12 files\nDone 3"), 12);
    assert_eq!(parse_indexed_count(""), 0);
}

#[test]
fn check_index_status_without_qmd() {
    let s = check_index_status("/v/Laputa", false, None);
    assert!(!s.available);
    assert!(!s.qmd_installed);
    assert!(!s.collection_exists);
    assert_eq!(s.indexed_count, 0);
}

#[test]
fn check_index_status_when_status_fails() {
    let s = check_index_status("/v/Laputa", true, None);
    assert!(!s.available);
    assert!(s.qmd_installed);
    assert!(!s.collection_exists);
}

#[test]
fn check_index_status_reads_report_for_lowercased_vault() {
    let s = check_index_status("/v/Laputa", true, Some("laputa (qmd://laputa/)\nFiles: 4\n"));
    assert!(s.available);
    assert!(s.collection_exists);
    assert_eq!(s.indexed_count, 4);
}

// ---------------------------------------------------------------------------
// Locating qmd
// ---------------------------------------------------------------------------

fn bin(path: &str) -> QmdBinary {
    QmdBinary { path: path.to_string(), work_dir: None }
}

#[test]
fn find_qmd_binary_caches_found_binary() {
    let mut cache = QmdCache::new();
    let first = find_qmd_binary(&mut cache, || Some(bin("/opt/qmd")));
    assert_eq!(first.unwrap().path, "/opt/qmd");
    let second = find_qmd_binary(&mut cache, || panic!("must not search again"));
    assert_eq!(second.unwrap().path, "/opt/qmd");
}

#[test]
fn find_qmd_binary_does_not_cache_absence() {
    let mut cache = QmdCache::new();
    assert!(find_qmd_binary(&mut cache, || None).is_none());
    let found = find_qmd_binary(&mut cache, || Some(bin("/usr/bin/qmd")));
    assert_eq!(found.unwrap().path, "/usr/bin/qmd");
}

#[test]
fn clear_qmd_cache_forces_a_new_search() {
    let mut cache = QmdCache::new();
    find_qmd_binary(&mut cache, || Some(bin("/a/qmd")));
    clear_qmd_cache(&mut cache);
    let found = find_qmd_binary(&mut cache, || Some(bin("/b/qmd")));
    assert_eq!(found.unwrap().path, "/b/qmd");
}

#[test]
fn candidate_locations() {
    let with_home = qmd_system_candidates(Some("/home/luca"));
    let paths: Vec<&str> = with_home.iter().map(|b| b.path.as_str()).collect();
    assert_eq!(
        paths,
        vec!["/home/luca/.bun/bin/qmd", "/usr/local/bin/qmd", "/opt/homebrew/bin/qmd"]
    );
    assert!(with_home.iter().all(|b| b.work_dir.is_none()));
    assert_eq!(qmd_system_candidates(None).len(), 2);
    assert_eq!(
        qmd_bundle_dir("/Applications/Laputa.app/Contents"),
        "/Applications/Laputa.app/Contents/Resources/qmd"
    );
    assert_eq!(qmd_dev_dir("/src/app/"), "/src/app/resources/qmd");
    let q = qmd_in("/r/qmd");
    assert_eq!(q.path, "/r/qmd/qmd");
    assert_eq!(q.work_dir.as_deref(), Some("/r/qmd"));
}

#[test]
fn first_present_picks_first_existing() {
    let c = vec![bin("/a"), bin("/b"), bin("/c")];
    assert_eq!(first_present(&c, &vec![false, true, true]).unwrap().path, "/b");
    assert!(first_present(&c, &vec![false, false, false]).is_none());
    assert!(first_present(&c, &vec![]).is_none());
}

#[test]
fn which_output_is_trimmed() {
    assert_eq!(qmd_from_which(true, "  /usr/bin/qmd\n").unwrap().path, "/usr/bin/qmd");
    assert!(qmd_from_which(false, "/usr/bin/qmd\n").is_none());
}

// ---------------------------------------------------------------------------
// Tasks
// ---------------------------------------------------------------------------

fn exited(success: bool, stdout: &str, stderr: &str) -> QmdEvent {
    QmdEvent::Ran(CommandOutcome::Exited {
        success,
        stdout: stdout.to_string(),
        stderr: stderr.to_string(),
    })
}

fn not_started(e: &str) -> QmdEvent {
    QmdEvent::Ran(CommandOutcome::NotStarted(e.to_string()))
}

fn collection_err(step: CollectionStep) -> Option<String> {
    match step {
        CollectionStep::Done(Err(e)) => Some(e),
        _ => None,
    }
}

#[test]
fn ensure_collection_paths() {
    let v = "/home/u/Laputa";
    assert_eq!(
        collection_err(ensure_collection(v, CollectionStep::Locate, QmdEvent::Located(false))),
        Some("qmd not installed".to_string())
    );
    assert!(matches!(
        ensure_collection(v, CollectionStep::Locate, QmdEvent::Located(true)),
        CollectionStep::List
    ));
    assert_eq!(
        collection_err(ensure_collection(v, CollectionStep::List, not_started("boom"))),
        Some("Failed to list collections: boom".to_string())
    );
    assert!(matches!(
        ensure_collection(v, CollectionStep::List, exited(true, "laputa (qmd://laputa/)\n", "")),
        CollectionStep::Done(Ok(()))
    ));
    match ensure_collection(v, CollectionStep::List, exited(true, "other (qmd://other/)\n", "")) {
        CollectionStep::Add(args) => assert_eq!(
            args,
            vec!["collection", "add", v, "--name", "laputa", "--mask", "**/*.md"]
        ),
        _ => panic!("expected the collection to be added"),
    }
    assert!(matches!(
        ensure_collection(v, CollectionStep::List, exited(false, "qmd://laputa/", "")),
        CollectionStep::Add(_)
    ));
    assert_eq!(
        collection_err(ensure_collection(v, CollectionStep::Add(vec![]), not_started("nope"))),
        Some("Failed to create collection: nope".to_string())
    );
    assert_eq!(
        collection_err(ensure_collection(v, CollectionStep::Add(vec![]), exited(false, "", "exists"))),
        Some("Failed to create collection: exists".to_string())
    );
    assert!(matches!(
        ensure_collection(v, CollectionStep::Add(vec![]), exited(true, "", "")),
        CollectionStep::Done(Ok(()))
    ));
}

fn update_err(step: UpdateStep) -> Option<String> {
    match step {
        UpdateStep::Done(Err(e)) => Some(e),
        _ => None,
    }
}

#[test]
fn incremental_update_paths() {
    let v = "/x/Laputa";
    assert_eq!(
        update_err(run_incremental_update(v, UpdateStep::Locate, QmdEvent::Located(false))),
        Some("qmd not installed".to_string())
    );
    assert!(matches!(
        run_incremental_update(v, UpdateStep::List, exited(true, "nothing", "")),
        UpdateStep::Done(Ok(()))
    ));
    assert!(matches!(
        run_incremental_update(v, UpdateStep::List, exited(true, "qmd://laputa/", "")),
        UpdateStep::Update
    ));
    assert!(matches!(
        run_incremental_update(v, UpdateStep::List, exited(false, "", "")),
        UpdateStep::Update
    ));
    assert_eq!(
        update_err(run_incremental_update(v, UpdateStep::List, not_started("e1"))),
        Some("Failed to list collections: e1".to_string())
    );
    assert_eq!(
        update_err(run_incremental_update(v, UpdateStep::Update, not_started("e2"))),
        Some("qmd incremental update failed: e2".to_string())
    );
    assert_eq!(
        update_err(run_incremental_update(v, UpdateStep::Update, exited(false, "", "disk full"))),
        Some("qmd update failed: disk full".to_string())
    );
    assert!(matches!(
        run_incremental_update(v, UpdateStep::Update, exited(true, "", "")),
        UpdateStep::Done(Ok(()))
    ));
}

#[test]
fn full_index_successful_run_reports_progress() {
    let (s, p) = run_full_index(FullIndexStep::Locate, QmdEvent::Located(true));
    assert!(matches!(s, FullIndexStep::EnsureCollection));
    assert!(p.is_empty());
    let (s, p) = run_full_index(s, QmdEvent::Completed(Ok(())));
    assert!(matches!(s, FullIndexStep::Update));
    assert_eq!(p.len(), 1);
    assert_eq!(p[0].phase, "scanning");
    assert_eq!((p[0].current, p[0].total, p[0].done), (0, 0, false));
    let (s, p) = run_full_index(s, exited(true, "Indexed 342 files in 1.2s", ""));
    assert!(matches!(s, FullIndexStep::Embed(342)));
    assert_eq!(p.len(), 2);
    assert_eq!((p[0].phase.as_str(), p[0].current, p[0].total), ("scanning", 342, 342));
    assert_eq!((p[1].phase.as_str(), p[1].current, p[1].total), ("embedding", 0, 342));
    let (s, p) = run_full_index(s, exited(true, "", ""));
    assert!(matches!(s, FullIndexStep::Done(Ok(()))));
    assert_eq!(p.len(), 1);
    assert_eq!(p[0].phase, "complete");
    assert!(p[0].done);
    assert!(p[0].error.is_none());
}

#[test]
fn full_index_failures() {
    let (s, p) = run_full_index(FullIndexStep::Locate, QmdEvent::Located(false));
    assert!(matches!(s, FullIndexStep::Done(Err(ref e)) if e == "qmd not installed"));
    assert!(p.is_empty());
    let (s, _) = run_full_index(
        FullIndexStep::EnsureCollection,
        QmdEvent::Completed(Err("Failed to list collections: x".to_string())),
    );
    assert!(matches!(s, FullIndexStep::Done(Err(ref e)) if e == "Failed to list collections: x"));
    let (s, p) = run_full_index(FullIndexStep::Update, not_started("gone"));
    assert!(matches!(s, FullIndexStep::Done(Err(ref e)) if e == "qmd update failed: gone"));
    assert!(p.is_empty());
    let (s, p) = run_full_index(FullIndexStep::Update, exited(false, "", "bad"));
    assert!(matches!(s, FullIndexStep::Done(Err(ref e)) if e == "qmd update failed: bad"));
    assert_eq!(p.len(), 1);
    assert_eq!(p[0].phase, "error");
    assert!(p[0].done);
    assert_eq!(p[0].error.as_deref(), Some("qmd update failed: bad"));
    let (s, p) = run_full_index(FullIndexStep::Embed(7), not_started("oops"));
    assert!(matches!(s, FullIndexStep::Done(Err(ref e)) if e == "qmd embed failed: oops"));
    assert!(p.is_empty());
}

#[test]
fn full_index_embedding_failure_is_not_fatal() {
    let (s, p) = run_full_index(FullIndexStep::Embed(9), exited(false, "", "no model"));
    assert!(matches!(s, FullIndexStep::Done(Ok(()))));
    assert_eq!(p.len(), 1);
    assert_eq!((p[0].phase.as_str(), p[0].current, p[0].total, p[0].done), ("complete", 9, 9, true));
    assert_eq!(
        p[0].error.as_deref(),
        Some("Embedding failed \u{2014} keyword search only")
    );
}

#[test]
fn search_order_bundled_then_system_then_which() {
    // No executable path: no bundled candidates, then the system ones.
    let step = find_qmd_binary_uncached(QmdSearch::Exe, SearchEvent::Exe(None));
    let step = match step {
        QmdSearch::Bundled(c) => {
            assert!(c.is_empty());
            find_qmd_binary_uncached(QmdSearch::Bundled(c), SearchEvent::Present(vec![]))
        }
        _ => panic!("expected the bundled look"),
    };
    assert!(matches!(step, QmdSearch::Home));
    let step = find_qmd_binary_uncached(step, SearchEvent::Home(Some("/home/u".to_string())));
    let step = match step {
        QmdSearch::System(c) => {
            let paths: Vec<&str> = c.iter().map(|b| b.path.as_str()).collect();
            assert_eq!(
                paths,
                vec!["/home/u/.bun/bin/qmd", "/usr/local/bin/qmd", "/opt/homebrew/bin/qmd"]
            );
            find_qmd_binary_uncached(QmdSearch::System(c), SearchEvent::Present(vec![false; 3]))
        }
        _ => panic!("expected the system look"),
    };
    assert!(matches!(step, QmdSearch::Which));
    match find_qmd_binary_uncached(
        step,
        SearchEvent::Which(Some((true, " /usr/bin/qmd\n".to_string()))),
    ) {
        QmdSearch::Done(Some(b)) => assert_eq!(b.path, "/usr/bin/qmd"),
        _ => panic!("which ends the search"),
    }
    assert!(matches!(
        find_qmd_binary_uncached(QmdSearch::Which, SearchEvent::Which(None)),
        QmdSearch::Done(None)
    ));
    assert!(matches!(
        find_qmd_binary_uncached(QmdSearch::Which, SearchEvent::Which(Some((false, "x".to_string())))),
        QmdSearch::Done(None)
    ));
}

#[test]
fn bundled_candidates_come_first() {
    let step = find_qmd_binary_uncached(
        QmdSearch::Exe,
        SearchEvent::Exe(Some("/Apps/L.app/Contents/MacOS/laputa".to_string())),
    );
    match step {
        QmdSearch::Bundled(c) => {
            let paths: Vec<&str> = c.iter().map(|b| b.path.as_str()).collect();
            assert_eq!(
                paths,
                vec![
                    "/Apps/L.app/Contents/Resources/qmd/qmd",
                    "/Apps/L.app/Contents/MacOS/resources/qmd/qmd",
                    "/Apps/L.app/Contents/resources/qmd/qmd",
                    "/Apps/L.app/resources/qmd/qmd",
                    "/Apps/resources/qmd/qmd",
                    "/resources/qmd/qmd",
                ]
            );
            assert_eq!(c[0].work_dir.as_deref(), Some("/Apps/L.app/Contents/Resources/qmd"));
            let mut present = vec![false; c.len()];
            present[2] = true;
            match find_qmd_binary_uncached(QmdSearch::Bundled(c), SearchEvent::Present(present)) {
                QmdSearch::Done(Some(b)) => {
                    assert_eq!(b.path, "/Apps/L.app/Contents/resources/qmd/qmd")
                }
                _ => panic!("a present bundled candidate ends the search"),
            }
        }
        _ => panic!("expected the bundled look"),
    }
}

#[test]
fn full_run_reports_in_order() {
    let events = vec![
        QmdEvent::Located(true),
        QmdEvent::Completed(Ok(())),
        exited(true, "Indexed 3 files", ""),
        exited(false, "", "no model"),
    ];
    let mut step = FullIndexStep::Locate;
    let mut all = Vec::new();
    for e in events {
        let (next, reports) = run_full_index(step, e);
        all.extend(reports);
        step = next;
    }
    assert!(matches!(step, FullIndexStep::Done(Ok(()))));
    let phases: Vec<&str> = all.iter().map(|p| p.phase.as_str()).collect();
    assert_eq!(phases, vec!["scanning", "scanning", "embedding", "complete"]);
    assert!(all.iter().all(|p| p.current <= p.total));
    assert_eq!(all.iter().filter(|p| p.done).count(), 1);
    assert!(all.last().unwrap().done);
}

#[test]
fn parse_status_section_closes_at_collection_with_longer_name() {
    let status = "  note (qmd://note/)\n    Files: 5\n  notes (qmd://notes/)\n    Files: 7\n";
    let result = parse_status_for_vault(status, "note");
    assert!(result.collection_exists);
    assert_eq!(result.indexed_count, 5);
}
