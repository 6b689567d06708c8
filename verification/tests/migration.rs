use laputa::flat::{
    extract_title, first_free_root_path, in_system_folder_exec, invalid_vault_message, is_in_system_folder, is_removable_dir,
    move_failure_message, old_path_stem, plan_flat_migration, read_failure_message,
    should_move_to_root, unique_root_path, update_wikilinks, MigrationResult, MoveOutcome,
};
use laputa::migration::{
    extract_is_a_value, has_legacy_is_a, migrate_file_is_a_to_type, record_migration,
};
use laputa::path::{has_md_extension, same_path_exec};

// --- has_legacy_is_a ---

#[test]
fn test_has_legacy_is_a_detects_is_a_colon() {
    assert!(has_legacy_is_a("is_a: Person\nname: Alice"));
}

#[test]
fn test_has_legacy_is_a_detects_quoted_is_a() {
    assert!(has_legacy_is_a("\"Is A\": Note\nname: Test"));
}

#[test]
fn test_has_legacy_is_a_detects_bare_is_a() {
    assert!(has_legacy_is_a("Is A: Topic\n"));
}

#[test]
fn test_has_legacy_is_a_returns_false_for_clean_frontmatter() {
    assert!(!has_legacy_is_a("type: Person\nname: Alice"));
}

// --- extract_is_a_value ---

#[test]
fn test_extract_is_a_value_from_is_a_colon() {
    assert_eq!(extract_is_a_value("is_a: Person"), Some("Person"));
}

#[test]
fn test_extract_is_a_value_from_quoted() {
    assert_eq!(extract_is_a_value("\"Is A\": Note"), Some("Note"));
}

#[test]
fn test_extract_is_a_value_returns_none_for_unrelated_line() {
    assert_eq!(extract_is_a_value("name: Alice"), None);
}

// --- migrate_file_is_a_to_type ---

#[test]
fn test_migrate_file_adds_type_and_removes_is_a() {
    let result = migrate_file_is_a_to_type("---\nis_a: Person\nname: Alice\n---\n# Alice\n");
    assert!(result.is_some(), "file should be migrated");
    let content = result.unwrap();
    assert!(content.contains("type: Person"), "should have type field");
    assert!(!content.contains("is_a:"), "should not have is_a field");
}

#[test]
fn test_migrate_file_skips_when_no_frontmatter() {
    let result = migrate_file_is_a_to_type("# Just a heading\nNo frontmatter here.\n");
    assert!(result.is_none(), "file without frontmatter should not be migrated");
}

#[test]
fn test_migrate_file_skips_when_already_has_type() {
    let result = migrate_file_is_a_to_type("---\ntype: Person\nname: Alice\n---\n# Alice\n");
    assert!(result.is_none(), "file already with type should not be migrated");
}

#[test]
fn test_migrate_file_skips_when_no_is_a_field() {
    let result = migrate_file_is_a_to_type("---\nname: Alice\ndate: 2024-01-01\n---\n# Alice\n");
    assert!(result.is_none());
}

// --- further cases ---

#[test]
fn migrated_content_is_exact() {
    assert_eq!(
        migrate_file_is_a_to_type("---\nis_a: Person\nname: Alice\n---\n# Alice\n").unwrap(),
        "---\ntype: Person\nname: Alice\n---\n# Alice\n"
    );
    // An existing `type` wins; the legacy lines are still dropped.
    assert_eq!(
        migrate_file_is_a_to_type("---\ntype: Event\n  'Is A': Old\n---\nbody").unwrap(),
        "---\ntype: Event\n---\nbody"
    );
    // The last legacy value is the one kept.
    assert_eq!(
        migrate_file_is_a_to_type("---\nis_a: A\nIs A:   B  \n---").unwrap(),
        "---\ntype: B\n---"
    );
    // Windows line endings inside the frontmatter lose their '\r'.
    assert_eq!(
        migrate_file_is_a_to_type("---\nis_a: X\r\nname: Y\r\n---\r\n").unwrap(),
        "---\ntype: X\nname: Y\r\n---\r\n"
    );
}

#[test]
fn migration_needs_a_closed_frontmatter() {
    assert!(migrate_file_is_a_to_type("---\nis_a: Person\n").is_none());
    assert!(migrate_file_is_a_to_type("--- \nis_a: Person\n---\n").is_none());
    assert!(migrate_file_is_a_to_type("").is_none());
}

#[test]
fn migration_is_idempotent_on_examples() {
    for note in [
        "---\nis_a: Person\nname: Alice\n---\n# Alice\n",
        "---\n---x\nis_a: P\n---\n",
        "---\nis_a: A\r\n---\nrest\n---\nis_a: B\n",
    ] {
        let once = migrate_file_is_a_to_type(note).unwrap();
        assert!(migrate_file_is_a_to_type(&once).is_none(), "{}", once);
    }
}

#[test]
fn extract_is_a_value_trims_and_accepts_all_spellings() {
    assert_eq!(extract_is_a_value("   'Is A':   Topic  "), Some("Topic"));
    assert_eq!(extract_is_a_value("Is A:"), Some(""));
    assert_eq!(extract_is_a_value("is_a Person"), None);
    assert!(has_legacy_is_a("name: x\n  is_a: y"));
    assert!(!has_legacy_is_a(""));
}

// --- flat migration pieces ---

#[test]
fn unique_root_path_candidates() {
    assert_eq!(unique_root_path("/v", "test.md", 0), "/v/test.md");
    assert_eq!(unique_root_path("/v", "test.md", 1), "/v/test-2.md");
    assert_eq!(unique_root_path("/v/", "test.md", 2), "/v/test-3.md");
    assert_eq!(unique_root_path("/v", "notes", 9), "/v/notes-10");
    assert_eq!(unique_root_path("/v", "archive.tar.gz", 1), "/v/archive.tar-2.gz");
    assert_eq!(unique_root_path("/v", ".hidden", 1), "/v/.hidden-2");
    assert_eq!(unique_root_path("/v", "trailing.", 1), "/v/trailing-2.");
}

#[test]
fn system_folders() {
    assert!(is_in_system_folder("/v/type/project.md", "/v"));
    assert!(is_in_system_folder("/v/config/agents.md", "/v"));
    assert!(is_in_system_folder("/v/theme", "/v"));
    assert!(!is_in_system_folder("/v/note/test.md", "/v"));
    assert!(!is_in_system_folder("/v/types/x.md", "/v"));
    assert!(!is_in_system_folder("/elsewhere/type/x.md", "/v"));
    assert!(is_in_system_folder("/v/type/x.md", "/v/"));
    assert!(in_system_folder_exec("config"));
    assert!(!in_system_folder_exec("configs/a.md"));
    assert!(should_move_to_root("/v/note/a.md", "/v"));
    assert!(!should_move_to_root("/v/a.md", "/v"));
    assert!(!should_move_to_root("/v/a.md", "/v/"));
    assert!(!should_move_to_root("/v//a.md", "/v"));
    assert!(!should_move_to_root("/v/./a.md", "/v"));
    assert!(!should_move_to_root("/v/type/a.md", "/v"));
    assert!(should_move_to_root("/w/a.md", "/v"));
}

#[test]
fn path_equality_compares_components() {
    assert!(same_path_exec("/v", "/v/"));
    assert!(same_path_exec("/v//note/./x", "/v/note/x"));
    assert!(same_path_exec("", ""));
    assert!(same_path_exec("./a", "./a/"));
    assert!(!same_path_exec("/v", "v"));
    assert!(!same_path_exec("./a", "a"));
    assert!(!same_path_exec("/v/a", "/v/b"));
    assert!(!same_path_exec("/v/a", "/v/a/b"));
    assert!(!same_path_exec("/v/..", "/"));
}

#[test]
fn flat_migration_plan() {
    let found = vec![
        "/v/a.md".to_string(),
        "/v/note/b.md".to_string(),
        "/v/type/c.md".to_string(),
        "/v/person/d.md".to_string(),
        "/v/config/e.md".to_string(),
    ];
    let (to_move, result) = plan_flat_migration("/v", &found);
    assert_eq!(to_move, vec!["/v/note/b.md".to_string(), "/v/person/d.md".to_string()]);
    assert_eq!((result.moved, result.skipped, result.errors.len()), (0, 3, 0));
    let (to_move, result) = plan_flat_migration("/v", &vec![]);
    assert!(to_move.is_empty());
    assert_eq!((result.moved, result.skipped), (0, 0));
}

#[test]
fn move_outcomes_are_counted() {
    let (to_move, mut result) = plan_flat_migration(
        "/v",
        &vec!["/v/a.md".to_string(), "/v/n/b.md".to_string(), "/v/n/c.md".to_string(), "/v/n/d.md".to_string()],
    );
    let outcomes = vec![
        MoveOutcome::Moved,
        MoveOutcome::ReadFailed("denied".to_string()),
        MoveOutcome::MoveFailed { to: "/v/d.md".to_string(), error: "busy".to_string() },
    ];
    for (file, outcome) in to_move.iter().zip(outcomes.iter()) {
        result.record_move(file, outcome);
    }
    assert_eq!(result.moved, 1);
    assert_eq!(result.skipped, 1);
    assert_eq!(
        result.errors,
        vec![
            "Failed to read /v/n/c.md: denied".to_string(),
            "Failed to move /v/n/d.md \u{2192} /v/d.md: busy".to_string(),
        ]
    );
    assert_eq!(result.moved + result.errors.len(), to_move.len());
}

#[test]
fn migrated_notes_are_counted() {
    assert_eq!(record_migration(0, true), 1);
    assert_eq!(record_migration(4, false), 4);
    assert_eq!(record_migration(4, true), 5);
}

#[test]
fn removable_dirs() {
    assert!(is_removable_dir("note", true));
    assert!(!is_removable_dir("note", false));
    assert!(!is_removable_dir("type", true));
    assert!(!is_removable_dir("config", true));
    assert!(!is_removable_dir("theme", true));
    assert!(!is_removable_dir(".git", true));
}

#[test]
fn old_stems() {
    assert_eq!(old_path_stem("/v", "/v/person/alice.md"), "person/alice");
    assert_eq!(old_path_stem("/v", "/w/alice.md"), "/w/alice");
    assert_eq!(old_path_stem("/v", "/v/person/alice.txt"), "person/alice.txt");
    assert_eq!(old_path_stem("/tmp/v/", "/tmp/v/person/alice.md"), "person/alice");
    assert_eq!(old_path_stem("/tmp/v/", "/tmp/v//person/alice.md"), "person/alice");
}

#[test]
fn wikilinks_are_rewritten() {
    let reps = vec![("person/alice".to_string(), "Alice".to_string())];
    let (content, changed) =
        update_wikilinks("# Root\n\nSee [[person/alice]] for details.\n", &reps);
    assert!(changed);
    assert!(content.contains("[[Alice]]"));
    assert!(!content.contains("[[person/alice]]"));
    let (content, changed) = update_wikilinks("[[person/alice|Al]] and [[person/alice]]", &reps);
    assert!(changed);
    assert_eq!(content, "[[Alice|Al]] and [[Alice]]");
    let trailing = vec![(old_path_stem("/tmp/v/", "/tmp/v/person/alice.md"), "Alice".to_string())];
    let (content, changed) = update_wikilinks("See [[person/alice]]\n", &trailing);
    assert!(changed);
    assert_eq!(content, "See [[Alice]]\n");
    let (content, changed) = update_wikilinks("[[person/bob]]", &reps);
    assert!(!changed);
    assert_eq!(content, "[[person/bob]]");
}

#[test]
fn titles() {
    assert_eq!(extract_title("---\ntype: Person\n---\n# Alice\n", "alice.md"), "Alice");
    assert_eq!(extract_title("no heading", "my-note.md"), "my-note");
    assert_eq!(extract_title("  #   Spaced  \n", "x.md"), "Spaced");
    assert_eq!(extract_title("## Sub\n", "plain"), "plain");
}

#[test]
fn markdown_paths() {
    assert!(has_md_extension("/v/a.md"));
    assert!(!has_md_extension("/v/a.png"));
    assert!(!has_md_extension("/v/.md"));
    assert!(!has_md_extension("/v/a.MD"));
    assert!(has_md_extension("/v/a.md/"));
}

#[test]
fn messages_and_results() {
    assert_eq!(
        invalid_vault_message("/nope"),
        "Vault path does not exist or is not a directory: /nope"
    );
    assert_eq!(read_failure_message("/v/a.md", "denied"), "Failed to read /v/a.md: denied");
    assert_eq!(
        move_failure_message("/v/n/a.md", "/v/a.md", "busy"),
        "Failed to move /v/n/a.md \u{2192} /v/a.md: busy"
    );
    let mut r = MigrationResult::new();
    r.record_moved();
    r.record_skipped();
    r.record_skipped();
    r.record_error("e".to_string());
    assert_eq!((r.moved, r.skipped, r.errors.len()), (1, 2, 1));
}

#[test]
fn first_free_destination_is_the_least_free_one() {
    assert_eq!(first_free_root_path("/v", "test.md", &vec![false]).as_deref(), Some("/v/test.md"));
    assert_eq!(
        first_free_root_path("/v", "test.md", &vec![true, false]).as_deref(),
        Some("/v/test-2.md")
    );
    assert_eq!(
        first_free_root_path("/v", "test.md", &vec![true, true, false, false]).as_deref(),
        Some("/v/test-3.md")
    );
    assert!(first_free_root_path("/v", "test.md", &vec![true, true]).is_none());
    assert!(first_free_root_path("/v", "test.md", &vec![]).is_none());
}
