//! Tests of include-path resolution and related configuration helpers.

use doe::config::{
    default_path_in, discover_types, expand_tilde, expand_tilde_in, is_schema_file, resolve_include_paths,
    resolve_include_paths_in, schema_listing, AvailableType, Config, DuplicateTypeError, ListedSchema,
};

/// The header (`id`, optional `doc`) of a schema file's text, where the text
/// reads as one.
fn header_of(text: &str) -> Option<(String, Option<String>)> {
    let v: serde_yaml::Value = serde_yaml::from_str(text).ok()?;
    let id = v.get("id")?.as_str()?.to_string();
    let doc = match v.get("doc") {
        None => None,
        Some(serde_yaml::Value::Null) => None,
        Some(d) => Some(d.as_str()?.to_string()),
    };
    Some((id, doc))
}

/// The listing of a directory `dir` holding the files `(name, text)`.
fn dir_with(dir: &str, files: &[(&str, &str)]) -> Vec<ListedSchema> {
    let entries = files
        .iter()
        .map(|(name, text)| (format!("{}/{}", dir, name), header_of(text)))
        .collect();
    schema_listing(entries)
}

fn discover(dirs: Vec<Vec<ListedSchema>>) -> Result<Vec<AvailableType>, Vec<DuplicateTypeError>> {
    discover_types(dirs)
}

#[test]
fn cli_paths_come_before_config_paths() {
    let cli = vec!["/cli/path".to_string()];
    let cfg = Config {
        include_paths: vec!["/config/path".to_string()],
    };
    let resolved = resolve_include_paths(&cli, &cfg);
    assert_eq!(resolved[0], "/cli/path");
    assert_eq!(resolved[1], "/config/path");
}

#[test]
fn empty_cli_uses_only_config_paths() {
    let cfg = Config {
        include_paths: vec!["/config/path".to_string()],
    };
    let resolved = resolve_include_paths(&[], &cfg);
    assert_eq!(resolved.len(), 1);
}

#[test]
fn both_empty_gives_empty_list() {
    let resolved = resolve_include_paths(&[], &Config::default());
    assert!(resolved.is_empty());
}

#[test]
fn expand_tilde_absolute_path_unchanged() {
    let p = "/absolute/path";
    assert_eq!(expand_tilde(p), p);
}

#[test]
fn expand_tilde_relative_path_unchanged() {
    let p = "relative/path";
    assert_eq!(expand_tilde(p), p);
}

#[test]
fn expand_tilde_with_known_home() {
    let home = Some("/home/alice".to_string());
    assert_eq!(expand_tilde_in("~/types", &home), "/home/alice/types");
    assert_eq!(expand_tilde_in("~", &home), "/home/alice");
    assert_eq!(expand_tilde_in("/absolute/path", &home), "/absolute/path");
    assert_eq!(expand_tilde_in("~other/x", &home), "~other/x");
    assert_eq!(expand_tilde_in("~/types", &None), "~/types");
}

#[test]
fn resolve_expands_each_path() {
    let home = Some("/home/alice".to_string());
    let cfg = Config {
        include_paths: vec!["~/.doe/types".to_string(), "/usr/share/doe/types".to_string()],
    };
    let resolved = resolve_include_paths_in(&["~/mine".to_string()], &cfg, &home);
    assert_eq!(
        resolved,
        vec!["/home/alice/mine", "/home/alice/.doe/types", "/usr/share/doe/types"]
    );
}

#[test]
fn default_config_location() {
    assert_eq!(
        default_path_in(Some("/home/alice".to_string())),
        Some("/home/alice/.doe/config/config.yaml".to_string())
    );
    assert_eq!(default_path_in(None), None);
}

#[test]
fn duplicate_type_error_display_contains_key_info() {
    let err = DuplicateTypeError {
        id: "png".into(),
        first: "/types/a.yaml".into(),
        second: "/types/b.yaml".into(),
    };
    let msg = err.message();
    assert!(msg.contains("png"));
    assert!(msg.contains("a.yaml"));
    assert!(msg.contains("b.yaml"));
    // Should explain the shadowing mechanism
    assert!(msg.contains("higher-priority"));
}

#[test]
fn discover_types_empty_dir() {
    let types = discover(vec![dir_with("/t/empty", &[])]).unwrap();
    assert!(types.is_empty());
}

#[test]
fn discover_types_finds_yaml_files() {
    let dir = dir_with(
        "/t/d",
        &[("png.yaml", "id: png\ndoc: PNG image\nseq: []\n"), ("elf.yaml", "id: elf\nseq: []\n")],
    );
    let types = discover(vec![dir]).unwrap();
    assert_eq!(types.len(), 2);
    // Results are sorted by id within a directory
    assert_eq!(types[0].id, "elf");
    assert_eq!(types[0].doc, None);
    assert_eq!(types[1].id, "png");
    assert_eq!(types[1].doc, Some("PNG image".into()));
}

#[test]
fn discover_types_ignores_non_yaml() {
    let dir = dir_with("/t/d", &[("notes.txt", "not a schema"), ("png.yaml", "id: png\nseq: []\n")]);
    let types = discover(vec![dir]).unwrap();
    assert_eq!(types.len(), 1);
    assert_eq!(types[0].id, "png");
}

#[test]
fn discover_types_ignores_invalid_yaml() {
    let dir = dir_with("/t/d", &[("bad.yaml", "{{{{not valid yaml"), ("good.yaml", "id: good\nseq: []\n")]);
    let types = discover(vec![dir]).unwrap();
    assert_eq!(types.len(), 1);
    assert_eq!(types[0].id, "good");
}

#[test]
fn discover_types_within_dir_duplicate_is_error() {
    let dir = dir_with(
        "/t/d",
        &[("b_fmt.yaml", "id: fmt\ndoc: second\nseq: []\n"), ("a_fmt.yaml", "id: fmt\ndoc: first\nseq: []\n")],
    );
    let err = discover(vec![dir]).unwrap_err();
    assert_eq!(err.len(), 1);
    assert_eq!(err[0].id, "fmt");
    // first and second should be the two files (sorted alphabetically)
    assert!(err[0].first.contains("a_fmt"));
    assert!(err[0].second.contains("b_fmt"));
}

#[test]
fn discover_types_within_dir_multiple_duplicates_all_reported() {
    let dir = dir_with(
        "/t/d",
        &[
            ("a1.yaml", "id: foo\nseq: []\n"),
            ("a2.yaml", "id: foo\nseq: []\n"),
            ("b1.yaml", "id: bar\nseq: []\n"),
            ("b2.yaml", "id: bar\nseq: []\n"),
        ],
    );
    let err = discover(vec![dir]).unwrap_err();
    assert_eq!(err.len(), 2);
    let ids: Vec<&str> = err.iter().map(|e| e.id.as_str()).collect();
    assert!(ids.contains(&"foo"));
    assert!(ids.contains(&"bar"));
}

#[test]
fn discover_types_cross_dir_shadowing_is_allowed() {
    let dir1 = dir_with("/t/one", &[("fmt.yaml", "id: fmt\ndoc: from dir1\nseq: []\n")]);
    let dir2 = dir_with("/t/two", &[("fmt.yaml", "id: fmt\ndoc: from dir2\nseq: []\n")]);
    let types = discover(vec![dir1, dir2]).unwrap();
    assert_eq!(types.len(), 1);
    assert_eq!(types[0].doc.as_deref(), Some("from dir1"));
}

#[test]
fn discover_types_error_dir_skipped_others_still_contribute() {
    let bad = dir_with("/t/bad", &[("a.yaml", "id: conflict\nseq: []\n"), ("b.yaml", "id: conflict\nseq: []\n")]);
    let good = dir_with("/t/good", &[("valid.yaml", "id: valid\nseq: []\n")]);
    let err = discover(vec![bad, good]).unwrap_err();
    assert_eq!(err.len(), 1);
    assert_eq!(err[0].id, "conflict");
}

#[test]
fn discover_types_accepts_yml_extension() {
    let dir = dir_with("/t/d", &[("wav.yml", "id: wav\nseq: []\n")]);
    let types = discover(vec![dir]).unwrap();
    assert_eq!(types.len(), 1);
    assert_eq!(types[0].id, "wav");
}

#[test]
fn discover_types_multiple_dirs_merged() {
    let dir1 = dir_with("/t/one", &[("png.yaml", "id: png\nseq: []\n")]);
    let dir2 = dir_with("/t/two", &[("elf.yaml", "id: elf\nseq: []\n")]);
    let types = discover(vec![dir1, dir2]).unwrap();
    assert_eq!(types.len(), 2);
    let ids: Vec<&str> = types.iter().map(|t| t.id.as_str()).collect();
    assert!(ids.contains(&"png"));
    assert!(ids.contains(&"elf"));
}

#[test]
fn discover_types_lists_all_directories_in_id_order() {
    // One list in id order; the higher-priority directory's `zip` wins.
    let dir1 = dir_with("/t/one", &[("z.yaml", "id: zip\n"), ("a.yaml", "id: ar\n")]);
    let dir2 = dir_with("/t/two", &[("b.yaml", "id: bmp\n"), ("z.yaml", "id: zip\ndoc: lower\n")]);
    let types = discover(vec![dir1, dir2]).unwrap();
    let ids: Vec<&str> = types.iter().map(|t| t.id.as_str()).collect();
    assert_eq!(ids, vec!["ar", "bmp", "zip"]);
    assert_eq!(types[2].source, "/t/one/z.yaml");
    assert_eq!(types[2].doc, None);
}

#[test]
fn discover_types_sorts_across_directories() {
    let dir1 = dir_with("/t/one", &[("png.yaml", "id: png\nseq: []\n")]);
    let dir2 = dir_with("/t/two", &[("elf.yaml", "id: elf\nseq: []\n")]);
    let types = discover(vec![dir1, dir2]).unwrap();
    let ids: Vec<&str> = types.iter().map(|t| t.id.as_str()).collect();
    assert_eq!(ids, vec!["elf", "png"]);
}

#[test]
fn discover_types_reports_conflicts_of_every_directory() {
    let d1 = dir_with("/t/one", &[("x2.yaml", "id: x\n"), ("x1.yaml", "id: x\n")]);
    let d2 = dir_with("/t/two", &[("y1.yaml", "id: y\n"), ("y2.yaml", "id: y\n"), ("y3.yaml", "id: y\n")]);
    let err = discover(vec![d1, d2]).unwrap_err();
    let triples: Vec<(&str, &str, &str)> =
        err.iter().map(|e| (e.id.as_str(), e.first.as_str(), e.second.as_str())).collect();
    assert_eq!(
        triples,
        vec![
            ("x", "/t/one/x1.yaml", "/t/one/x2.yaml"),
            ("y", "/t/two/y1.yaml", "/t/two/y2.yaml"),
            ("y", "/t/two/y1.yaml", "/t/two/y3.yaml"),
        ]
    );
}

#[test]
fn schema_file_extensions() {
    assert!(is_schema_file("/t/png.yaml"));
    assert!(is_schema_file("/t/wav.yml"));
    assert!(is_schema_file("/t/a..yaml"));
    assert!(!is_schema_file("/t/.yaml"));
    assert!(!is_schema_file("/t/notes.txt"));
    assert!(!is_schema_file("/t/yaml"));
    assert!(!is_schema_file("/t/png.yaml.bak"));
    assert!(!is_schema_file("/t.yaml/x"));
}

#[test]
fn schema_listing_skips_unreadable_and_foreign_files() {
    let files = vec![
        ("/t/a.yaml".to_string(), Some(("a".to_string(), None))),
        ("/t/b.txt".to_string(), Some(("b".to_string(), None))),
        ("/t/c.yaml".to_string(), None),
        ("/t/d.yml".to_string(), Some(("d".to_string(), Some("dee".to_string())))),
    ];
    let listed = schema_listing(files);
    assert_eq!(
        listed,
        vec![
            ListedSchema { path: "/t/a.yaml".into(), id: "a".into(), doc: None },
            ListedSchema { path: "/t/d.yml".into(), id: "d".into(), doc: Some("dee".into()) },
        ]
    );
}

#[test]
fn expand_tilde_expands_home() {
    if dirs::home_dir().is_none() {
        return;
    }
    let expanded = expand_tilde("~/foo/bar");
    assert!(expanded.contains("foo/bar"));
    assert!(!expanded.starts_with("~/"));
}

#[test]
fn discover_types_nonexistent_dir_skipped() {
    // A directory that does not exist lists no schema files.
    let missing: Vec<ListedSchema> = dir_with("/nonexistent/path", &[]);
    let types = discover(vec![missing]).unwrap();
    assert!(types.is_empty());
}
