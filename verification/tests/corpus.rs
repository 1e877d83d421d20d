use modula::corpus::{
    build_jobs, color_groups, failure_message, container_path, counts, db_file, ir_file_name, label_of, needs_conversion,
    outcome_status, with_suffix, build_worklist, CrateVersion, DumpTables, ExtractArgs, WorkerOutcome,
};

#[test]
fn counts_reads_array_lengths() {
    let json = br#"{"items":[1,2,3],"modules":[1],"edges":[],"extra":9}"#;
    assert_eq!(counts(json), Some((3, 1, 0)));
}

#[test]
fn counts_rejects_malformed_or_incomplete_ir() {
    assert_eq!(counts(b"{}"), None);
    assert_eq!(counts(b"not json"), None);
    assert_eq!(counts(br#"{"items":[],"modules":[]}"#), None);
}

#[test]
fn counts_needs_arrays() {
    assert_eq!(counts(br#"{"items":3,"modules":[],"edges":[]}"#), None);
    assert_eq!(counts(br#"[1,2]"#), None);
}

#[test]
fn the_database_lives_under_the_root_unless_absolute() {
    assert_eq!(db_file("/corpus", "modula.db"), "/corpus/modula.db");
    assert_eq!(db_file("/corpus/", "modula.db"), "/corpus/modula.db");
    assert_eq!(db_file("/corpus", "/var/db/modula.db"), "/var/db/modula.db");
    assert_eq!(db_file("", "modula.db"), "modula.db");
}

#[test]
fn build_jobs_share_the_cores() {
    assert_eq!(build_jobs(16, 4), 4);
    assert_eq!(build_jobs(16, 0), 16);
    assert_eq!(build_jobs(1, 1), 2);
    assert_eq!(build_jobs(8, 8), 2);
    assert_eq!(build_jobs(7, 2), 3);
}

fn rows(pairs: &[(&str, &str)]) -> Vec<(String, String)> {
    pairs.iter().map(|(a, b)| (a.to_string(), b.to_string())).collect()
}

#[test]
fn worklist_joins_filters_and_ranks() {
    let tables = DumpTables {
        crate_downloads: rows(&[("1", "500"), ("2", "900"), ("3", "10"), ("4", "500"), ("x", "999"), ("5", "700")]),
        crates: rows(&[("1", "serde"), ("2", "rand"), ("3", "tiny"), ("4", "anyhow"), ("5", "orphan")]),
        default_versions: rows(&[("1", "11"), ("2", "22"), ("3", "33"), ("4", "44"), ("5", "55")]),
        versions: rows(&[("11", "1.0.0"), ("22", "0.9.0"), ("33", "0.1.0"), ("44", "1.0.86")]),
    };
    let work = build_worklist(&tables, 100);
    let got: Vec<(String, String, i64)> = work.into_iter().map(|c| (c.name, c.version, c.downloads)).collect();
    assert_eq!(
        got,
        vec![
            ("rand".to_owned(), "0.9.0".to_owned(), 900),
            ("anyhow".to_owned(), "1.0.86".to_owned(), 500),
            ("serde".to_owned(), "1.0.0".to_owned(), 500),
        ]
    );
}

#[test]
fn later_rows_replace_earlier_ones() {
    let tables = DumpTables {
        crate_downloads: rows(&[("1", "5"), ("1", "50")]),
        crates: rows(&[("1", "old"), ("1", "new")]),
        default_versions: rows(&[("1", "7")]),
        versions: rows(&[("7", "2.0.0")]),
    };
    let work = build_worklist(&tables, 0);
    assert_eq!(work.len(), 1);
    assert_eq!((work[0].name.as_str(), work[0].version.as_str(), work[0].downloads), ("new", "2.0.0", 50));
}

#[test]
fn labels_take_the_head_of_the_first_entry() {
    let kw = Some("parser,serde".to_owned());
    let cat = Some("encoding::binary,no-std".to_owned());
    assert_eq!(label_of(&kw, &cat, "keyword"), Some("parser".to_owned()));
    assert_eq!(label_of(&kw, &cat, "category"), Some("encoding".to_owned()));
    assert_eq!(label_of(&None, &cat, "keyword"), None);
    assert_eq!(label_of(&Some(",x".to_owned()), &None, "keyword"), None);
    assert_eq!(label_of(&None, &Some("::a".to_owned()), "category"), None);
}

#[test]
fn color_groups_rank_the_most_frequent_labels() {
    let l = |s: &str| Some(s.to_owned());
    let labels = vec![l("b"), l("a"), None, l("b"), l("c"), l("a"), l("b")];
    let (groups, of) = color_groups(&labels);
    assert_eq!(groups, vec!["b", "a", "c", "other"]);
    assert_eq!(of, vec![0, 1, 3, 0, 2, 1, 0]);
}

#[test]
fn color_groups_keep_nine_and_pool_the_rest() {
    let names = ["j", "i", "h", "g", "f", "e", "d", "c", "b", "a", "k"];
    let labels: Vec<Option<String>> = names.iter().map(|n| Some(n.to_string())).collect();
    let (groups, of) = color_groups(&labels);
    assert_eq!(groups, vec!["a", "b", "c", "d", "e", "f", "g", "h", "i", "other"]);
    assert_eq!(of[0], 9, "j is the tenth by name");
    assert_eq!(of[9], 0);
    assert_eq!(of[10], 9);
}

#[test]
fn legacy_dumps_convert_beside_themselves() {
    assert_eq!(container_path("/ir/serde-1.0.0.ir.json"), "/ir/serde-1.0.0.bin.zst");
    assert_eq!(container_path("/ir/odd.json"), "/ir/odd.json.bin.zst");
    assert!(needs_conversion(&Some("/ir/a-1.ir.json".to_owned())));
    assert!(!needs_conversion(&Some("/ir/a-1.bin.zst".to_owned())));
    assert!(!needs_conversion(&None));
    assert_eq!(ir_file_name("serde", "1.0.0"), "serde-1.0.0.ir.json");
    assert_eq!(with_suffix("plots/embed", "-pca.svg"), "plots/embed-pca.svg");
}

#[test]
fn worker_outcomes_become_row_statuses() {
    let t = outcome_status(&WorkerOutcome::Timeout, 300);
    assert_eq!((t.status.as_str(), t.error.as_deref()), ("timeout", Some("exceeded 300s")));
    let s = outcome_status(&WorkerOutcome::Spawn("no exe".to_owned()), 1);
    assert_eq!((s.status.as_str(), s.error.as_deref()), ("spawn_fail", Some("no exe")));
    let f = outcome_status(&WorkerOutcome::Failed("panicked".to_owned()), 1);
    assert_eq!((f.status.as_str(), f.error.as_deref()), ("extract_fail", Some("panicked")));
    let ok = outcome_status(&WorkerOutcome::Succeeded(br#"{"items":[1],"modules":[],"edges":[2,3]}"#.to_vec()), 1);
    assert_eq!((ok.status.as_str(), ok.error, ok.counts), ("ok", None, Some((1, 0, 2))));
    let bad = outcome_status(&WorkerOutcome::Succeeded(b"{}".to_vec()), 1);
    assert_eq!(bad.status, "parse_fail");
    assert_eq!(bad.error.as_deref(), Some("IR JSON missing expected arrays"));
}

#[test]
fn extract_args_and_crate_versions_hold_their_values() {
    let a = ExtractArgs {
        root: "/corpus".to_owned(),
        db_path: "modula.db".to_owned(),
        min_downloads: 1000,
        jobs: 4,
        timeout_secs: 600,
        limit: Some(10),
    };
    assert_eq!(db_file(&a.root, &a.db_path), "/corpus/modula.db");
    let c = CrateVersion { name: "serde".to_owned(), version: "1.0.0".to_owned(), downloads: 5 };
    assert_eq!(c.clone().name, "serde");
}

#[test]
fn failure_message_is_the_last_non_blank_stderr_line() {
    assert_eq!(failure_message("warning: a\nerror: boom\n\n  \n", Some(1)), "error: boom");
    assert_eq!(failure_message("first\r\nsecond\r\n", Some(1)), "second");
    assert_eq!(failure_message("only line", None), "only line");
    assert_eq!(failure_message("a\n\u{3000}\t", Some(2)), "a");
}

#[test]
fn failure_message_falls_back_to_the_exit_code() {
    assert_eq!(failure_message("", Some(101)), "exit Some(101)");
    assert_eq!(failure_message(" \n\t\n", Some(-3)), "exit Some(-3)");
    assert_eq!(failure_message("", None), "exit None");
    assert_eq!(failure_message("", Some(101)), format!("exit {:?}", Some(101)));
}

#[test]
fn worklist_ids_and_counts_parse_as_std_does() {
    let tables = DumpTables {
        crate_downloads: rows(&[("+1", "0500"), ("2", "9223372036854775808"), ("3 ", "700"), ("4", "-"), ("5", "9223372036854775807")]),
        crates: rows(&[("1", "one"), ("2", "two"), ("3", "three"), ("4", "four"), ("5", "five")]),
        default_versions: rows(&[("1", "10"), ("2", "20"), ("3", "30"), ("4", "40"), ("5", "50")]),
        versions: rows(&[("10", "1.0.0"), ("20", "2.0.0"), ("30", "3.0.0"), ("40", "4.0.0"), ("50", "5.0.0")]),
    };
    let work = build_worklist(&tables, 100);
    let names: Vec<(&str, i64)> = work.iter().map(|c| (c.name.as_str(), c.downloads)).collect();
    assert_eq!(names, vec![("five", i64::MAX), ("one", 500)]);
    assert_eq!("+1".parse::<i64>(), Ok(1));
    assert!("9223372036854775808".parse::<i64>().is_err());
}

#[test]
fn download_and_write_failures_have_their_statuses() {
    let d = outcome_status(&WorkerOutcome::DownloadFailed("404 Not Found".to_owned()), 1);
    assert_eq!(d.status, "download_fail");
    assert_eq!(d.error.as_deref(), Some("404 Not Found"));
    assert!(d.counts.is_none());
    let w = outcome_status(&WorkerOutcome::WriteFailed("disk full".to_owned()), 1);
    assert_eq!(w.status, "extract_fail");
    assert_eq!(w.error.as_deref(), Some("writing IR: disk full"));
    assert!(w.counts.is_none());
}
