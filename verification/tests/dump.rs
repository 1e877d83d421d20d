use std::io::Write;

use modula::corpus::build_worklist;
use modula::dump::{dump_tables, DumpError};

fn tar_gz(entries: &[(&str, &str)]) -> Vec<u8> {
    let mut builder = tar::Builder::new(Vec::new());
    for (path, data) in entries {
        let mut header = tar::Header::new_gnu();
        header.set_size(data.len() as u64);
        header.set_mode(0o644);
        header.set_cksum();
        builder.append_data(&mut header, path, data.as_bytes()).unwrap();
    }
    gz(&builder.into_inner().unwrap())
}

fn gz(bytes: &[u8]) -> Vec<u8> {
    let mut enc = flate2::write::GzEncoder::new(Vec::new(), flate2::Compression::default());
    enc.write_all(bytes).unwrap();
    enc.finish().unwrap()
}

fn pairs(v: &[(String, String)]) -> Vec<(&str, &str)> {
    v.iter().map(|(a, b)| (a.as_str(), b.as_str())).collect()
}

fn sample_dump() -> Vec<u8> {
    tar_gz(&[
        ("2024-01-01/README.md", "not a table"),
        ("2024-01-01/data/crate_downloads.csv", "crate_id,downloads\n1,500\n2,90\n"),
        ("2024-01-01/data/crates.csv", "created_at,id,name\nx,1,serde\ny,2,rand\n"),
        ("2024-01-01/data/default_versions.csv", "crate_id,version_id\n1,10\n2,20\n"),
        ("2024-01-01/data/versions.csv", "id,crate_id,num\n10,1,1.0.0\n20,2,0.8.5\n"),
        ("2024-01-01/data/keywords.csv", "id,keyword\n1,json\n"),
    ])
}

#[test]
fn dump_tables_keeps_two_columns_of_each_table() {
    let t = dump_tables(&sample_dump()).unwrap();
    assert_eq!(pairs(&t.crate_downloads), vec![("1", "500"), ("2", "90")]);
    assert_eq!(pairs(&t.crates), vec![("1", "serde"), ("2", "rand")]);
    assert_eq!(pairs(&t.default_versions), vec![("1", "10"), ("2", "20")]);
    assert_eq!(pairs(&t.versions), vec![("10", "1.0.0"), ("20", "0.8.5")]);
}

#[test]
fn dump_tables_feeds_the_worklist() {
    let t = dump_tables(&sample_dump()).unwrap();
    let work = build_worklist(&t, 100);
    assert_eq!(work.len(), 1);
    assert_eq!(work[0].name, "serde");
    assert_eq!(work[0].version, "1.0.0");
    assert_eq!(work[0].downloads, 500);
}

#[test]
fn dump_tables_appends_a_repeated_table() {
    let dump = tar_gz(&[
        ("a/data/crates.csv", "id,name\n1,serde\n"),
        ("b/data/crates.csv", "name,id\nrand,2\n"),
    ]);
    let t = dump_tables(&dump).unwrap();
    assert_eq!(pairs(&t.crates), vec![("1", "serde"), ("2", "rand")]);
    assert!(t.versions.is_empty());
}

#[test]
fn dump_tables_skips_entries_outside_data() {
    let dump = tar_gz(&[("a/crates.csv", "no,header\n")]);
    let t = dump_tables(&dump).unwrap();
    assert!(t.crates.is_empty());
}

#[test]
fn dump_tables_rejects_bad_gzip() {
    assert_eq!(dump_tables(b"plain text").unwrap_err(), DumpError::Gzip);
}

#[test]
fn dump_tables_rejects_bad_tar() {
    assert_eq!(dump_tables(&gz(b"hello")).unwrap_err(), DumpError::Tar);
}

#[test]
fn dump_tables_reports_a_missing_column() {
    let dump = tar_gz(&[("a/data/versions.csv", "id,number\n1,1.0\n")]);
    assert_eq!(dump_tables(&dump).unwrap_err(), DumpError::NoColumn("num".to_string()));
}

#[test]
fn dump_tables_reports_a_ragged_csv() {
    let dump = tar_gz(&[("a/data/crates.csv", "id,name\n1\n")]);
    assert_eq!(dump_tables(&dump).unwrap_err(), DumpError::Csv);
}
