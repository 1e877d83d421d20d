//! Reading the crates.io database dump: a gzipped tar of CSV tables, of which
//! the work-list needs two columns of four tables. Decompression, the tar
//! format and CSV records are read by the `flate2`, `tar` and `csv` crates;
//! which tables and columns are kept is decided here.

use vstd::prelude::*;
use crate::corpus::{row_views, DumpTables, Rows};
use crate::scip_lower::str_views;
use crate::text::{chars_of, str_eq, string_of_range};

verus! {

/// What gzip decompression of `gz` gives (its first member), when it is well
/// formed.
pub uninterp spec fn gunzip(gz: Seq<u8>) -> Option<Seq<u8>>;

/// The entries of the tar archive `tar`, in order: each one's path (read
/// lossily as text) and contents, when the archive is well formed.
pub uninterp spec fn tar_files(tar: Seq<u8>) -> Option<Seq<(Seq<char>, Seq<u8>)>>;

/// The records of the CSV text `csv`, header row included, each as its
/// fields, when every record parses and has as many fields as the first.
pub uninterp spec fn csv_records(csv: Seq<u8>) -> Option<Seq<Seq<Seq<char>>>>;

/// Decompresses gzip data (`flate2::read::GzDecoder`, read to the end).
#[verifier::external_body]
fn gunzip_bytes(gz: &[u8]) -> (r: Option<Vec<u8>>)
    ensures
        match r {
            Some(v) => gunzip(gz@) == Some(v@),
            None => gunzip(gz@) is None,
        },
{
    let mut out = Vec::new();
    std::io::Read::read_to_end(&mut flate2::read::GzDecoder::new(gz), &mut out).ok()?;
    Some(out)
}

/// The entries of a tar archive (`tar::Archive::entries`), each with its path
/// (`Entry::path`, read lossily) and contents.
#[verifier::external_body]
fn tar_entries(tar: &[u8]) -> (r: Option<Vec<(String, Vec<u8>)>>)
    ensures
        match r {
            Some(v) => tar_files(tar@) == Some(v@.map_values(|e: (String, Vec<u8>)| (e.0@, e.1@))),
            None => tar_files(tar@) is None,
        },
{
    let mut archive = tar::Archive::new(tar);
    let mut out = Vec::new();
    for entry in archive.entries().ok()? {
        let mut entry = entry.ok()?;
        let path = entry.path().ok()?.to_string_lossy().into_owned();
        let mut data = Vec::new();
        std::io::Read::read_to_end(&mut entry, &mut data).ok()?;
        out.push((path, data));
    }
    Some(out)
}

/// The records of CSV text (`csv::ReaderBuilder` without a header row), each
/// as its fields.
#[verifier::external_body]
fn csv_rows(csv: &[u8]) -> (r: Option<Vec<Vec<String>>>)
    ensures
        match r {
            Some(v) => csv_records(csv@) == Some(v@.map_values(|row: Vec<String>| str_views(row@))),
            None => csv_records(csv@) is None,
        },
{
    let mut reader = csv::ReaderBuilder::new().has_headers(false).from_reader(csv);
    let mut rows = Vec::new();
    for record in reader.records() {
        rows.push(record.ok()?.iter().map(|f| f.to_owned()).collect());
    }
    Some(rows)
}

/// Why the dump could not be read.
#[derive(Clone, Debug, PartialEq, Eq)]
pub enum DumpError {
    /// The gzip layer is malformed.
    Gzip,
    /// The tar layer is malformed.
    Tar,
    /// A kept table is not well-formed CSV.
    Csv,
    /// A kept table has no column of this name.
    NoColumn(String),
}

/// The mathematical value of a [`DumpError`].
pub enum DumpErrorView {
    Gzip,
    Tar,
    Csv,
    NoColumn(Seq<char>),
}

impl View for DumpError {
    type V = DumpErrorView;

    open spec fn view(&self) -> DumpErrorView {
        match self {
            DumpError::Gzip => DumpErrorView::Gzip,
            DumpError::Tar => DumpErrorView::Tar,
            DumpError::Csv => DumpErrorView::Csv,
            DumpError::NoColumn(c) => DumpErrorView::NoColumn(c@),
        }
    }
}

/// The four kept tables, by value.
pub struct TablesView {
    pub crate_downloads: Rows,
    pub crates: Rows,
    pub default_versions: Rows,
    pub versions: Rows,
}

/// The tables of a [`DumpTables`], by value.
pub open spec fn tables_view(t: DumpTables) -> TablesView {
    TablesView {
        crate_downloads: row_views(t.crate_downloads@),
        crates: row_views(t.crates@),
        default_versions: row_views(t.default_versions@),
        versions: row_views(t.versions@),
    }
}

/// The first position at or after `i` where `pat` occurs in `s`.
pub open spec fn find_from(s: Seq<char>, pat: Seq<char>, i: int) -> Option<int>
    decreases s.len() + 1 - i,
{
    if i < 0 || i > s.len() || i + pat.len() > s.len() {
        None
    } else if s.subrange(i, i + pat.len()) == pat {
        Some(i)
    } else {
        find_from(s, pat, i + 1)
    }
}

/// The table a dump path names: the part after the first `/data/`, up to the
/// next `/data/` if there is one (dump paths look like
/// `<stamp>/data/<table>.csv`).
pub open spec fn data_table(path: Seq<char>) -> Option<Seq<char>> {
    match find_from(path, "/data/"@, 0) {
        None => None,
        Some(i) => {
            let start = i + 6;
            match find_from(path, "/data/"@, start) {
                Some(j) => Some(path.subrange(start, j)),
                None => Some(path.subrange(start, path.len() as int)),
            }
        },
    }
}

/// The first position at or after `i` of `name` in a header row.
pub open spec fn column_of(header: Seq<Seq<char>>, name: Seq<char>, i: int) -> Option<int>
    decreases header.len() - i,
{
    if i < 0 || i >= header.len() {
        None
    } else if header[i] == name {
        Some(i)
    } else {
        column_of(header, name, i + 1)
    }
}

/// The (column `ia`, column `ib`) values of records 1 to `n - 1` that have
/// both fields.
pub open spec fn pairs_upto(rows: Seq<Seq<Seq<char>>>, ia: int, ib: int, n: int) -> Rows
    decreases n,
{
    if n <= 1 {
        Seq::empty()
    } else {
        let p = pairs_upto(rows, ia, ib, n - 1);
        let row = rows[n - 1];
        if 0 <= ia < row.len() && 0 <= ib < row.len() {
            p.push((row[ia], row[ib]))
        } else {
            p
        }
    }
}

/// Columns `a` and `b` of a CSV table whose first record is its header.
pub open spec fn table_columns(csv: Seq<u8>, a: Seq<char>, b: Seq<char>) -> Result<Rows, DumpErrorView> {
    match csv_records(csv) {
        None => Err(DumpErrorView::Csv),
        Some(rows) => {
            let header = if rows.len() == 0 { Seq::empty() } else { rows[0] };
            match (column_of(header, a, 0), column_of(header, b, 0)) {
                (None, _) => Err(DumpErrorView::NoColumn(a)),
                (Some(_), None) => Err(DumpErrorView::NoColumn(b)),
                (Some(ia), Some(ib)) => Ok(pairs_upto(rows, ia, ib, rows.len() as int)),
            }
        },
    }
}

/// No table read yet.
pub open spec fn no_tables() -> TablesView {
    TablesView { crate_downloads: Seq::empty(), crates: Seq::empty(), default_versions: Seq::empty(), versions: Seq::empty() }
}

/// Reading one tar entry into the tables: a kept table's two columns are
/// appended to what earlier entries of the same table gave; other entries are
/// skipped.
pub open spec fn read_entry(t: TablesView, entry: (Seq<char>, Seq<u8>)) -> Result<TablesView, DumpErrorView> {
    match data_table(entry.0) {
        Some(name) => if name == "crate_downloads.csv"@ {
            match table_columns(entry.1, "crate_id"@, "downloads"@) {
                Ok(rows) => Ok(TablesView { crate_downloads: t.crate_downloads + rows, ..t }),
                Err(e) => Err(e),
            }
        } else if name == "crates.csv"@ {
            match table_columns(entry.1, "id"@, "name"@) {
                Ok(rows) => Ok(TablesView { crates: t.crates + rows, ..t }),
                Err(e) => Err(e),
            }
        } else if name == "default_versions.csv"@ {
            match table_columns(entry.1, "crate_id"@, "version_id"@) {
                Ok(rows) => Ok(TablesView { default_versions: t.default_versions + rows, ..t }),
                Err(e) => Err(e),
            }
        } else if name == "versions.csv"@ {
            match table_columns(entry.1, "id"@, "num"@) {
                Ok(rows) => Ok(TablesView { versions: t.versions + rows, ..t }),
                Err(e) => Err(e),
            }
        } else {
            Ok(t)
        },
        None => Ok(t),
    }
}

/// The tables after the first `n` tar entries, or the first error.
pub open spec fn tables_upto(files: Seq<(Seq<char>, Seq<u8>)>, n: int) -> Result<TablesView, DumpErrorView>
    decreases n,
{
    if n <= 0 {
        Ok(no_tables())
    } else {
        match tables_upto(files, n - 1) {
            Ok(t) => read_entry(t, files[n - 1]),
            Err(e) => Err(e),
        }
    }
}

/// Views of an appended row list.
proof fn lemma_row_views_append(a: Seq<(String, String)>, b: Seq<(String, String)>)
    ensures
        row_views(a + b) == row_views(a) + row_views(b),
{
    assert(row_views(a + b) =~= row_views(a) + row_views(b));
}

/// Once reading fails, it stays failed with that error.
proof fn lemma_tables_upto_err(files: Seq<(Seq<char>, Seq<u8>)>, k: int, m: int)
    requires
        k <= m,
        tables_upto(files, k) is Err,
    ensures
        tables_upto(files, m) == tables_upto(files, k),
    decreases m - k,
{
    if m > k {
        lemma_tables_upto_err(files, k, m - 1);
    }
}

/// What a gzipped dump reads to.
pub open spec fn dump_result(gz: Seq<u8>) -> Result<TablesView, DumpErrorView> {
    match gunzip(gz) {
        None => Err(DumpErrorView::Gzip),
        Some(tar) => match tar_files(tar) {
            None => Err(DumpErrorView::Tar),
            Some(files) => tables_upto(files, files.len() as int),
        },
    }
}

/// Whether `pat` occurs in `s` at `i`.
fn occurs_at(s: &Vec<char>, pat: &Vec<char>, i: usize) -> (r: bool)
    requires
        i + pat@.len() <= s@.len(),
    ensures
        r == (s@.subrange(i as int, i + pat@.len()) == pat@),
{
    let n = s.len();
    let mut k: usize = 0;
    while k < pat.len()
        invariant
            k <= pat@.len(),
            n == s@.len(),
            i + pat@.len() <= s@.len(),
            s@.subrange(i as int, i + k) == pat@.take(k as int),
        decreases pat@.len() - k,
    {
        assert(i + k < n);
        if s[i + k] != pat[k] {
            assert(s@.subrange(i as int, i + pat@.len())[k as int] != pat@[k as int]);
            return false;
        }
        assert(s@.subrange(i as int, i + k + 1) =~= s@.subrange(i as int, i + k).push(s@[i + k]));
        assert(pat@.take(k + 1) =~= pat@.take(k as int).push(pat@[k as int]));
        k = k + 1;
    }
    assert(pat@.take(pat@.len() as int) =~= pat@);
    true
}

/// The first position at or after `start` where `pat` occurs in `s`.
fn find_from_exec(s: &Vec<char>, pat: &Vec<char>, start: usize) -> (r: Option<usize>)
    ensures
        match r {
            Some(i) => find_from(s@, pat@, start as int) == Some(i as int) && i + pat@.len() <= s@.len(),
            None => find_from(s@, pat@, start as int) is None,
        },
{
    let mut i = start;
    while i <= s.len() && pat.len() <= s.len() - i
        invariant
            start <= i,
            find_from(s@, pat@, start as int) == find_from(s@, pat@, i as int),
        decreases s@.len() + 1 - i,
    {
        if occurs_at(s, pat, i) {
            return Some(i);
        }
        assert(find_from(s@, pat@, i as int) == find_from(s@, pat@, i + 1));
        if i == s.len() {
            assert(find_from(s@, pat@, i + 1) is None);
            return None;
        }
        i = i + 1;
    }
    None
}

/// The table name a dump path names (see [`data_table`]).
fn data_table_of(path: &str) -> (r: Option<String>)
    ensures
        match r {
            Some(t) => data_table(path@) == Some(t@),
            None => data_table(path@) is None,
        },
{
    let s = chars_of(path);
    let n = s.len();
    let pat = chars_of("/data/");
    proof {
        reveal_strlit("/data/");
        assert(pat@.len() == 6);
    }
    match find_from_exec(&s, &pat, 0) {
        None => None,
        Some(i) => {
            let start = i + 6;
            match find_from_exec(&s, &pat, start) {
                Some(j) => {
                    proof {
                        lemma_find_from_at_least(s@, pat@, start as int);
                    }
                    Some(string_of_range(&s, start, j))
                },
                None => Some(string_of_range(&s, start, s.len())),
            }
        },
    }
}

/// A position found at or after `i` is at least `i`.
proof fn lemma_find_from_at_least(s: Seq<char>, pat: Seq<char>, i: int)
    ensures
        find_from(s, pat, i) matches Some(j) ==> i <= j && j + pat.len() <= s.len(),
    decreases s.len() + 1 - i,
{
    if !(i < 0 || i > s.len() || i + pat.len() > s.len()) && s.subrange(i, i + pat.len()) != pat {
        lemma_find_from_at_least(s, pat, i + 1);
    }
}

/// The first position of `name` in a header row.
fn column_index(header: &Vec<String>, name: &str) -> (r: Option<usize>)
    ensures
        match r {
            Some(i) => column_of(str_views(header@), name@, 0) == Some(i as int) && i < header@.len(),
            None => column_of(str_views(header@), name@, 0) is None,
        },
{
    let ghost h = str_views(header@);
    let mut i: usize = 0;
    while i < header.len()
        invariant
            i <= header@.len(),
            h == str_views(header@),
            h.len() == header@.len(),
            column_of(h, name@, 0) == column_of(h, name@, i as int),
        decreases header@.len() - i,
    {
        assert(h[i as int] == header@[i as int]@);
        if str_eq(header[i].as_str(), name) {
            return Some(i);
        }
        i = i + 1;
    }
    None
}

/// Columns `a` and `b` of a CSV table (see [`table_columns`]).
fn two_columns(csv: &[u8], a: &str, b: &str) -> (r: Result<Vec<(String, String)>, DumpError>)
    ensures
        match table_columns(csv@, a@, b@) {
            Ok(rows) => r matches Ok(v) && row_views(v@) == rows,
            Err(e) => r matches Err(x) && x@ == e,
        },
{
    let rows = match csv_rows(csv) {
        Some(rows) => rows,
        None => return Err(DumpError::Csv),
    };
    let ghost rv = rows@.map_values(|row: Vec<String>| str_views(row@));
    let empty: Vec<String> = Vec::new();
    let header: &Vec<String> = if rows.len() == 0 { &empty } else { &rows[0] };
    assert(str_views(header@) == if rv.len() == 0 { Seq::<Seq<char>>::empty() } else { rv[0] });
    let ia = match column_index(header, a) {
        Some(i) => i,
        None => return Err(DumpError::NoColumn(a.to_owned())),
    };
    let ib = match column_index(header, b) {
        Some(i) => i,
        None => return Err(DumpError::NoColumn(b.to_owned())),
    };
    let mut out: Vec<(String, String)> = Vec::new();
    let mut n: usize = 1;
    assert(row_views(out@) =~= pairs_upto(rv, ia as int, ib as int, 1));
    while n < rows.len()
        invariant
            1 <= n,
            n <= rows@.len() || rows@.len() == 0,
            rv == rows@.map_values(|row: Vec<String>| str_views(row@)),
            rv.len() == rows@.len(),
            row_views(out@) == pairs_upto(rv, ia as int, ib as int, n as int),
        decreases rows@.len() - n,
    {
        let row = &rows[n];
        let ghost before = out@;
        assert(rv[n as int] == str_views(row@));
        if ia < row.len() && ib < row.len() {
            out.push((row[ia].clone(), row[ib].clone()));
            assert(row_views(out@) =~= row_views(before).push((rv[n as int][ia as int], rv[n as int][ib as int])));
        }
        n = n + 1;
    }
    proof {
        if rows@.len() > 0 {
            assert(n == rows@.len());
        }
    }
    Ok(out)
}

/// Reads the four tables the work-list joins from a gzipped crates.io dump:
/// columns `crate_id` and `downloads` of `crate_downloads.csv`, `id` and
/// `name` of `crates.csv`, `crate_id` and `version_id` of
/// `default_versions.csv`, and `id` and `num` of `versions.csv`, each gathered,
/// in order, from every entry of its name under a `/data/` directory.
pub fn dump_tables(dump_gz: &[u8]) -> (r: Result<DumpTables, DumpError>)
    ensures
        match dump_result(dump_gz@) {
            Ok(t) => r matches Ok(x) && tables_view(x) == t,
            Err(e) => r matches Err(x) && x@ == e,
        },
{
    let tar = match gunzip_bytes(dump_gz) {
        Some(t) => t,
        None => return Err(DumpError::Gzip),
    };
    let files = match tar_entries(tar.as_slice()) {
        Some(f) => f,
        None => return Err(DumpError::Tar),
    };
    let ghost fv = files@.map_values(|e: (String, Vec<u8>)| (e.0@, e.1@));
    let mut tables = DumpTables { crate_downloads: Vec::new(), crates: Vec::new(), default_versions: Vec::new(), versions: Vec::new() };
    assert(tables_view(tables) =~= no_tables()) by {
        assert(row_views(tables.crate_downloads@) =~= Seq::empty());
        assert(row_views(tables.crates@) =~= Seq::empty());
        assert(row_views(tables.default_versions@) =~= Seq::empty());
        assert(row_views(tables.versions@) =~= Seq::empty());
    }
    proof {
        reveal_strlit("crate_downloads.csv");
        reveal_strlit("crates.csv");
        reveal_strlit("default_versions.csv");
        reveal_strlit("versions.csv");
    }
    let mut k: usize = 0;
    while k < files.len()
        invariant
            k <= files@.len(),
            fv == files@.map_values(|e: (String, Vec<u8>)| (e.0@, e.1@)),
            fv.len() == files@.len(),
            dump_result(dump_gz@) == tables_upto(fv, fv.len() as int),
            tables_upto(fv, k as int) == Ok::<TablesView, DumpErrorView>(tables_view(tables)),
        decreases files@.len() - k,
    {
        let (path, data) = (&files[k].0, &files[k].1);
        assert(fv[k as int] == (path@, data@));
        let name = match data_table_of(path.as_str()) {
            Some(n) => n,
            None => {
                k = k + 1;
                continue;
            },
        };
        if str_eq(name.as_str(), "crate_downloads.csv") {
            match two_columns(data.as_slice(), "crate_id", "downloads") {
                Ok(mut rows) => {
                    proof { lemma_row_views_append(tables.crate_downloads@, rows@); }
                    tables.crate_downloads.append(&mut rows);
                },
                Err(e) => {
                    proof {
                        assert(tables_upto(fv, k + 1) == read_entry(tables_view(tables), fv[k as int]));
                        assert(tables_upto(fv, k + 1) == Err::<TablesView, DumpErrorView>(e@));
                        lemma_tables_upto_err(fv, k + 1, fv.len() as int);
                    }
                    return Err(e);
                },
            }
        } else if str_eq(name.as_str(), "crates.csv") {
            match two_columns(data.as_slice(), "id", "name") {
                Ok(mut rows) => {
                    proof { lemma_row_views_append(tables.crates@, rows@); }
                    tables.crates.append(&mut rows);
                },
                Err(e) => {
                    proof {
                        assert(tables_upto(fv, k + 1) == read_entry(tables_view(tables), fv[k as int]));
                        assert(tables_upto(fv, k + 1) == Err::<TablesView, DumpErrorView>(e@));
                        lemma_tables_upto_err(fv, k + 1, fv.len() as int);
                    }
                    return Err(e);
                },
            }
        } else if str_eq(name.as_str(), "default_versions.csv") {
            match two_columns(data.as_slice(), "crate_id", "version_id") {
                Ok(mut rows) => {
                    proof { lemma_row_views_append(tables.default_versions@, rows@); }
                    tables.default_versions.append(&mut rows);
                },
                Err(e) => {
                    proof {
                        assert(tables_upto(fv, k + 1) == read_entry(tables_view(tables), fv[k as int]));
                        assert(tables_upto(fv, k + 1) == Err::<TablesView, DumpErrorView>(e@));
                        lemma_tables_upto_err(fv, k + 1, fv.len() as int);
                    }
                    return Err(e);
                },
            }
        } else if str_eq(name.as_str(), "versions.csv") {
            match two_columns(data.as_slice(), "id", "num") {
                Ok(mut rows) => {
                    proof { lemma_row_views_append(tables.versions@, rows@); }
                    tables.versions.append(&mut rows);
                },
                Err(e) => {
                    proof {
                        assert(tables_upto(fv, k + 1) == read_entry(tables_view(tables), fv[k as int]));
                        assert(tables_upto(fv, k + 1) == Err::<TablesView, DumpErrorView>(e@));
                        lemma_tables_upto_err(fv, k + 1, fv.len() as int);
                    }
                    return Err(e);
                },
            }
        }
        k = k + 1;
    }
    Ok(tables)
}


/// A search from `i` finds `m` when `pat` occurs at `m` and no position from
/// `i` up to `m` holds `pat`'s first character.
proof fn lemma_find_from_at(s: Seq<char>, pat: Seq<char>, i: int, m: int)
    requires
        0 <= i <= m,
        pat.len() > 0,
        m + pat.len() <= s.len(),
        s.subrange(m, m + pat.len()) == pat,
        forall|k: int| i <= k < m ==> s[k] != pat[0],
    ensures
        find_from(s, pat, i) == Some(m),
    decreases m - i,
{
    if i < m {
        assert(s.subrange(i, i + pat.len())[0] == s[i]);
        lemma_find_from_at(s, pat, i + 1, m);
    }
}

/// A search from `i` finds nothing when no position from `i` on holds
/// `pat`'s first character.
proof fn lemma_find_from_none(s: Seq<char>, pat: Seq<char>, i: int)
    requires
        0 <= i,
        pat.len() > 0,
        forall|k: int| i <= k < s.len() ==> s[k] != pat[0],
    ensures
        find_from(s, pat, i) is None,
    decreases s.len() + 1 - i,
{
    if !(i < 0 || i > s.len() || i + pat.len() > s.len()) {
        assert(s.subrange(i, i + pat.len())[0] == s[i]);
        lemma_find_from_none(s, pat, i + 1);
    }
}

/// Law: a dump path `STAMP/data/TABLE`, where neither `STAMP` nor `TABLE`
/// holds a `/`, names the table `TABLE`; a path with no `/` names none.
pub proof fn law_dump_path_table(stamp: Seq<char>, table: Seq<char>, plain: Seq<char>)
    ensures
        !stamp.contains('/') && !table.contains('/') ==> data_table(stamp + "/data/"@ + table) == Some(table),
        !plain.contains('/') ==> data_table(plain) is None,
{
    reveal_strlit("/data/");
    let pat = "/data/"@;
    assert(pat.len() == 6 && pat[0] == '/');
    if !stamp.contains('/') && !table.contains('/') {
        let path = stamp + pat + table;
        let m = stamp.len() as int;
        assert(path.subrange(m, m + 6) =~= pat);
        assert forall|k: int| 0 <= k < m implies path[k] != pat[0] by {
            assert(path[k] == stamp[k]);
        }
        lemma_find_from_at(path, pat, 0, m);
        assert forall|k: int| m + 6 <= k < path.len() implies path[k] != pat[0] by {
            assert(path[k] == table[k - m - 6]);
        }
        lemma_find_from_none(path, pat, m + 6);
        assert(path.subrange(m + 6, path.len() as int) =~= table);
    }
    if !plain.contains('/') {
        assert forall|k: int| 0 <= k < plain.len() implies plain[k] != pat[0] by {
            assert(plain.contains(plain[k]));
        }
        lemma_find_from_none(plain, pat, 0);
    }
}

/// Law: what one tar entry adds to the tables. `crate_downloads.csv` adds
/// its `crate_id` and `downloads` columns to the download rows,
/// `crates.csv` its `id` and `name` to the crate rows,
/// `default_versions.csv` its `crate_id` and `version_id` to the
/// default-version rows and `versions.csv` its `id` and `num` to the version
/// rows, each after the rows earlier entries gave and leaving the other
/// tables as they were, or fails as reading those columns fails; any other
/// entry changes nothing.
pub proof fn law_dump_entry_tables(t: TablesView, path: Seq<char>, csv: Seq<u8>)
    ensures
        data_table(path) == Some("crate_downloads.csv"@) ==> read_entry(t, (path, csv)) == match table_columns(csv, "crate_id"@, "downloads"@) {
            Ok(rows) => Ok(TablesView { crate_downloads: t.crate_downloads + rows, ..t }),
            Err(e) => Err(e),
        },
        data_table(path) == Some("crates.csv"@) ==> read_entry(t, (path, csv)) == match table_columns(csv, "id"@, "name"@) {
            Ok(rows) => Ok(TablesView { crates: t.crates + rows, ..t }),
            Err(e) => Err(e),
        },
        data_table(path) == Some("default_versions.csv"@) ==> read_entry(t, (path, csv)) == match table_columns(csv, "crate_id"@, "version_id"@) {
            Ok(rows) => Ok(TablesView { default_versions: t.default_versions + rows, ..t }),
            Err(e) => Err(e),
        },
        data_table(path) == Some("versions.csv"@) ==> read_entry(t, (path, csv)) == match table_columns(csv, "id"@, "num"@) {
            Ok(rows) => Ok(TablesView { versions: t.versions + rows, ..t }),
            Err(e) => Err(e),
        },
        !(data_table(path) == Some("crate_downloads.csv"@) || data_table(path) == Some("crates.csv"@)
            || data_table(path) == Some("default_versions.csv"@) || data_table(path) == Some("versions.csv"@))
            ==> read_entry(t, (path, csv)) == Ok::<TablesView, DumpErrorView>(t),
{
    reveal_strlit("crate_downloads.csv");
    reveal_strlit("crates.csv");
    reveal_strlit("default_versions.csv");
    reveal_strlit("versions.csv");
    assert("crates.csv"@ != "crate_downloads.csv"@) by {
        assert("crates.csv"@.len() != "crate_downloads.csv"@.len());
    }
    assert("default_versions.csv"@ != "crate_downloads.csv"@) by {
        assert("default_versions.csv"@[0] != "crate_downloads.csv"@[0]);
    }
    assert("default_versions.csv"@ != "crates.csv"@) by {
        assert("default_versions.csv"@[0] != "crates.csv"@[0]);
    }
    assert("versions.csv"@ != "crate_downloads.csv"@) by {
        assert("versions.csv"@[0] != "crate_downloads.csv"@[0]);
    }
    assert("versions.csv"@ != "crates.csv"@) by {
        assert("versions.csv"@[0] != "crates.csv"@[0]);
    }
    assert("versions.csv"@ != "default_versions.csv"@) by {
        assert("versions.csv"@[0] != "default_versions.csv"@[0]);
    }
}

} // verus!
