//! The corpus pipeline's decisions: where the database lives, how many build
//! threads a worker gets, what a worker's outcome records, which IR dumps need
//! converting and where they go, how a crate is labeled for plotting, and the
//! download-ranked work-list joined from the crates.io database dump.

use vstd::prelude::*;
use crate::text::{chars_of, concat, decimal_i32, decimal_u64, join3, last_line, last_non_blank_line, str_eq};
use crate::scip_lower::str_views;
use std::collections::HashMap;

verus! {

/// One crate version to analyze.
#[derive(Clone, Debug)]
pub struct CrateVersion {
    pub name: String,
    pub version: String,
    pub downloads: i64,
}

/// Options for the `extract` phase.
#[derive(Clone, Debug)]
pub struct ExtractArgs {
    /// The corpus root directory.
    pub root: String,
    /// The database file, absolute or relative to the root.
    pub db_path: String,
    /// Only crates with at least this many downloads are analyzed.
    pub min_downloads: i64,
    /// How many crates are extracted at once.
    pub jobs: usize,
    /// The wall-clock limit of one extraction, in seconds.
    pub timeout_secs: u64,
    /// Analyze at most this many crates of the work-list.
    pub limit: Option<usize>,
}

/// Options for the `convert` phase.
#[derive(Clone, Debug)]
pub struct ConvertArgs {
    pub root: String,
    pub db_path: String,
    /// Convert a single standalone `.ir.json` file instead of the whole corpus,
    /// without touching the database.
    pub file: Option<String>,
}

/// Options for the `meta` phase.
#[derive(Clone, Debug)]
pub struct MetaArgs {
    pub root: String,
    pub db_path: String,
    /// Only crates with at least this many downloads are backfilled.
    pub min_downloads: i64,
}

/// Options for the `plot` phase.
#[derive(Clone, Debug)]
pub struct PlotArgs {
    pub root: String,
    pub db_path: String,
    /// The SVG to write.
    pub out: String,
}

/// Options for the `sweep` phase.
#[derive(Clone, Debug)]
pub struct SweepArgs {
    pub root: String,
    pub db_path: String,
}

/// Whether a path is absolute: it starts at the root `/`.
pub open spec fn is_absolute(p: Seq<char>) -> bool {
    p.len() > 0 && p[0] == '/'
}

/// `base` joined with the relative path `rel` (std's `Path::join`): a `/` is
/// put between them unless `base` is empty or already ends in one.
pub open spec fn join_rel(base: Seq<char>, rel: Seq<char>) -> Seq<char> {
    if base.len() == 0 || base.last() == '/' { base + rel } else { base + "/"@ + rel }
}

/// The database file: `db_path` itself when absolute, else under `root`.
pub open spec fn spec_db_file(root: Seq<char>, db_path: Seq<char>) -> Seq<char> {
    if is_absolute(db_path) { db_path } else { join_rel(root, db_path) }
}

/// Resolves the database file path (absolute, or under the corpus root).
pub fn db_file(root: &str, db_path: &str) -> (r: String)
    ensures
        r@ == spec_db_file(root@, db_path@),
{
    proof {
        reveal_strlit("/");
    }
    let absolute = db_path.unicode_len() > 0 && db_path.get_char(0) == '/';
    if absolute {
        return db_path.to_owned();
    }
    let n = root.unicode_len();
    if n == 0 || root.get_char(n - 1) == '/' {
        concat(root, db_path)
    } else {
        join3(root, "/", db_path)
    }
}

/// The build threads each of `jobs` concurrent extractions gets on a machine
/// with `cpus` cores: the cores (at least two) shared among the jobs (at least
/// one), but never fewer than two.
pub open spec fn spec_build_jobs(cpus: nat, jobs: nat) -> nat {
    let share = (if cpus < 2 { 2 } else { cpus }) / (if jobs < 1 { 1 } else { jobs });
    if share < 2 { 2 } else { share }
}

/// The build threads per extraction, so that parallel builds do not
/// oversubscribe the machine.
pub fn build_jobs(cpus: usize, jobs: usize) -> (r: usize)
    ensures
        r == spec_build_jobs(cpus as nat, jobs as nat),
{
    let c = if cpus < 2 { 2 } else { cpus };
    let j = if jobs < 1 { 1 } else { jobs };
    let share = c / j;
    if share < 2 { 2 } else { share }
}

/// The length of the array under the top-level key `key` of the JSON document
/// `json`, when `json` is a JSON object holding an array there.
pub uninterp spec fn json_array_len(json: Seq<u8>, key: Seq<char>) -> Option<nat>;

/// Parses `json` with `serde_json` into a `Value` and gives the length of the
/// array under the top-level key `key`; `None` when the bytes are not JSON, or
/// the key is absent or holds no array.
#[verifier::external_body]
fn top_level_array_len(json: &[u8], key: &str) -> (r: Option<usize>)
    ensures
        r matches Some(n) ==> json_array_len(json@, key@) == Some(n as nat),
        r is None ==> json_array_len(json@, key@) is None,
{
    let value: serde_json::Value = serde_json::from_slice(json).ok()?;
    value.get(key)?.as_array().map(|a| a.len())
}

/// The counts of a serialized graph, each wrapped to `i32` as it is stored:
/// the lengths of its `items`, `modules` and `edges` arrays, if it has all
/// three.
pub open spec fn spec_counts(json: Seq<u8>) -> Option<(i32, i32, i32)> {
    match (json_array_len(json, "items"@), json_array_len(json, "modules"@), json_array_len(json, "edges"@)) {
        (Some(i), Some(m), Some(e)) => Some((i as i32, m as i32, e as i32)),
        _ => None,
    }
}

/// Counts `(items, modules, edges)` in a serialized graph without fully
/// modelling it.
pub fn counts(ir_json: &[u8]) -> (r: Option<(i32, i32, i32)>)
    ensures
        r == spec_counts(ir_json@),
{
    let items = match top_level_array_len(ir_json, "items") {
        Some(n) => n,
        None => return None,
    };
    let modules = match top_level_array_len(ir_json, "modules") {
        Some(n) => n,
        None => return None,
    };
    let edges = match top_level_array_len(ir_json, "edges") {
        Some(n) => n,
        None => return None,
    };
    Some((items as i32, modules as i32, edges as i32))
}

/// The file name of a crate's IR dump: `NAME-VERSION.ir.json`.
pub fn ir_file_name(name: &str, version: &str) -> (r: String)
    ensures
        r@ == name@ + "-"@ + version@ + ".ir.json"@,
{
    let base = join3(name, "-", version);
    concat(base.as_str(), ".ir.json")
}

/// How processing one crate ended: its download, the worker process that
/// extracts it, and the writing of the graph it printed.
#[derive(Clone, Debug)]
pub enum WorkerOutcome {
    /// The crate could not be downloaded or unpacked, with this message.
    DownloadFailed(String),
    /// The worker succeeded but its graph could not be written, with this
    /// message.
    WriteFailed(String),
    /// It succeeded and printed this serialized graph.
    Succeeded(Vec<u8>),
    /// It failed with this message.
    Failed(String),
    /// It ran past the timeout and was killed.
    Timeout,
    /// It could not be started, with this message.
    Spawn(String),
}

/// What an extraction row records of a worker's outcome: its status, an error
/// message, and the graph's counts when it produced a usable graph.
#[derive(Clone, Debug)]
pub struct RowStatus {
    pub status: String,
    pub error: Option<String>,
    pub counts: Option<(i32, i32, i32)>,
}

/// A status with no error and no counts, by value.
pub open spec fn status_view(r: RowStatus) -> (Seq<char>, Option<Seq<char>>, Option<(i32, i32, i32)>) {
    (r.status@, match r.error {
        Some(e) => Some(e@),
        None => None,
    }, r.counts)
}

/// What a worker's outcome records, given the timeout in seconds.
pub open spec fn spec_outcome_status(o: WorkerOutcome, timeout_secs: u64) -> (Seq<char>, Option<Seq<char>>, Option<(i32, i32, i32)>) {
    match o {
        WorkerOutcome::DownloadFailed(e) => ("download_fail"@, Some(e@), None),
        WorkerOutcome::WriteFailed(e) => ("extract_fail"@, Some("writing IR: "@ + e@), None),
        WorkerOutcome::Timeout => ("timeout"@, Some("exceeded "@ + crate::text::decimal_text(timeout_secs as int) + "s"@), None),
        WorkerOutcome::Spawn(e) => ("spawn_fail"@, Some(e@), None),
        WorkerOutcome::Failed(m) => ("extract_fail"@, Some(m@), None),
        WorkerOutcome::Succeeded(json) => match spec_counts(json@) {
            Some(c) => ("ok"@, None, Some(c)),
            None => ("parse_fail"@, Some("IR JSON missing expected arrays"@), None),
        },
    }
}

/// Classifies a worker's outcome into the status its row records. An `ok`
/// carries the graph's counts; the caller then stores the graph.
pub fn outcome_status(outcome: &WorkerOutcome, timeout_secs: u64) -> (r: RowStatus)
    ensures
        status_view(r) == spec_outcome_status(*outcome, timeout_secs),
{
    match outcome {
        WorkerOutcome::DownloadFailed(e) => RowStatus { status: "download_fail".to_owned(), error: Some(e.clone()), counts: None },
        WorkerOutcome::WriteFailed(e) => RowStatus {
            status: "extract_fail".to_owned(),
            error: Some(concat("writing IR: ", e.as_str())),
            counts: None,
        },
        WorkerOutcome::Timeout => {
            let secs = decimal_u64(timeout_secs);
            let msg = join3("exceeded ", secs.as_str(), "s");
            RowStatus { status: "timeout".to_owned(), error: Some(msg), counts: None }
        },
        WorkerOutcome::Spawn(e) => RowStatus { status: "spawn_fail".to_owned(), error: Some(e.clone()), counts: None },
        WorkerOutcome::Failed(m) => RowStatus { status: "extract_fail".to_owned(), error: Some(m.clone()), counts: None },
        WorkerOutcome::Succeeded(json) => match counts(json.as_slice()) {
            Some(c) => RowStatus { status: "ok".to_owned(), error: None, counts: Some(c) },
            None => RowStatus {
                status: "parse_fail".to_owned(),
                error: Some("IR JSON missing expected arrays".to_owned()),
                counts: None,
            },
        },
    }
}

/// The message recorded for a worker that exited unsuccessfully: the last
/// non-blank line of its standard error, else `exit` and its exit code as
/// `{:?}` prints it.
pub open spec fn spec_failure_message(stderr: Seq<char>, code: Option<i32>) -> Seq<char> {
    match last_line(stderr) {
        Some(l) => l,
        None => match code {
            None => "exit None"@,
            Some(c) => "exit Some("@ + crate::text::decimal_text(c as int) + ")"@,
        },
    }
}

/// The message for a worker that exited unsuccessfully (see
/// [`spec_failure_message`]).
pub fn failure_message(stderr: &str, code: Option<i32>) -> (r: String)
    ensures
        r@ == spec_failure_message(stderr@, code),
{
    match last_non_blank_line(stderr) {
        Some(l) => l,
        None => match code {
            None => "exit None".to_owned(),
            Some(c) => {
                let d = decimal_i32(c);
                join3("exit Some(", d.as_str(), ")")
            },
        },
    }
}

/// Whether `s` ends with `suffix`.
pub open spec fn ends_with(s: Seq<char>, suffix: Seq<char>) -> bool {
    suffix.len() <= s.len() && s.skip(s.len() - suffix.len()) == suffix
}

/// Whether `s` ends with `suffix`.
fn ends_with_exec(s: &str, suffix: &str) -> (r: bool)
    ensures
        r == ends_with(s@, suffix@),
{
    let n = s.unicode_len();
    let k = suffix.unicode_len();
    if k > n {
        return false;
    }
    let tail = s.substring_char(n - k, n);
    assert(tail@ =~= s@.skip(n - k));
    str_eq(tail, suffix)
}

/// The binary container path of an IR dump: the `.ir.json` suffix swapped for
/// `.bin.zst`, or `.bin.zst` appended when there is no such suffix.
pub open spec fn spec_container_path(path: Seq<char>) -> Seq<char> {
    if ends_with(path, ".ir.json"@) {
        path.take(path.len() - 8) + ".bin.zst"@
    } else {
        path + ".bin.zst"@
    }
}

/// Where the binary container of an IR dump goes.
pub fn container_path(path: &str) -> (r: String)
    ensures
        r@ == spec_container_path(path@),
{
    proof {
        reveal_strlit(".ir.json");
    }
    if ends_with_exec(path, ".ir.json") {
        let n = path.unicode_len();
        let stem = path.substring_char(0, n - 8);
        assert(stem@ =~= path@.take(n - 8));
        concat(stem, ".bin.zst")
    } else {
        concat(path, ".bin.zst")
    }
}

/// Whether an extraction row's IR still needs converting: it has an IR path,
/// and that path is a legacy `.ir.json` dump.
pub fn needs_conversion(ir_path: &Option<String>) -> (r: bool)
    ensures
        r == (ir_path matches Some(p) && ends_with(p@, ".ir.json"@)),
{
    match ir_path {
        Some(p) => ends_with_exec(p.as_str(), ".ir.json"),
        None => false,
    }
}

/// Appends a suffix to a path's file name (`plots/embed` + `-pca.svg`).
pub fn with_suffix(prefix: &str, suffix: &str) -> (r: String)
    ensures
        r@ == prefix@ + suffix@,
{
    concat(prefix, suffix)
}

/// The part of `s` before its first `c` (all of `s` when it has none).
pub open spec fn before_first(s: Seq<char>, c: char) -> Seq<char>
    decreases s.len(),
{
    if s.len() == 0 {
        s
    } else if s[0] == c {
        Seq::empty()
    } else {
        seq![s[0]] + before_first(s.drop_first(), c)
    }
}

/// The part of `s` before its first `::` (all of `s` when it has none).
pub open spec fn before_path_sep(s: Seq<char>) -> Seq<char>
    decreases s.len(),
{
    if s.len() < 2 {
        s
    } else if s[0] == ':' && s[1] == ':' {
        Seq::empty()
    } else {
        seq![s[0]] + before_path_sep(s.drop_first())
    }
}

/// The plotting label of a crate: the head (before any `::`) of the first
/// comma-separated entry of its keywords (when coloring by keyword) or its
/// categories; `None` when that is empty or absent.
pub open spec fn spec_label_of(keywords: Option<Seq<char>>, categories: Option<Seq<char>>, by_keyword: bool) -> Option<Seq<char>> {
    match (if by_keyword { keywords } else { categories }) {
        Some(s) => {
            let head = before_path_sep(before_first(s, ','));
            if head.len() == 0 { None } else { Some(head) }
        },
        None => None,
    }
}

/// The part of `cs` before its first `c`.
fn before_first_exec(cs: &Vec<char>, c: char) -> (r: Vec<char>)
    ensures
        r@ == before_first(cs@, c),
{
    let mut r: Vec<char> = Vec::new();
    let mut i: usize = 0;
    assert(r@ + before_first(cs@.skip(0), c) =~= before_first(cs@, c)) by {
        assert(cs@.skip(0) =~= cs@);
    }
    while i < cs.len() && cs[i] != c
        invariant
            i <= cs@.len(),
            before_first(cs@, c) == r@ + before_first(cs@.skip(i as int), c),
        decreases cs@.len() - i,
    {
        assert(cs@.skip(i as int).drop_first() =~= cs@.skip(i + 1));
        assert(cs@.skip(i as int)[0] == cs@[i as int]);
        r.push(cs[i]);
        assert(before_first(cs@, c) =~= r@ + before_first(cs@.skip(i + 1), c));
        i = i + 1;
    }
    if i < cs.len() {
        assert(cs@.skip(i as int)[0] == c);
    } else {
        assert(cs@.skip(i as int).len() == 0);
    }
    assert(r@ + before_first(cs@.skip(i as int), c) =~= r@);
    r
}

/// The part of `cs` before its first `::`.
fn before_path_sep_exec(cs: &Vec<char>) -> (r: Vec<char>)
    ensures
        r@ == before_path_sep(cs@),
{
    let mut r: Vec<char> = Vec::new();
    let mut i: usize = 0;
    assert(r@ + before_path_sep(cs@.skip(0)) =~= before_path_sep(cs@)) by {
        assert(cs@.skip(0) =~= cs@);
    }
    while i < cs.len() && i + 1 < cs.len() && !(cs[i] == ':' && cs[i + 1] == ':')
        invariant
            i <= cs@.len(),
            before_path_sep(cs@) == r@ + before_path_sep(cs@.skip(i as int)),
        decreases cs@.len() - i,
    {
        assert(cs@.skip(i as int).drop_first() =~= cs@.skip(i + 1));
        assert(cs@.skip(i as int)[0] == cs@[i as int]);
        assert(cs@.skip(i as int)[1] == cs@[i + 1]);
        r.push(cs[i]);
        assert(before_path_sep(cs@) =~= r@ + before_path_sep(cs@.skip(i + 1)));
        i = i + 1;
    }
    if i < cs.len() && i + 1 < cs.len() {
        assert(cs@.skip(i as int)[0] == ':' && cs@.skip(i as int)[1] == ':');
        assert(r@ + before_path_sep(cs@.skip(i as int)) =~= r@);
        r
    } else {
        let mut k = i;
        while k < cs.len()
            invariant
                i <= k <= cs@.len(),
                before_path_sep(cs@) == r@ + cs@.subrange(k as int, cs@.len() as int),
            decreases cs@.len() - k,
        {
            assert(cs@.subrange(k as int, cs@.len() as int) =~= seq![cs@[k as int]] + cs@.subrange(k + 1, cs@.len() as int));
            r.push(cs[k]);
            assert(before_path_sep(cs@) =~= r@ + cs@.subrange(k + 1, cs@.len() as int));
            k = k + 1;
        }
        assert(r@ + cs@.subrange(k as int, cs@.len() as int) =~= r@);
        r
    }
}

/// The plotting label of a crate, from its keywords or categories (by
/// keyword when `color_by` is `keyword`).
pub fn label_of(keywords: &Option<String>, categories: &Option<String>, color_by: &str) -> (r: Option<String>)
    ensures
        r matches Some(l) ==> spec_label_of(opt_view(keywords), opt_view(categories), color_by@ == "keyword"@) == Some(l@),
        r is None ==> spec_label_of(opt_view(keywords), opt_view(categories), color_by@ == "keyword"@) is None,
{
    let by_keyword = str_eq(color_by, "keyword");
    let field = if by_keyword { keywords } else { categories };
    match field {
        Some(s) => {
            let cs = crate::text::chars_of(s.as_str());
            let first = before_first_exec(&cs, ',');
            let head = before_path_sep_exec(&first);
            if head.len() == 0 {
                None
            } else {
                Some(crate::text::string_of(&head))
            }
        },
        None => None,
    }
}

/// An optional string, by value.
pub open spec fn opt_view(s: &Option<String>) -> Option<Seq<char>> {
    match s {
        Some(x) => Some(x@),
        None => None,
    }
}

/// Whether `c` is an ASCII decimal digit.
pub open spec fn is_digit(c: char) -> bool {
    48 <= (c as u32) <= 57
}

/// The value of a run of ASCII decimal digits, most significant first.
pub open spec fn digits_value(s: Seq<char>) -> int
    decreases s.len(),
{
    if s.len() == 0 {
        0
    } else {
        digits_value(s.drop_last()) * 10 + ((s.last() as u32) - 48)
    }
}

/// `s` without its leading `+` or `-`, if it has one.
pub open spec fn unsigned_part(s: Seq<char>) -> Seq<char> {
    if s.len() > 0 && (s[0] == '-' || s[0] == '+') { s.drop_first() } else { s }
}

/// What `str::parse::<i64>` gives: an optional `+` or `-` sign, then one or
/// more ASCII digits whose value, with the sign, fits in an `i64`.
pub open spec fn std_parse_i64(s: Seq<char>) -> Option<i64> {
    let body = unsigned_part(s);
    let v = if s.len() > 0 && s[0] == '-' { -digits_value(body) } else { digits_value(body) };
    if body.len() > 0 && (forall|i: int| 0 <= i < body.len() ==> is_digit(#[trigger] body[i])) && i64::MIN <= v <= i64::MAX {
        Some(v as i64)
    } else {
        None
    }
}

/// The value of digits never falls as digits are added.
proof fn lemma_digits_value_step(s: Seq<char>, c: char)
    requires
        is_digit(c),
    ensures
        digits_value(s.push(c)) == digits_value(s) * 10 + ((c as u32) - 48),
{
    assert(s.push(c).drop_last() =~= s);
}

/// The value of digits is never negative.
proof fn lemma_digits_value_nonneg(s: Seq<char>)
    requires
        forall|i: int| 0 <= i < s.len() ==> is_digit(#[trigger] s[i]),
    ensures
        digits_value(s) >= 0,
    decreases s.len(),
{
    if s.len() > 0 {
        lemma_digits_value_nonneg(s.drop_last());
    }
}

/// Parses a decimal `i64` as `str::parse::<i64>` does (see [`std_parse_i64`]).
fn parse_i64(s: &str) -> (r: Option<i64>)
    ensures
        r == std_parse_i64(s@),
{
    let cs = chars_of(s);
    let n = cs.len();
    if n == 0 {
        return None;
    }
    let neg = cs[0] == '-';
    let signed = neg || cs[0] == '+';
    let start: usize = if signed { 1 } else { 0 };
    let ghost body = unsigned_part(s@);
    assert(body =~= cs@.subrange(start as int, n as int));
    if start == n {
        return None;
    }
    let limit: u64 = if neg { 9223372036854775808u64 } else { 9223372036854775807u64 };
    let mut acc: u64 = 0;
    let mut over = false;
    let mut i = start;
    assert(cs@.subrange(start as int, start as int) =~= Seq::<char>::empty());
    while i < n
        invariant
            start <= i <= n,
            n == cs@.len(),
            cs@ == s@,
            limit >= 9223372036854775807u64,
            body == cs@.subrange(start as int, n as int),
            body == unsigned_part(s@),
            forall|j: int| start <= j < i ==> is_digit(#[trigger] cs@[j]),
            !over ==> acc == digits_value(cs@.subrange(start as int, i as int)) && acc <= limit,
            over ==> digits_value(cs@.subrange(start as int, i as int)) > limit,
        decreases n - i,
    {
        let c = cs[i];
        let u = c as u32;
        if u < 48 || u > 57 {
            assert(body[i - start] == c);
            assert(!is_digit(body[i - start]));
            assert(!(forall|j: int| 0 <= j < body.len() ==> is_digit(#[trigger] body[j])));
            assert(std_parse_i64(s@) is None);
            return None;
        }
        let d = (u - 48) as u64;
        let ghost prev = cs@.subrange(start as int, i as int);
        assert(cs@.subrange(start as int, i + 1) =~= prev.push(c));
        proof {
            lemma_digits_value_step(prev, c);
            assert forall|j: int| 0 <= j < prev.len() implies is_digit(#[trigger] prev[j]) by {
                assert(prev[j] == cs@[start + j]);
            }
            lemma_digits_value_nonneg(prev);
        }
        if !over {
            if acc > (limit - d) / 10 {
                assert(acc * 10 + d > limit) by (nonlinear_arith)
                    requires
                        acc > (limit - d) / 10,
                        d <= 9,
                        d <= limit,
                ;
                over = true;
            } else {
                assert(acc * 10 + d <= limit) by (nonlinear_arith)
                    requires
                        acc <= (limit - d) / 10,
                        d <= limit,
                ;
                acc = acc * 10 + d;
            }
        } else {
            assert(digits_value(prev) * 10 + d >= digits_value(prev)) by (nonlinear_arith)
                requires
                    digits_value(prev) >= 0,
            ;
        }
        i = i + 1;
    }
    assert(cs@.subrange(start as int, n as int) =~= body);
    assert(forall|j: int| 0 <= j < body.len() ==> is_digit(#[trigger] body[j])) by {
        assert forall|j: int| 0 <= j < body.len() implies is_digit(#[trigger] body[j]) by {
            assert(body[j] == cs@[start + j]);
        }
    }
    if over {
        return None;
    }
    if neg {
        if acc == 9223372036854775808u64 {
            Some(i64::MIN)
        } else {
            Some(-(acc as i64))
        }
    } else {
        Some(acc as i64)
    }
}

/// The two selected columns of a dump table's rows.
pub type Rows = Seq<(Seq<char>, Seq<char>)>;

/// Rows, by value.
pub open spec fn row_views(rows: Seq<(String, String)>) -> Rows {
    rows.map_values(|r: (String, String)| (r.0@, r.1@))
}

/// The download count of each crate id in `crate_downloads` rows
/// `(crate_id, downloads)` with at least `min` downloads; a later row for an
/// id replaces an earlier one.
pub open spec fn downloads_of(rows: Rows, min: i64) -> Map<i64, i64>
    decreases rows.len(),
{
    if rows.len() == 0 {
        Map::empty()
    } else {
        let prev = downloads_of(rows.drop_last(), min);
        match (std_parse_i64(rows.last().0), std_parse_i64(rows.last().1)) {
            (Some(id), Some(dl)) => if dl >= min { prev.insert(id, dl) } else { prev },
            _ => prev,
        }
    }
}

/// The crate ids of [`downloads_of`], in the order they first appear.
pub open spec fn download_ids(rows: Rows, min: i64) -> Seq<i64>
    decreases rows.len(),
{
    if rows.len() == 0 {
        Seq::empty()
    } else {
        let prev = download_ids(rows.drop_last(), min);
        match (std_parse_i64(rows.last().0), std_parse_i64(rows.last().1)) {
            (Some(id), Some(dl)) => if dl >= min && !downloads_of(rows.drop_last(), min).contains_key(id) {
                prev.push(id)
            } else {
                prev
            },
            _ => prev,
        }
    }
}

/// The text of each id in rows `(id, text)`; a later row replaces an earlier.
pub open spec fn text_by_id(rows: Rows) -> Map<i64, Seq<char>>
    decreases rows.len(),
{
    if rows.len() == 0 {
        Map::empty()
    } else {
        let prev = text_by_id(rows.drop_last());
        match std_parse_i64(rows.last().0) {
            Some(id) => prev.insert(id, rows.last().1),
            None => prev,
        }
    }
}

/// The id each id maps to in rows `(id, id)`; a later row replaces an earlier.
pub open spec fn id_by_id(rows: Rows) -> Map<i64, i64>
    decreases rows.len(),
{
    if rows.len() == 0 {
        Map::empty()
    } else {
        let prev = id_by_id(rows.drop_last());
        match (std_parse_i64(rows.last().0), std_parse_i64(rows.last().1)) {
            (Some(a), Some(b)) => prev.insert(a, b),
            _ => prev,
        }
    }
}

/// A work-list entry, by value: name, version, downloads.
pub type Entry = (Seq<char>, Seq<char>, i64);

/// The entries of the crates `ids` that have a name, a default version and
/// that version's number.
pub open spec fn joined(
    ids: Seq<i64>,
    dl: Map<i64, i64>,
    names: Map<i64, Seq<char>>,
    dv: Map<i64, i64>,
    vn: Map<i64, Seq<char>>,
) -> Seq<Entry>
    decreases ids.len(),
{
    if ids.len() == 0 {
        Seq::empty()
    } else {
        let prev = joined(ids.drop_last(), dl, names, dv, vn);
        let id = ids.last();
        if names.contains_key(id) && dv.contains_key(id) && vn.contains_key(dv[id]) {
            prev.push((names[id], vn[dv[id]], dl[id]))
        } else {
            prev
        }
    }
}

/// The four tables of the crates.io dump a work-list reads, each as the rows
/// of its two needed columns: `crate_downloads (crate_id, downloads)`,
/// `crates (id, name)`, `default_versions (crate_id, version_id)` and
/// `versions (id, num)`.
#[derive(Clone, Debug)]
pub struct DumpTables {
    pub crate_downloads: Vec<(String, String)>,
    pub crates: Vec<(String, String)>,
    pub default_versions: Vec<(String, String)>,
    pub versions: Vec<(String, String)>,
}

/// The work-list entries of a dump, before ranking.
pub open spec fn worklist_entries(t: &DumpTables, min: i64) -> Seq<Entry> {
    let d = row_views(t.crate_downloads@);
    joined(
        download_ids(d, min),
        downloads_of(d, min),
        text_by_id(row_views(t.crates@)),
        id_by_id(row_views(t.default_versions@)),
        text_by_id(row_views(t.versions@)),
    )
}

/// Work-list entries, by value.
pub open spec fn cv_views(v: Seq<CrateVersion>) -> Seq<Entry> {
    v.map_values(|c: CrateVersion| (c.name@, c.version@, c.downloads))
}

/// Whether `r` lists the entries `e` rearranged: by some permutation `order`
/// of `e`'s positions.
pub open spec fn rearranges<T>(r: Seq<T>, e: Seq<T>) -> bool {
    exists|order: Seq<usize>| #[trigger] order.to_multiset() == Seq::new(e.len(), |i: int| i as usize).to_multiset()
        && order.len() == r.len()
        && forall|k: int| 0 <= k < r.len() ==> r[k] == e[order[k] as int]
}

/// Whether entries are ranked: most downloads first, ties by name.
pub open spec fn entries_ranked(r: Seq<Entry>) -> bool {
    forall|i: int, j: int| 0 <= i < j < r.len() ==> crate::rank::ranked_le((r[i].2 as int, r[i].0), (r[j].2 as int, r[j].0))
}

/// A string-valued hash map, by value.
pub open spec fn text_map(m: Map<i64, String>) -> Map<i64, Seq<char>> {
    m.map_values(|s: String| s@)
}

/// Reads `(id, text)` rows into a map.
fn read_text_map(rows: &Vec<(String, String)>) -> (m: HashMap<i64, String>)
    ensures
        text_map(m@) == text_by_id(row_views(rows@)),
{
    let ghost rv = row_views(rows@);
    let mut m: HashMap<i64, String> = HashMap::new();
    let mut i: usize = 0;
    assert(text_map(m@) =~= text_by_id(rv.take(0)));
    while i < rows.len()
        invariant
            i <= rows@.len(),
            rv == row_views(rows@),
            text_map(m@) == text_by_id(rv.take(i as int)),
        decreases rows@.len() - i,
    {
        assert(rv.take(i + 1).drop_last() =~= rv.take(i as int));
        assert(rv.take(i + 1).last() == (rows@[i as int].0@, rows@[i as int].1@));
        match parse_i64(rows[i].0.as_str()) {
            Some(id) => {
                let ghost before = m@;
                m.insert(id, rows[i].1.clone());
                assert(text_map(m@) =~= text_map(before).insert(id, rows@[i as int].1@));
            },
            None => {},
        }
        i = i + 1;
    }
    assert(rv.take(rows@.len() as int) =~= rv);
    m
}

/// Reads `(id, id)` rows into a map.
fn read_id_map(rows: &Vec<(String, String)>) -> (m: HashMap<i64, i64>)
    ensures
        m@ == id_by_id(row_views(rows@)),
{
    let ghost rv = row_views(rows@);
    let mut m: HashMap<i64, i64> = HashMap::new();
    let mut i: usize = 0;
    assert(m@ =~= id_by_id(rv.take(0)));
    while i < rows.len()
        invariant
            i <= rows@.len(),
            rv == row_views(rows@),
            m@ == id_by_id(rv.take(i as int)),
        decreases rows@.len() - i,
    {
        assert(rv.take(i + 1).drop_last() =~= rv.take(i as int));
        assert(rv.take(i + 1).last() == (rows@[i as int].0@, rows@[i as int].1@));
        match (parse_i64(rows[i].0.as_str()), parse_i64(rows[i].1.as_str())) {
            (Some(a), Some(b)) => {
                m.insert(a, b);
            },
            _ => {},
        }
        i = i + 1;
    }
    assert(rv.take(rows@.len() as int) =~= rv);
    m
}

/// Reads `crate_downloads` rows: the map of counts and the ids in first-seen
/// order.
fn read_downloads(rows: &Vec<(String, String)>, min: i64) -> (r: (HashMap<i64, i64>, Vec<i64>))
    ensures
        r.0@ == downloads_of(row_views(rows@), min),
        r.1@ == download_ids(row_views(rows@), min),
        forall|k: int| 0 <= k < r.1@.len() ==> r.0@.contains_key(#[trigger] r.1@[k]),
{
    let ghost rv = row_views(rows@);
    let mut m: HashMap<i64, i64> = HashMap::new();
    let mut ids: Vec<i64> = Vec::new();
    let mut i: usize = 0;
    assert(m@ =~= downloads_of(rv.take(0), min));
    assert(ids@ =~= download_ids(rv.take(0), min));
    while i < rows.len()
        invariant
            i <= rows@.len(),
            rv == row_views(rows@),
            m@ == downloads_of(rv.take(i as int), min),
            ids@ == download_ids(rv.take(i as int), min),
            forall|k: int| 0 <= k < ids@.len() ==> m@.contains_key(#[trigger] ids@[k]),
        decreases rows@.len() - i,
    {
        assert(rv.take(i + 1).drop_last() =~= rv.take(i as int));
        assert(rv.take(i + 1).last() == (rows@[i as int].0@, rows@[i as int].1@));
        match (parse_i64(rows[i].0.as_str()), parse_i64(rows[i].1.as_str())) {
            (Some(id), Some(dl)) => {
                if dl >= min {
                    if !m.contains_key(&id) {
                        ids.push(id);
                    }
                    m.insert(id, dl);
                }
            },
            _ => {},
        }
        i = i + 1;
    }
    assert(rv.take(rows@.len() as int) =~= rv);
    (m, ids)
}

/// Streams the dump tables once and returns every crate whose download count
/// is at least `min_downloads`, most-downloaded first (ties by name).
pub fn build_worklist(tables: &DumpTables, min_downloads: i64) -> (r: Vec<CrateVersion>)
    ensures
        rearranges(cv_views(r@), worklist_entries(tables, min_downloads)),
        entries_ranked(cv_views(r@)),
{
    let (dl, ids) = read_downloads(&tables.crate_downloads, min_downloads);
    let names = read_text_map(&tables.crates);
    let dv = read_id_map(&tables.default_versions);
    let vn = read_text_map(&tables.versions);
    let ghost spec_dl = dl@;
    let ghost spec_names = text_map(names@);
    let ghost spec_vn = text_map(vn@);
    let mut found: Vec<CrateVersion> = Vec::new();
    let mut k: usize = 0;
    while k < ids.len()
        invariant
            k <= ids@.len(),
            forall|q: int| 0 <= q < ids@.len() ==> dl@.contains_key(#[trigger] ids@[q]),
            cv_views(found@) == joined(ids@.take(k as int), dl@, text_map(names@), dv@, text_map(vn@)),
        decreases ids@.len() - k,
    {
        let id = ids[k];
        assert(ids@.take(k + 1).drop_last() =~= ids@.take(k as int));
        assert(ids@.take(k + 1).last() == id);
        let ghost before = cv_views(found@);
        match (names.get(&id), dv.get(&id)) {
            (Some(name), Some(vid)) => {
                match vn.get(vid) {
                    Some(num) => {
                        let downloads = match dl.get(&id) {
                            Some(d) => *d,
                            None => 0,
                        };
                        found.push(CrateVersion { name: name.clone(), version: num.clone(), downloads });
                        assert(cv_views(found@) =~= before.push((names@[id]@, vn@[*vid]@, dl@[id])));
                    },
                    None => {},
                }
            },
            _ => {},
        }
        k = k + 1;
    }
    assert(ids@.take(ids@.len() as int) =~= ids@);
    let ghost e = cv_views(found@);
    let mut keys: Vec<(i128, String)> = Vec::new();
    let mut q: usize = 0;
    while q < found.len()
        invariant
            q <= found@.len(),
            keys@.len() == q,
            forall|p: int| 0 <= p < q ==> crate::rank::key_view(#[trigger] keys@[p]) == (found@[p].downloads as int, found@[p].name@),
        decreases found@.len() - q,
    {
        keys.push((found[q].downloads as i128, found[q].name.clone()));
        q = q + 1;
    }
    let order = crate::rank::rank_order(&keys);
    let mut r: Vec<CrateVersion> = Vec::new();
    let mut p: usize = 0;
    while p < order.len()
        invariant
            p <= order@.len(),
            keys@.len() == found@.len(),
            crate::rank::ranked(keys@, order@),
            e == cv_views(found@),
            forall|x: int| 0 <= x < keys@.len() ==> crate::rank::key_view(#[trigger] keys@[x]) == (found@[x].downloads as int, found@[x].name@),
            r@.len() == p,
            forall|x: int| 0 <= x < p ==> cv_views(r@)[x] == e[#[trigger] order@[x] as int],
        decreases order@.len() - p,
    {
        let c = &found[order[p]];
        r.push(CrateVersion { name: c.name.clone(), version: c.version.clone(), downloads: c.downloads });
        p = p + 1;
    }
    proof {
        let rv = cv_views(r@);
        assert forall|i: int, j: int| 0 <= i < j < rv.len() implies crate::rank::ranked_le((rv[i].2 as int, rv[i].0), (rv[j].2 as int, rv[j].0)) by {
            assert(rv[i] == e[order@[i] as int]);
            assert(rv[j] == e[order@[j] as int]);
            assert(crate::rank::key_view(keys@[order@[i] as int]) == (found@[order@[i] as int].downloads as int, found@[order@[i] as int].name@));
            assert(crate::rank::key_view(keys@[order@[j] as int]) == (found@[order@[j] as int].downloads as int, found@[order@[j] as int].name@));
        }
        assert(order@.to_multiset() == Seq::new(e.len(), |i: int| i as usize).to_multiset());
        assert(rearranges(rv, e));
    }
    r
}

/// The labels present, each once, in the order they first appear.
pub open spec fn distinct_labels(labels: Seq<Option<Seq<char>>>) -> Seq<Seq<char>>
    decreases labels.len(),
{
    if labels.len() == 0 {
        Seq::empty()
    } else {
        let prev = distinct_labels(labels.drop_last());
        match labels.last() {
            Some(l) => if prev.contains(l) { prev } else { prev.push(l) },
            None => prev,
        }
    }
}

/// How many times `l` occurs among the labels.
pub open spec fn label_count(labels: Seq<Option<Seq<char>>>, l: Seq<char>) -> nat
    decreases labels.len(),
{
    if labels.len() == 0 {
        0
    } else {
        label_count(labels.drop_last(), l) + if labels.last() == Some(l) { 1nat } else { 0nat }
    }
}

/// Whether `all` lists labels most frequent first, ties by name.
pub open spec fn labels_ranked(all: Seq<Seq<char>>, labels: Seq<Option<Seq<char>>>) -> bool {
    forall|i: int, j: int| 0 <= i < j < all.len() ==> crate::rank::ranked_le(
        (label_count(labels, all[i]) as int, all[i]),
        (label_count(labels, all[j]) as int, all[j]),
    )
}

/// The position of `x` in `s` (its first), or `s.len()` when absent.
pub open spec fn position_of(s: Seq<Seq<char>>, x: Seq<char>) -> nat
    decreases s.len(),
{
    if s.len() == 0 {
        0
    } else if s.last() == x && !s.drop_last().contains(x) {
        (s.len() - 1) as nat
    } else if s.drop_last().contains(x) {
        position_of(s.drop_last(), x)
    } else {
        s.len()
    }
}

/// The group of a label: its position among the `top` labels, else the
/// position of the catch-all group after them.
pub open spec fn group_of(top: Seq<Seq<char>>, l: Option<Seq<char>>) -> nat {
    match l {
        Some(x) => position_of(top, x),
        None => top.len(),
    }
}

/// How many labels get a group of their own; the rest share `other`.
pub const NAMED_GROUPS: usize = 9;

/// Labels, by value.
pub open spec fn label_views(v: Seq<Option<String>>) -> Seq<Option<Seq<char>>> {
    v.map_values(|l: Option<String>| opt_view(&l))
}

/// The position of `x` among `v`, or `v.len()`.
fn find_label(v: &Vec<String>, x: &str) -> (r: usize)
    ensures
        r == position_of(str_views(v@), x@),
{
    let ghost sv = str_views(v@);
    let mut i: usize = 0;
    while i < v.len()
        invariant
            i <= v@.len(),
            sv == str_views(v@),
            forall|j: int| 0 <= j < i ==> sv[j] != x@,
        decreases v@.len() - i,
    {
        if str_eq(v[i].as_str(), x) {
            proof {
                lemma_position_first(sv, x@, i as int);
            }
            return i;
        }
        i = i + 1;
    }
    proof {
        lemma_position_absent(sv, x@);
    }
    v.len()
}

/// The position of the first occurrence.
proof fn lemma_position_first(s: Seq<Seq<char>>, x: Seq<char>, i: int)
    requires
        0 <= i < s.len(),
        s[i] == x,
        forall|j: int| 0 <= j < i ==> s[j] != x,
    ensures
        position_of(s, x) == i,
    decreases s.len(),
{
    if i < s.len() - 1 {
        assert(s.drop_last()[i] == x);
        lemma_position_first(s.drop_last(), x, i);
    } else {
        assert(!s.drop_last().contains(x)) by {
            if s.drop_last().contains(x) {
                let j = choose|j: int| 0 <= j < s.drop_last().len() && s.drop_last()[j] == x;
                assert(s[j] == x);
            }
        }
    }
}

/// A position before the end holds the element.
proof fn lemma_position_found(s: Seq<Seq<char>>, x: Seq<char>)
    ensures
        position_of(s, x) <= s.len(),
        position_of(s, x) < s.len() ==> s[position_of(s, x) as int] == x,
        s.contains(x) ==> position_of(s, x) < s.len(),
    decreases s.len(),
{
    if s.len() > 0 {
        lemma_position_found(s.drop_last(), x);
        if s.contains(x) && !s.drop_last().contains(x) {
            let j = choose|j: int| 0 <= j < s.len() && s[j] == x;
            if j < s.len() - 1 {
                assert(s.drop_last()[j] == x);
            }
        }
    }
}

/// An absent element has the position after the end.
proof fn lemma_position_absent(s: Seq<Seq<char>>, x: Seq<char>)
    requires
        forall|j: int| 0 <= j < s.len() ==> s[j] != x,
    ensures
        position_of(s, x) == s.len(),
        !s.contains(x),
    decreases s.len(),
{
    if s.len() > 0 {
        lemma_position_absent(s.drop_last(), x);
    }
}

/// Groups plot labels: the nine most frequent labels (ties by name) get a
/// group each, in that order, and every other label, or none, the final
/// `other` group. Returns the group names and each label's group.
pub fn color_groups(labels: &Vec<Option<String>>) -> (r: (Vec<String>, Vec<usize>))
    ensures
        exists|all: Seq<Seq<char>>| {
            &&& rearranges(all, distinct_labels(label_views(labels@)))
            &&& labels_ranked(all, label_views(labels@))
            &&& str_views(r.0@) == all.take(if all.len() < 9 { all.len() as int } else { 9 }).push("other"@)
        },
        r.1@.len() == labels@.len(),
        forall|i: int| 0 <= i < labels@.len() ==> r.1@[i] == group_of(str_views(r.0@).drop_last(), #[trigger] label_views(labels@)[i]),
{
    let ghost lv = label_views(labels@);
    let mut names: Vec<String> = Vec::new();
    let mut cnt: Vec<usize> = Vec::new();
    let mut i: usize = 0;
    while i < labels.len()
        invariant
            i <= labels@.len(),
            lv == label_views(labels@),
            str_views(names@) == distinct_labels(lv.take(i as int)),
            cnt@.len() == names@.len(),
            forall|p: int| 0 <= p < cnt@.len() ==> #[trigger] cnt@[p] == label_count(lv.take(i as int), names@[p]@),
            forall|p: int| 0 <= p < cnt@.len() ==> #[trigger] cnt@[p] <= i,
        decreases labels@.len() - i,
    {
        let ghost pre = lv.take(i as int);
        assert(lv.take(i + 1).drop_last() =~= pre);
        assert(lv.take(i + 1).last() == lv[i as int]);
        match &labels[i] {
            Some(l) => {
                let p = find_label(&names, l.as_str());
                proof {
                    lemma_position_found(str_views(names@), l@);
                }
                if p < names.len() {
                    let c = cnt[p];
                    cnt.set(p, c + 1);
                    proof {
                        assert forall|q: int| 0 <= q < cnt@.len() implies #[trigger] cnt@[q] == label_count(lv.take(i + 1), names@[q]@) by {
                            if q != p {
                                assert(str_views(names@)[q] != str_views(names@)[p as int]) by {
                                    lemma_distinct_labels_unique(pre, q, p as int);
                                }
                            }
                        }
                        assert(str_views(names@)[p as int] == l@);
                    }
                } else {
                    let ghost before = str_views(names@);
                    names.push(l.clone());
                    cnt.push(1);
                    proof {
                        assert(str_views(names@) =~= before.push(l@));
                        lemma_label_count_absent(pre, l@);
                        assert forall|q: int| 0 <= q < cnt@.len() implies #[trigger] cnt@[q] == label_count(lv.take(i + 1), names@[q]@) by {
                            if q < before.len() {
                                assert(before[q] != l@);
                            }
                        }
                    }
                }
            },
            None => {},
        }
        i = i + 1;
    }
    assert(lv.take(labels@.len() as int) =~= lv);
    let ghost dl = distinct_labels(lv);
    let mut keys: Vec<(i128, String)> = Vec::new();
    let mut q: usize = 0;
    while q < names.len()
        invariant
            q <= names@.len(),
            cnt@.len() == names@.len(),
            keys@.len() == q,
            forall|p: int| 0 <= p < q ==> crate::rank::key_view(#[trigger] keys@[p]) == (cnt@[p] as int, names@[p]@),
        decreases names@.len() - q,
    {
        keys.push((cnt[q] as i128, names[q].clone()));
        q = q + 1;
    }
    let order = crate::rank::rank_order(&keys);
    let n = if order.len() < NAMED_GROUPS { order.len() } else { NAMED_GROUPS };
    let mut groups: Vec<String> = Vec::new();
    let mut p: usize = 0;
    while p < n
        invariant
            p <= n <= order@.len(),
            keys@.len() == names@.len(),
            crate::rank::ranked(keys@, order@),
            groups@.len() == p,
            forall|x: int| 0 <= x < p ==> groups@[x]@ == names@[#[trigger] order@[x] as int]@,
        decreases n - p,
    {
        groups.push(names[order[p]].clone());
        p = p + 1;
    }
    let ghost top = str_views(groups@);
    let mut of: Vec<usize> = Vec::new();
    let mut k: usize = 0;
    while k < labels.len()
        invariant
            k <= labels@.len(),
            lv == label_views(labels@),
            top == str_views(groups@),
            of@.len() == k,
            forall|x: int| 0 <= x < k ==> of@[x] == group_of(top, #[trigger] lv[x]),
        decreases labels@.len() - k,
    {
        assert(lv[k as int] == opt_view(&labels@[k as int]));
        let g = match &labels[k] {
            Some(l) => find_label(&groups, l.as_str()),
            None => groups.len(),
        };
        of.push(g);
        k = k + 1;
    }
    let ghost all = Seq::new(order@.len(), |x: int| names@[order@[x] as int]@);
    let ghost ks = Seq::new(keys@.len() as nat, |x: int| x as usize);
    groups.push("other".to_owned());
    proof {
        assert(keys@.len() == dl.len());
        assert(ks =~= Seq::new(dl.len(), |x: int| x as usize));
        assert forall|x: int| 0 <= x < all.len() implies all[x] == dl[order@[x] as int] by {
            assert(order@[x] < keys@.len());
        }
        assert(rearranges(all, dl));
        assert forall|x: int, y: int| 0 <= x < y < all.len() implies crate::rank::ranked_le(
            (label_count(lv, all[x]) as int, all[x]),
            (label_count(lv, all[y]) as int, all[y]),
        ) by {
            assert(crate::rank::key_view(keys@[order@[x] as int]) == (cnt@[order@[x] as int] as int, names@[order@[x] as int]@));
            assert(crate::rank::key_view(keys@[order@[y] as int]) == (cnt@[order@[y] as int] as int, names@[order@[y] as int]@));
        }
        assert(str_views(groups@) =~= all.take(n as int).push("other"@));
        assert(str_views(groups@).drop_last() =~= top);
        assert(labels_ranked(all, lv));
        assert(str_views(groups@) == all.take(if all.len() < 9 { all.len() as int } else { 9 }).push("other"@));
    }
    (groups, of)
}

/// Distinct labels are distinct.
proof fn lemma_distinct_labels_unique(labels: Seq<Option<Seq<char>>>, a: int, b: int)
    requires
        0 <= a < distinct_labels(labels).len(),
        0 <= b < distinct_labels(labels).len(),
        a != b,
    ensures
        distinct_labels(labels)[a] != distinct_labels(labels)[b],
    decreases labels.len(),
{
    let prev = distinct_labels(labels.drop_last());
    if labels.len() > 0 {
        if a < prev.len() && b < prev.len() {
            lemma_distinct_labels_unique(labels.drop_last(), a, b);
        } else {
            let (x, y) = if a < prev.len() { (a, b) } else { (b, a) };
            assert(prev.contains(distinct_labels(labels)[x]));
        }
    }
}

/// A label not among the distinct labels occurs nowhere.
proof fn lemma_label_count_absent(labels: Seq<Option<Seq<char>>>, l: Seq<char>)
    requires
        !distinct_labels(labels).contains(l),
    ensures
        label_count(labels, l) == 0,
    decreases labels.len(),
{
    if labels.len() > 0 {
        let prev = distinct_labels(labels.drop_last());
        if prev.contains(l) {
            let j = choose|j: int| 0 <= j < prev.len() && prev[j] == l;
            assert(distinct_labels(labels)[j] == l);
        }
        lemma_label_count_absent(labels.drop_last(), l);
        if labels.last() == Some(l) {
            assert(distinct_labels(labels).last() == l);
        }
    }
}


/// Law: where the database lives. An absolute `db_path` is used as it is;
/// a relative one is put under `root`, with one `/` between them unless
/// `root` is empty or already ends in one.
pub proof fn law_db_location(root: Seq<char>, db_path: Seq<char>)
    ensures
        db_path.len() > 0 && db_path[0] == '/' ==> spec_db_file(root, db_path) == db_path,
        !(db_path.len() > 0 && db_path[0] == '/') && (root.len() == 0 || root.last() == '/')
            ==> spec_db_file(root, db_path) == root + db_path,
        !(db_path.len() > 0 && db_path[0] == '/') && root.len() > 0 && root.last() != '/'
            ==> spec_db_file(root, db_path) == root + seq!['/'] + db_path,
{
    reveal_strlit("/");
    assert("/"@ =~= seq!['/']);
}

/// Law: the build threads of one extraction are never fewer than two, and
/// otherwise are the machine's cores divided evenly among the concurrent
/// jobs, rounded down: with `jobs` at least one and `cpus` at least twice
/// `jobs`, `jobs` extractions together use at most `cpus` threads and one
/// thread more each would exceed it.
pub proof fn law_build_threads(cpus: nat, jobs: nat)
    ensures
        spec_build_jobs(cpus, jobs) >= 2,
        jobs >= 1 && cpus >= 2 * jobs ==> spec_build_jobs(cpus, jobs) * jobs <= cpus
            && cpus < (spec_build_jobs(cpus, jobs) + 1) * jobs,
        jobs >= 1 && cpus < 2 * jobs ==> spec_build_jobs(cpus, jobs) == 2,
{
    if jobs >= 1 {
        let c: int = if cpus < 2 { 2 } else { cpus as int };
        let j: int = jobs as int;
        let q: int = c / j;
        assert(q * j <= c && c < (q + 1) * j) by (nonlinear_arith)
            requires
                j >= 1,
                q == c / j,
        ;
        if cpus >= 2 * jobs {
            assert(q >= 2) by (nonlinear_arith)
                requires
                    j >= 1,
                    c >= 2 * j,
                    q == c / j,
            ;
        } else if c < 2 * j {
            assert(q < 2) by (nonlinear_arith)
                requires
                    j >= 1,
                    c < 2 * j,
                    q * j <= c,
            ;
        } else {
            assert(c == 2 && j == 1);
        }
    }
}

/// Law: the binary container of an IR dump `STEM.ir.json` is
/// `STEM.bin.zst`; any other path gets `.bin.zst` appended.
pub proof fn law_container_path(stem: Seq<char>, other: Seq<char>)
    ensures
        spec_container_path(stem + ".ir.json"@) == stem + ".bin.zst"@,
        !ends_with(other, ".ir.json"@) ==> spec_container_path(other) == other + ".bin.zst"@,
{
    reveal_strlit(".ir.json");
    let p = stem + ".ir.json"@;
    assert(p.skip(p.len() - 8) =~= ".ir.json"@);
    assert(p.take(p.len() - 8) =~= stem);
}

/// Law: the status a worker's outcome records. A failed download is
/// `download_fail` with its message; a worker that failed, or whose graph
/// could not be written, is `extract_fail` (the latter's message prefixed
/// `writing IR: `); one that could not start is `spawn_fail`; one past the
/// timeout is `timeout`, reporting the seconds; a succeeded worker is `ok`
/// with its graph's counts when the graph has its `items`, `modules` and
/// `edges` arrays, else `parse_fail`. Counts are recorded exactly for `ok`.
pub proof fn law_outcome_statuses(o: WorkerOutcome, timeout_secs: u64)
    ensures
        ({
            let r = spec_outcome_status(o, timeout_secs);
            &&& (r.2 is Some <==> r.0 == "ok"@)
            &&& match o {
                WorkerOutcome::DownloadFailed(e) => r.0 == "download_fail"@ && r.1 == Some(e@),
                WorkerOutcome::WriteFailed(e) => r.0 == "extract_fail"@ && r.1 == Some("writing IR: "@ + e@),
                WorkerOutcome::Failed(m) => r.0 == "extract_fail"@ && r.1 == Some(m@),
                WorkerOutcome::Spawn(e) => r.0 == "spawn_fail"@ && r.1 == Some(e@),
                WorkerOutcome::Timeout => r.0 == "timeout"@
                    && r.1 == Some("exceeded "@ + crate::text::decimal_text(timeout_secs as int) + "s"@),
                WorkerOutcome::Succeeded(json) => match spec_counts(json@) {
                    Some(c) => r.0 == "ok"@ && r.1 is None && r.2 == Some(c),
                    None => r.0 == "parse_fail"@ && r.1 is Some,
                },
            }
        }),
{
    reveal_strlit("ok");
    reveal_strlit("download_fail");
    reveal_strlit("extract_fail");
    reveal_strlit("spawn_fail");
    reveal_strlit("timeout");
    reveal_strlit("parse_fail");
    assert("ok"@.len() == 2);
    assert("download_fail"@ != "ok"@);
    assert("extract_fail"@ != "ok"@);
    assert("spawn_fail"@ != "ok"@);
    assert("timeout"@ != "ok"@);
    assert("parse_fail"@ != "ok"@);
}


/// Before the first `c` of `a` followed by `y`, where `a` has no `c`: all
/// of `a`, then what comes before the first `c` of `y`.
proof fn lemma_before_first_append(a: Seq<char>, c: char, y: Seq<char>)
    requires
        !a.contains(c),
    ensures
        before_first(a + y, c) == a + before_first(y, c),
    decreases a.len(),
{
    if a.len() == 0 {
        assert(a + y =~= y);
        assert(a + before_first(y, c) =~= before_first(y, c));
    } else {
        assert(!a.drop_first().contains(c)) by {
            if a.drop_first().contains(c) {
                let j = choose|j: int| 0 <= j < a.drop_first().len() && a.drop_first()[j] == c;
                assert(a[j + 1] == c);
            }
        }
        assert(a[0] != c) by {
            assert(a.contains(a[0]));
        }
        lemma_before_first_append(a.drop_first(), c, y);
        assert((a + y).drop_first() =~= a.drop_first() + y);
        assert(seq![a[0]] + (a.drop_first() + before_first(y, c)) =~= a + before_first(y, c));
    }
}

/// The part before the first `c` is a prefix without `c`.
proof fn lemma_before_first_prefix(s: Seq<char>, c: char)
    ensures
        before_first(s, c).len() <= s.len(),
        before_first(s, c) == s.take(before_first(s, c).len() as int),
        !before_first(s, c).contains(c),
    decreases s.len(),
{
    if s.len() > 0 && s[0] != c {
        lemma_before_first_prefix(s.drop_first(), c);
        let b = before_first(s.drop_first(), c);
        assert(seq![s[0]] + b =~= s.take(b.len() as int + 1));
        assert(!(seq![s[0]] + b).contains(c)) by {
            if (seq![s[0]] + b).contains(c) {
                let j = choose|j: int| 0 <= j < b.len() + 1 && (seq![s[0]] + b)[j] == c;
                assert(b[j - 1] == c);
            }
        }
    } else if s.len() > 0 {
        assert(Seq::<char>::empty() =~= s.take(0));
    }
}

/// The part before the first `::` of `h`, `::`, `t` is `h` when `h` has no
/// `:`; with no `:` at all it is everything.
proof fn lemma_before_path_sep_split(h: Seq<char>, t: Seq<char>)
    requires
        !h.contains(':'),
    ensures
        before_path_sep(h + seq![':', ':'] + t) == h,
        before_path_sep(h) == h,
    decreases h.len(),
{
    let s = h + seq![':', ':'] + t;
    if h.len() == 0 {
        assert(s[0] == ':' && s[1] == ':');
        assert(h =~= Seq::<char>::empty());
    } else {
        assert(!h.drop_first().contains(':')) by {
            if h.drop_first().contains(':') {
                let j = choose|j: int| 0 <= j < h.drop_first().len() && h.drop_first()[j] == ':';
                assert(h[j + 1] == ':');
            }
        }
        assert(h[0] != ':') by {
            assert(h.contains(h[0]));
        }
        lemma_before_path_sep_split(h.drop_first(), t);
        assert(s.drop_first() =~= h.drop_first() + seq![':', ':'] + t);
        assert(seq![h[0]] + h.drop_first() =~= h);
    }
}

/// The part before the first `::` is a prefix.
proof fn lemma_before_path_sep_prefix(s: Seq<char>)
    ensures
        before_path_sep(s).len() <= s.len(),
        before_path_sep(s) == s.take(before_path_sep(s).len() as int),
    decreases s.len(),
{
    if s.len() >= 2 && !(s[0] == ':' && s[1] == ':') {
        lemma_before_path_sep_prefix(s.drop_first());
        let b = before_path_sep(s.drop_first());
        assert(seq![s[0]] + b =~= s.take(b.len() as int + 1));
    } else if s.len() >= 2 {
        assert(Seq::<char>::empty() =~= s.take(0));
    } else {
        assert(s =~= s.take(s.len() as int));
    }
}

/// Law: a crate's plotting label comes from its keywords when coloring by
/// keyword and from its categories otherwise, the other field playing no
/// part; it is the head, before any `::`, of the field's first
/// comma-separated entry, so a non-empty prefix of the field without a comma;
/// a field `A,REST` or `A::REST` whose `A` has neither `,` nor `:` gives `A`;
/// an absent field, or an empty head, gives no label.
pub proof fn law_plot_labels(
    keywords: Option<Seq<char>>,
    categories: Option<Seq<char>>,
    other: Option<Seq<char>>,
    a: Seq<char>,
    rest: Seq<char>,
)
    ensures
        spec_label_of(keywords, categories, true) == spec_label_of(keywords, other, true),
        spec_label_of(keywords, categories, false) == spec_label_of(other, categories, false),
        keywords is None ==> spec_label_of(keywords, categories, true) is None,
        categories is None ==> spec_label_of(keywords, categories, false) is None,
        forall|by_keyword: bool| #![trigger spec_label_of(keywords, categories, by_keyword)]
            (spec_label_of(keywords, categories, by_keyword) matches Some(l) ==> {
                let field = if by_keyword { keywords->0 } else { categories->0 };
                &&& l.len() > 0
                &&& l == field.take(l.len() as int)
                &&& !l.contains(',')
            }),
        a.len() > 0 && !a.contains(',') && !a.contains(':') ==> {
            &&& spec_label_of(Some(a + seq![','] + rest), categories, true) == Some(a)
            &&& spec_label_of(Some(a + seq![':', ':'] + rest), categories, true) == Some(a)
            &&& spec_label_of(Some(a), categories, true) == Some(a)
            &&& spec_label_of(keywords, Some(a + seq![','] + rest), false) == Some(a)
            &&& spec_label_of(keywords, Some(a), false) == Some(a)
        },
{
    assert forall|by_keyword: bool| #![trigger spec_label_of(keywords, categories, by_keyword)]
        (spec_label_of(keywords, categories, by_keyword) matches Some(l) ==> {
            let field = if by_keyword { keywords->0 } else { categories->0 };
            &&& l.len() > 0
            &&& l == field.take(l.len() as int)
            &&& !l.contains(',')
        }) by {
        if spec_label_of(keywords, categories, by_keyword) is Some {
            let field = if by_keyword { keywords->0 } else { categories->0 };
            let f = before_first(field, ',');
            let l = before_path_sep(f);
            lemma_before_first_prefix(field, ',');
            lemma_before_path_sep_prefix(f);
            assert(l =~= field.take(l.len() as int));
            assert(!l.contains(',')) by {
                if l.contains(',') {
                    let j = choose|j: int| 0 <= j < l.len() && l[j] == ',';
                    assert(f[j] == ',');
                }
            }
        }
    }
    if a.len() > 0 && !a.contains(',') && !a.contains(':') {
        let comma = seq![','] + rest;
        lemma_before_first_append(a, ',', comma);
        assert(a + seq![','] + rest =~= a + comma);
        assert(before_first(comma, ',') =~= Seq::<char>::empty());
        assert(a + Seq::<char>::empty() =~= a);
        lemma_before_first_append(a, ',', Seq::empty());
        let colons = seq![':', ':'] + rest;
        lemma_before_first_append(a, ',', colons);
        assert(a + seq![':', ':'] + rest =~= a + colons);
        assert(before_first(colons, ',') =~= seq![':', ':'] + before_first(rest, ',')) by {
            lemma_before_first_append(seq![':', ':'], ',', rest);
        }
        assert(a + before_first(colons, ',') =~= a + seq![':', ':'] + before_first(rest, ','));
        lemma_before_path_sep_split(a, before_first(rest, ','));
        lemma_before_path_sep_split(a, Seq::empty());
    }
}

} // verus!
