//! Lowering of a SCIP code index into the graph.
//!
//! Every SCIP symbol carries descriptors that encode its hierarchy: a namespace
//! or package becomes a module, a type a type container, a method, term or macro
//! an item. Each reference occurrence is attributed to the innermost definition
//! whose range contains it (or, for indexers that record no enclosing ranges,
//! to the nearest item defined before it), giving an edge to the referenced
//! symbol: `Import` when the occurrence has the import role, `Body` otherwise.

use vstd::prelude::*;
use crate::text::{chars_of, decimal_i32, decimal_text, push_char, string_of_range};
use protobuf::Message;
use crate::scip_lower::{doc_views, occ_views, str_views, OccView};

verus! {

/// The role bit of a definition occurrence.
pub const ROLE_DEFINITION: i32 = 1;

/// The role bit of an import occurrence.
pub const ROLE_IMPORT: i32 = 2;

/// The suffix number of a namespace (or package) descriptor.
pub const SUFFIX_NAMESPACE: i32 = 1;

/// The suffix number of a type descriptor.
pub const SUFFIX_TYPE: i32 = 2;

/// The suffix number of a term descriptor.
pub const SUFFIX_TERM: i32 = 3;

/// The suffix number of a method descriptor.
pub const SUFFIX_METHOD: i32 = 4;

/// The suffix number of a macro descriptor.
pub const SUFFIX_MACRO: i32 = 9;

/// The tool that produced an index.
#[derive(Clone, Debug)]
pub struct ScipToolInfo {
    pub name: String,
    pub version: String,
}

/// The metadata of an index.
#[derive(Clone, Debug)]
pub struct ScipMetadata {
    /// The project root, a `file://` URI.
    pub project_root: String,
    pub tool_info: Option<ScipToolInfo>,
}

/// One occurrence of a symbol in a document.
#[derive(Clone, Debug)]
pub struct ScipOccurrence {
    pub symbol: String,
    /// A bit set of roles (definition, import, ...).
    pub symbol_roles: i32,
    /// `[line, char, end_char]` or `[line, char, end_line, end_char]`.
    pub range: Vec<i32>,
    /// For a definition, the range of the whole definition, if recorded.
    pub enclosing_range: Vec<i32>,
}

/// One document of an index: the symbols it defines and its occurrences.
#[derive(Clone, Debug)]
pub struct ScipDocument {
    /// The symbols of the document's symbol information, in order.
    pub symbols: Vec<String>,
    pub occurrences: Vec<ScipOccurrence>,
}

/// A SCIP index, as the lowering reads it.
#[derive(Clone, Debug)]
pub struct ScipIndex {
    pub metadata: Option<ScipMetadata>,
    pub documents: Vec<ScipDocument>,
}

/// A document, by value.
pub struct DocumentView {
    pub symbols: Seq<Seq<char>>,
    pub occurrences: Seq<OccView>,
}

impl View for ScipDocument {
    type V = DocumentView;

    open spec fn view(&self) -> DocumentView {
        DocumentView { symbols: str_views(self.symbols@), occurrences: occ_views(self.occurrences@) }
    }
}

/// Metadata, by value: the project root and the tool's name and version.
pub struct MetadataView {
    pub project_root: Seq<char>,
    pub tool_info: Option<(Seq<char>, Seq<char>)>,
}

/// An index, by value.
pub struct IndexView {
    pub metadata: Option<MetadataView>,
    pub documents: Seq<DocumentView>,
}

impl View for ScipIndex {
    type V = IndexView;

    open spec fn view(&self) -> IndexView {
        IndexView {
            metadata: match self.metadata {
                Some(m) => Some(MetadataView {
                    project_root: m.project_root@,
                    tool_info: match m.tool_info {
                        Some(t) => Some((t.name@, t.version@)),
                        None => None,
                    },
                }),
                None => None,
            },
            documents: doc_views(self.documents@),
        }
    }
}

/// The index that protobuf decoding of `bytes` as a SCIP `Index` message
/// yields, or `None` when the bytes are no such message.
pub uninterp spec fn scip_decoded(bytes: Seq<u8>) -> Option<IndexView>;

/// Decodes a SCIP `Index` message (`protobuf::Message::parse_from_bytes` on
/// `scip::types::Index`) and keeps what the lowering reads: the project root,
/// the tool's name and version, and per document the symbols of its symbol
/// information and its occurrences.
#[verifier::external_body]
pub(crate) fn decode_scip(bytes: &[u8]) -> (r: Option<ScipIndex>)
    ensures
        r matches Some(i) ==> scip_decoded(bytes@) == Some(i@),
        r is None ==> scip_decoded(bytes@) is None,
{
    let index = scip::types::Index::parse_from_bytes(bytes).ok()?;
    let metadata = index.metadata.into_option().map(|m| ScipMetadata {
        project_root: m.project_root,
        tool_info: m.tool_info.into_option().map(|t| ScipToolInfo { name: t.name, version: t.version }),
    });
    let documents = index.documents.into_iter().map(|d| ScipDocument {
        symbols: d.symbols.into_iter().map(|s| s.symbol).collect(),
        occurrences: d.occurrences.into_iter().map(|o| ScipOccurrence {
            symbol: o.symbol, symbol_roles: o.symbol_roles, range: o.range, enclosing_range: o.enclosing_range,
        }).collect(),
    }).collect();
    Some(ScipIndex { metadata, documents })
}

/// One descriptor of a parsed symbol: its name and suffix number.
#[derive(Clone, Debug)]
pub struct ScipDescriptor {
    pub name: String,
    pub suffix: i32,
}

/// A descriptor, by value.
pub type Desc = (Seq<char>, i32);

impl View for ScipDescriptor {
    type V = Desc;

    open spec fn view(&self) -> Desc {
        (self.name@, self.suffix)
    }
}

/// Descriptors, by value.
pub open spec fn desc_views(v: Seq<ScipDescriptor>) -> Seq<Desc> {
    v.map_values(|d: ScipDescriptor| d@)
}

/// The descriptors that SCIP's symbol parser yields for `symbol`, or `None`
/// when the symbol does not parse.
pub uninterp spec fn scip_symbol_descriptors(symbol: Seq<char>) -> Option<Seq<Desc>>;

/// Parses a symbol with `scip::symbol::parse_symbol` and keeps each
/// descriptor's name and suffix number. The result is the parser's; the one
/// fact stated besides is that every descriptor consumes at least one
/// character of the symbol.
#[verifier::external_body]
pub(crate) fn parse_descriptors(symbol: &str) -> (r: Option<Vec<ScipDescriptor>>)
    ensures
        r is Some <==> scip_symbol_descriptors(symbol@) is Some,
        r matches Some(v) ==> desc_views(v@) == scip_symbol_descriptors(symbol@)->0,
        r matches Some(v) ==> v@.len() <= symbol@.len(),
{
    let parsed = scip::symbol::parse_symbol(symbol).ok()?;
    Some(parsed.descriptors.iter().map(|d| ScipDescriptor { name: d.name.clone(), suffix: d.suffix.value() }).collect())
}

/// The prefix that marks a local symbol.
pub open spec fn local_prefix() -> Seq<char> {
    seq!['l', 'o', 'c', 'a', 'l', ' ']
}

/// Whether a symbol is global: it does not start with `local `.
pub open spec fn spec_is_global_symbol(s: Seq<char>) -> bool {
    !(s.len() >= 6 && s.subrange(0, 6) == local_prefix())
}

/// Whether a symbol is global (not `local ...`).
pub fn is_global_symbol(sym: &str) -> (r: bool)
    ensures
        r == spec_is_global_symbol(sym@),
{
    let cs = chars_of(sym);
    if cs.len() < 6 {
        return true;
    }
    let local = cs[0] == 'l' && cs[1] == 'o' && cs[2] == 'c' && cs[3] == 'a' && cs[4] == 'l' && cs[5] == ' ';
    assert(local == (cs@.subrange(0, 6) =~= local_prefix()));
    !local
}

/// A descriptor's display name: `_` for the empty name.
pub open spec fn spec_descriptor_name(name: Seq<char>) -> Seq<char> {
    if name.len() == 0 { seq!['_'] } else { name }
}

/// A descriptor's display name, substituting `_` for the empty name.
pub fn descriptor_name(name: &str) -> (r: String)
    ensures
        r@ == spec_descriptor_name(name@),
{
    if name.is_empty() {
        let mut r = String::new();
        push_char(&mut r, '_');
        assert(r@ =~= seq!['_']);
        r
    } else {
        name.to_owned()
    }
}

/// The key of an intermediate namespace: `<ns>`, then per descriptor a `\u{1}`,
/// its name, a `\u{2}` and its suffix number in decimal.
pub open spec fn spec_synthetic_key(sig: Seq<Desc>) -> Seq<char>
    decreases sig.len(),
{
    if sig.len() == 0 {
        seq!['<', 'n', 's', '>']
    } else {
        spec_synthetic_key(sig.drop_last()) + seq!['\u{1}'] + sig.last().0 + seq!['\u{2}'] + decimal_text(sig.last().1 as int)
    }
}

/// A stable key for an intermediate namespace that the indexer did not emit.
pub fn synthetic_key(sig: &Vec<ScipDescriptor>) -> (r: String)
    ensures
        r@ == spec_synthetic_key(desc_views(sig@)),
{
    let mut key = String::new();
    push_char(&mut key, '<');
    push_char(&mut key, 'n');
    push_char(&mut key, 's');
    push_char(&mut key, '>');
    assert(key@ =~= seq!['<', 'n', 's', '>']);
    let mut i: usize = 0;
    while i < sig.len()
        invariant
            i <= sig@.len(),
            key@ == spec_synthetic_key(desc_views(sig@).take(i as int)),
        decreases sig@.len() - i,
    {
        let ghost before = key@;
        push_char(&mut key, '\u{1}');
        key.append(sig[i].name.as_str());
        push_char(&mut key, '\u{2}');
        let digits = decimal_i32(sig[i].suffix);
        key.append(digits.as_str());
        assert(desc_views(sig@).take(i + 1).drop_last() =~= desc_views(sig@).take(i as int));
        assert(desc_views(sig@).take(i + 1).last() == sig@[i as int]@);
        assert(key@ =~= before + seq!['\u{1}'] + sig@[i as int].name@ + seq!['\u{2}'] + decimal_text(sig@[i as int].suffix as int));
        i = i + 1;
    }
    assert(desc_views(sig@).take(sig@.len() as int) =~= desc_views(sig@));
    key
}

/// `s` without its trailing `c`s.
pub open spec fn trim_end(s: Seq<char>, c: char) -> Seq<char>
    decreases s.len(),
{
    if s.len() > 0 && s.last() == c { trim_end(s.drop_last(), c) } else { s }
}

/// The part of `s` after its last `c` (all of `s` when it has none).
pub open spec fn after_last(s: Seq<char>, c: char) -> Seq<char>
    decreases s.len(),
{
    if s.len() == 0 {
        s
    } else if s.last() == c {
        Seq::empty()
    } else {
        after_last(s.drop_last(), c).push(s.last())
    }
}

/// The last non-empty `/`-segment of a project root, if any.
pub open spec fn spec_project_basename(root: Seq<char>) -> Option<Seq<char>> {
    let seg = after_last(trim_end(root, '/'), '/');
    if seg.len() == 0 { None } else { Some(seg) }
}

/// The final path segment of a project root (trailing slashes ignored), used as
/// the crate name; `None` when it is empty.
pub fn project_basename(project_root: &str) -> (r: Option<String>)
    ensures
        r matches Some(s) ==> spec_project_basename(project_root@) == Some(s@),
        r is None ==> spec_project_basename(project_root@) is None,
{
    let cs = chars_of(project_root);
    let mut end = cs.len();
    assert(cs@.take(end as int) =~= cs@);
    while end > 0 && cs[end - 1] == '/'
        invariant
            end <= cs@.len(),
            trim_end(cs@, '/') == trim_end(cs@.take(end as int), '/'),
        decreases end,
    {
        assert(cs@.take(end as int).drop_last() =~= cs@.take(end - 1));
        end = end - 1;
    }
    assert(trim_end(cs@.take(end as int), '/') == cs@.take(end as int));
    let ghost t = cs@.take(end as int);
    let mut start = end;
    while start > 0 && cs[start - 1] != '/'
        invariant
            start <= end,
            end <= cs@.len(),
            t == cs@.take(end as int),
            after_last(t, '/') == after_last(cs@.take(start as int), '/') + cs@.subrange(start as int, end as int),
        decreases start,
    {
        let ghost pre = cs@.take(start as int);
        assert(pre.drop_last() =~= cs@.take(start - 1));
        assert(cs@.subrange(start - 1, end as int) =~= seq![pre.last()] + cs@.subrange(start as int, end as int));
        assert(after_last(pre, '/') == after_last(pre.drop_last(), '/').push(pre.last()));
        assert(after_last(pre.drop_last(), '/').push(pre.last()) + cs@.subrange(start as int, end as int)
            =~= after_last(pre.drop_last(), '/') + cs@.subrange(start - 1, end as int));
        start = start - 1;
    }
    assert(after_last(cs@.take(start as int), '/') =~= Seq::<char>::empty());
    assert(after_last(t, '/') =~= cs@.subrange(start as int, end as int));
    if start == end {
        None
    } else {
        Some(string_of_range(&cs, start, end))
    }
}

/// A normalized SCIP source range.
#[derive(Clone, Copy, Debug, PartialEq, Eq, Structural)]
pub struct Range {
    pub start_line: i32,
    pub start_char: i32,
    pub end_line: i32,
    pub end_char: i32,
}

/// The range a raw SCIP range denotes: three numbers for a single line, four
/// otherwise, anything else none.
pub open spec fn spec_range_from(v: Seq<i32>) -> Option<Range> {
    if v.len() == 3 {
        Some(Range { start_line: v[0], start_char: v[1], end_line: v[0], end_char: v[2] })
    } else if v.len() == 4 {
        Some(Range { start_line: v[0], start_char: v[1], end_line: v[2], end_char: v[3] })
    } else {
        None
    }
}

/// Lexicographic `<=` on positions.
pub open spec fn pos_le(a: (i32, i32), b: (i32, i32)) -> bool {
    a.0 < b.0 || (a.0 == b.0 && a.1 <= b.1)
}

/// Whether range `a` contains range `b`.
pub open spec fn range_contains(a: Range, b: Range) -> bool {
    pos_le((a.start_line, a.start_char), (b.start_line, b.start_char))
        && pos_le((b.end_line, b.end_char), (a.end_line, a.end_char))
}

/// The size of a range: its line count, then its character extent.
pub open spec fn range_span(a: Range) -> (int, int) {
    (a.end_line - a.start_line, a.end_char - a.start_char)
}

/// Lexicographic `<` on spans.
pub open spec fn span_lt(a: (int, int), b: (int, int)) -> bool {
    a.0 < b.0 || (a.0 == b.0 && a.1 < b.1)
}

impl Range {
    /// Reads `[line, char, end_char]` or `[line, char, end_line, end_char]`.
    pub fn from_vec(v: &Vec<i32>) -> (r: Option<Range>)
        ensures
            r == spec_range_from(v@),
    {
        if v.len() == 3 {
            Some(Range { start_line: v[0], start_char: v[1], end_line: v[0], end_char: v[2] })
        } else if v.len() == 4 {
            Some(Range { start_line: v[0], start_char: v[1], end_line: v[2], end_char: v[3] })
        } else {
            None
        }
    }

    /// Whether this range contains `other`.
    pub fn contains(&self, other: &Range) -> (r: bool)
        ensures
            r == range_contains(*self, *other),
    {
        (self.start_line < other.start_line || (self.start_line == other.start_line && self.start_char <= other.start_char))
            && (other.end_line < self.end_line || (other.end_line == self.end_line && other.end_char <= self.end_char))
    }

    /// The span of this range, as (lines, characters).
    pub fn span(&self) -> (r: (i64, i64))
        ensures
            r.0 == range_span(*self).0,
            r.1 == range_span(*self).1,
    {
        (self.end_line as i64 - self.start_line as i64, self.end_char as i64 - self.start_char as i64)
    }
}


/// Dropping trailing `c`s of `x` followed by one more `c` gives the same as
/// for `x`; nothing is dropped from a text not ending in `c`.
proof fn lemma_trim_end_push(x: Seq<char>, c: char)
    ensures
        trim_end(x.push(c), c) == trim_end(x, c),
        x.len() > 0 && x.last() != c ==> trim_end(x, c) == x,
{
    assert(x.push(c).drop_last() =~= x);
}

/// After the last `c` of `a`, `c`, `b`, where `b` has no `c`: `b`.
proof fn lemma_after_last_split(a: Seq<char>, c: char, b: Seq<char>)
    requires
        !b.contains(c),
    ensures
        after_last(a + seq![c] + b, c) == b,
    decreases b.len(),
{
    let s = a + seq![c] + b;
    if b.len() == 0 {
        assert(s.last() == c);
    } else {
        assert(b.last() != c) by {
            assert(b.contains(b.last()));
        }
        assert(!b.drop_last().contains(c)) by {
            if b.drop_last().contains(c) {
                let j = choose|j: int| 0 <= j < b.drop_last().len() && b.drop_last()[j] == c;
                assert(b[j] == c);
            }
        }
        lemma_after_last_split(a, c, b.drop_last());
        assert(s.drop_last() =~= a + seq![c] + b.drop_last());
        assert(b.drop_last().push(b.last()) =~= b);
    }
}

/// Law: a symbol is local exactly when it starts with `local `; every other
/// symbol is global.
pub proof fn law_local_symbols(rest: Seq<char>, s: Seq<char>)
    ensures
        !spec_is_global_symbol("local "@ + rest),
        !(s.len() >= 6 && s.take(6) == "local "@) ==> spec_is_global_symbol(s),
{
    reveal_strlit("local ");
    assert("local "@ =~= local_prefix());
    assert(("local "@ + rest).subrange(0, 6) =~= local_prefix());
    assert(s.len() >= 6 ==> s.take(6) =~= s.subrange(0, 6));
}

/// Law: the crate name of a project root is its last path segment, with
/// trailing slashes ignored: `DIR/NAME` and `DIR/NAME/` both give `NAME`
/// when `NAME` is non-empty and has no `/`; a root made only of slashes, or
/// empty, gives none.
pub proof fn law_project_basename(dir: Seq<char>, name: Seq<char>, k: nat)
    requires
        name.len() > 0,
        !name.contains('/'),
    ensures
        spec_project_basename(dir + seq!['/'] + name) == Some(name),
        spec_project_basename(dir + seq!['/'] + name + seq!['/']) == Some(name),
        spec_project_basename(Seq::new(k, |i: int| '/')) is None,
{
    let p = dir + seq!['/'] + name;
    assert(p.last() == name.last());
    assert(name.last() != '/') by {
        assert(name.contains(name.last()));
    }
    lemma_trim_end_push(p, '/');
    assert(p + seq!['/'] =~= p.push('/'));
    lemma_after_last_split(dir, '/', name);
    lemma_all_slashes(k);
}

/// Trimming a run of slashes leaves nothing.
proof fn lemma_all_slashes(k: nat)
    ensures
        trim_end(Seq::new(k, |i: int| '/'), '/').len() == 0,
    decreases k,
{
    if k > 0 {
        assert(Seq::new(k, |i: int| '/').drop_last() =~= Seq::new((k - 1) as nat, |i: int| '/'));
        lemma_all_slashes((k - 1) as nat);
    }
}

} // verus!
