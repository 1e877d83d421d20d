//! Path logic on `/`-separated path strings: the final component of a path
//! (std's `Path::file_name`), and for the normalized relative paths that a
//! project lists, the parent directory, the last segment, the extension and
//! the stem of a file name.

use vstd::prelude::*;
use crate::scip::after_last;
use crate::text::{chars_of, string_of_range};

verus! {

/// What std's `Path::file_name` gives for `path`: its final component, if any.
pub uninterp spec fn std_file_name(path: Seq<char>) -> Option<Seq<char>>;

/// The final component of `path`, by std's `Path::file_name` (`None` when the
/// path ends in `..` or has no final component).
#[verifier::external_body]
pub(crate) fn file_name_of(path: &str) -> (r: Option<String>)
    ensures
        r matches Some(n) ==> std_file_name(path@) == Some(n@),
        r is None ==> std_file_name(path@) is None,
{
    std::path::Path::new(path).file_name().and_then(|n| n.to_str()).map(|n| n.to_owned())
}

/// The part of `s` before its last `c` (empty when it has none).
pub open spec fn before_last(s: Seq<char>, c: char) -> Seq<char>
    decreases s.len(),
{
    if s.len() == 0 {
        s
    } else if s.last() == c {
        s.drop_last()
    } else {
        before_last(s.drop_last(), c)
    }
}

/// The directory of a relative path: everything before its last `/`, or the
/// empty path.
pub open spec fn rel_parent(p: Seq<char>) -> Seq<char> {
    before_last(p, '/')
}

/// The last segment of a relative path.
pub open spec fn last_segment(p: Seq<char>) -> Seq<char> {
    after_last(p, '/')
}

/// The extension of a file name: what follows its last `.`, when that dot is
/// not the name's first character (and the name is not `..`).
pub open spec fn spec_extension(name: Seq<char>) -> Option<Seq<char>> {
    let a = after_last(name, '.');
    if name == ".."@ || a.len() + 2 > name.len() { None } else { Some(a) }
}

/// The stem of a file name: what precedes its last `.`, when that dot is not
/// the name's first character; the whole name otherwise.
pub open spec fn spec_file_stem(name: Seq<char>) -> Seq<char> {
    let a = after_last(name, '.');
    if name == ".."@ || a.len() + 2 > name.len() { name } else { name.take(name.len() - a.len() - 1) }
}

/// The length of what follows the last `c` in `s`.
proof fn lemma_after_last_len(s: Seq<char>, c: char)
    ensures
        after_last(s, c).len() <= s.len(),
        after_last(s, c) == s.subrange(s.len() - after_last(s, c).len(), s.len() as int),
        after_last(s, c).len() < s.len() ==> s[s.len() - after_last(s, c).len() - 1] == c,
        forall|i: int| s.len() - after_last(s, c).len() <= i < s.len() ==> s[i] != c,
    decreases s.len(),
{
    if s.len() > 0 && s.last() != c {
        lemma_after_last_len(s.drop_last(), c);
        assert(after_last(s, c) =~= s.subrange(s.len() - after_last(s, c).len(), s.len() as int));
        assert forall|i: int| s.len() - after_last(s, c).len() <= i < s.len() implies s[i] != c by {
            if i < s.len() - 1 {
                assert(s[i] == s.drop_last()[i]);
            }
        }
    } else if s.len() > 0 {
        assert(after_last(s, c) =~= s.subrange(s.len() as int, s.len() as int));
    }
}

/// What precedes the last `c` in `s` is everything up to that `c`.
proof fn lemma_before_last(s: Seq<char>, c: char)
    ensures
        after_last(s, c).len() < s.len() ==> before_last(s, c) == s.take(s.len() - after_last(s, c).len() - 1),
        after_last(s, c).len() == s.len() ==> before_last(s, c).len() == 0,
        before_last(s, c).len() < s.len() || s.len() == 0,
    decreases s.len(),
{
    lemma_after_last_len(s, c);
    if s.len() > 0 && s.last() != c {
        lemma_before_last(s.drop_last(), c);
        lemma_after_last_len(s.drop_last(), c);
        if after_last(s, c).len() < s.len() {
            assert(s.drop_last().take(s.len() - after_last(s, c).len() - 1) =~= s.take(s.len() - after_last(s, c).len() - 1));
        }
    }
}

/// The position just after the last `c` in `cs` (0 when it has none).
fn after_last_start(cs: &Vec<char>, c: char) -> (k: usize)
    ensures
        k <= cs@.len(),
        k == cs@.len() - after_last(cs@, c).len(),
{
    proof {
        lemma_after_last_len(cs@, c);
    }
    let mut k = cs.len();
    while k > 0 && cs[k - 1] != c
        invariant
            k <= cs@.len(),
            forall|i: int| k <= i < cs@.len() ==> cs@[i] != c,
        decreases k,
    {
        k = k - 1;
    }
    proof {
        let a = after_last(cs@, c);
        let j = cs@.len() - a.len();
        if j < k {
            assert(cs@[k - 1] == c);
        } else if k < j {
            assert(cs@[j - 1] == c);
        }
    }
    k
}

/// The directory of a relative path.
pub fn rel_parent_of(p: &str) -> (r: String)
    ensures
        r@ == rel_parent(p@),
        r@.len() < p@.len() || p@.len() == 0,
{
    let cs = chars_of(p);
    let k = after_last_start(&cs, '/');
    proof {
        lemma_before_last(cs@, '/');
    }
    if k == 0 {
        String::new()
    } else {
        string_of_range(&cs, 0, k - 1)
    }
}

/// The last segment of a relative path.
pub fn last_segment_of(p: &str) -> (r: String)
    ensures
        r@ == last_segment(p@),
{
    let cs = chars_of(p);
    let k = after_last_start(&cs, '/');
    proof {
        lemma_after_last_len(cs@, '/');
    }
    string_of_range(&cs, k, cs.len())
}

/// Whether `name` is `..`.
fn is_dot_dot(cs: &Vec<char>) -> (r: bool)
    ensures
        r == (cs@ == ".."@),
{
    proof {
        reveal_strlit("..");
    }
    let r = cs.len() == 2 && cs[0] == '.' && cs[1] == '.';
    assert(r ==> cs@ =~= ".."@);
    r
}

/// The extension of a file name.
pub fn extension_of(name: &str) -> (r: Option<String>)
    ensures
        r matches Some(e) ==> spec_extension(name@) == Some(e@),
        r is None ==> spec_extension(name@) is None,
{
    let cs = chars_of(name);
    let k = after_last_start(&cs, '.');
    proof {
        lemma_after_last_len(cs@, '.');
    }
    if is_dot_dot(&cs) || k < 2 {
        None
    } else {
        Some(string_of_range(&cs, k, cs.len()))
    }
}

/// The stem of a file name.
pub fn file_stem_of(name: &str) -> (r: String)
    ensures
        r@ == spec_file_stem(name@),
{
    let cs = chars_of(name);
    let k = after_last_start(&cs, '.');
    proof {
        lemma_after_last_len(cs@, '.');
    }
    if is_dot_dot(&cs) || k < 2 {
        name.to_owned()
    } else {
        let r = string_of_range(&cs, 0, k - 1);
        assert(r@ =~= cs@.take(k - 1));
        r
    }
}

/// Splitting `a`, `c`, `b` at the last `c`, when `b` holds no `c`.
proof fn lemma_split_at_last(a: Seq<char>, c: char, b: Seq<char>)
    requires
        !b.contains(c),
    ensures
        after_last(a + seq![c] + b, c) == b,
        before_last(a + seq![c] + b, c) == a,
    decreases b.len(),
{
    let s = a + seq![c] + b;
    if b.len() == 0 {
        assert(s =~= a.push(c));
        assert(s.drop_last() =~= a);
    } else {
        assert(b.last() != c) by {
            assert(b[b.len() - 1] == b.last());
        }
        assert(!b.drop_last().contains(c)) by {
            if b.drop_last().contains(c) {
                let i = choose|i: int| 0 <= i < b.drop_last().len() && b.drop_last()[i] == c;
                assert(b[i] == c);
            }
        }
        lemma_split_at_last(a, c, b.drop_last());
        assert(s.drop_last() =~= a + seq![c] + b.drop_last());
        assert(s.last() == b.last());
        assert(after_last(a + seq![c] + b.drop_last(), c).push(b.last()) =~= b);
    }
}

/// A string with no `c` has nothing before its last `c` and is all after it.
proof fn lemma_no_sep(s: Seq<char>, c: char)
    requires
        !s.contains(c),
    ensures
        after_last(s, c) == s,
        before_last(s, c) == Seq::<char>::empty(),
    decreases s.len(),
{
    if s.len() > 0 {
        assert(s.last() != c) by {
            assert(s[s.len() - 1] == s.last());
        }
        assert(!s.drop_last().contains(c)) by {
            if s.drop_last().contains(c) {
                let i = choose|i: int| 0 <= i < s.drop_last().len() && s.drop_last()[i] == c;
                assert(s[i] == c);
            }
        }
        lemma_no_sep(s.drop_last(), c);
        assert(s.drop_last().push(s.last()) =~= s);
    }
}

/// Law: a relative path `DIR/NAME` (with no `/` in `NAME`) has parent `DIR`
/// and last segment `NAME`; a path with no `/` has the empty parent and is
/// its own last segment.
pub proof fn law_path_parts(dir: Seq<char>, name: Seq<char>)
    requires
        !name.contains('/'),
    ensures
        rel_parent(dir + "/"@ + name) == dir,
        last_segment(dir + "/"@ + name) == name,
        rel_parent(name) == Seq::<char>::empty(),
        last_segment(name) == name,
{
    reveal_strlit("/");
    assert("/"@ =~= seq!['/']);
    lemma_split_at_last(dir, '/', name);
    lemma_no_sep(name, '/');
}

/// Law: a file name `STEM.EXT` with a non-empty stem and no `.` in `EXT`,
/// other than `..`, has extension `EXT` and stem `STEM`; a name with no `.` has no extension and is
/// its own stem.
pub proof fn law_file_name_parts(stem: Seq<char>, ext: Seq<char>)
    requires
        stem.len() > 0,
        !ext.contains('.'),
        stem + "."@ + ext != ".."@,
    ensures
        spec_extension(stem + "."@ + ext) == Some(ext),
        spec_file_stem(stem + "."@ + ext) == stem,
        !stem.contains('.') ==> spec_extension(stem) is None && spec_file_stem(stem) == stem,
{
    reveal_strlit(".");
    reveal_strlit("..");
    assert("."@ =~= seq!['.']);
    let name = stem + "."@ + ext;
    lemma_split_at_last(stem, '.', ext);
    assert(name.len() == stem.len() + 1 + ext.len());
    assert(after_last(name, '.') == ext);
    assert(ext.len() + 2 <= name.len());
    assert(name.take(name.len() - ext.len() - 1) =~= stem);
    if !stem.contains('.') {
        lemma_no_sep(stem, '.');
        assert(".."@ =~= seq!['.', '.']);
        if stem == ".."@ {
            assert(stem[0] == '.');
            assert(stem.contains('.'));
        }
    }
}

} // verus!
