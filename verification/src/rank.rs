//! Ranking: ordering entries by a number, largest first, then by name in
//! lexicographic (code point) order, with a merge sort of positions.

use vstd::prelude::*;
use crate::text::chars_of;

verus! {

broadcast use vstd::seq_lib::group_to_multiset_ensures;

/// Lexicographic `<=` on strings, by code point.
pub open spec fn str_le(a: Seq<char>, b: Seq<char>) -> bool
    decreases a.len(),
{
    if a.len() == 0 {
        true
    } else if b.len() == 0 {
        false
    } else if a[0] != b[0] {
        a[0] < b[0]
    } else {
        str_le(a.drop_first(), b.drop_first())
    }
}

/// `str_le` is total.
pub proof fn lemma_str_le_total(a: Seq<char>, b: Seq<char>)
    ensures
        str_le(a, b) || str_le(b, a),
    decreases a.len(),
{
    if a.len() > 0 && b.len() > 0 && a[0] == b[0] {
        lemma_str_le_total(a.drop_first(), b.drop_first());
    }
}

/// `str_le` is transitive.
pub proof fn lemma_str_le_trans(a: Seq<char>, b: Seq<char>, c: Seq<char>)
    requires
        str_le(a, b),
        str_le(b, c),
    ensures
        str_le(a, c),
    decreases a.len(),
{
    if a.len() > 0 && b.len() > 0 && c.len() > 0 && a[0] == b[0] && b[0] == c[0] {
        lemma_str_le_trans(a.drop_first(), b.drop_first(), c.drop_first());
    }
}

/// `str_le` in both directions means equal strings.
pub proof fn lemma_str_le_antisym(a: Seq<char>, b: Seq<char>)
    requires
        str_le(a, b),
        str_le(b, a),
    ensures
        a == b,
    decreases a.len(),
{
    if a.len() > 0 && b.len() > 0 {
        lemma_str_le_antisym(a.drop_first(), b.drop_first());
        assert(a =~= seq![a[0]] + a.drop_first());
        assert(b =~= seq![b[0]] + b.drop_first());
    }
}

/// Whether `a` comes no later than `b`: a larger rank first, then the name.
pub open spec fn ranked_le(a: (int, Seq<char>), b: (int, Seq<char>)) -> bool {
    a.0 > b.0 || (a.0 == b.0 && str_le(a.1, b.1))
}

/// `ranked_le` is a total preorder.
pub proof fn lemma_ranked_le(a: (int, Seq<char>), b: (int, Seq<char>), c: (int, Seq<char>))
    ensures
        ranked_le(a, b) || ranked_le(b, a),
        ranked_le(a, b) && ranked_le(b, c) ==> ranked_le(a, c),
{
    lemma_str_le_total(a.1, b.1);
    if ranked_le(a, b) && ranked_le(b, c) && a.0 == b.0 && b.0 == c.0 {
        lemma_str_le_trans(a.1, b.1, c.1);
    }
}

/// Whether `a <= b` lexicographically.
pub fn str_le_exec(a: &str, b: &str) -> (r: bool)
    ensures
        r == str_le(a@, b@),
{
    let x = chars_of(a);
    let y = chars_of(b);
    let mut i: usize = 0;
    assert(x@.skip(0) =~= x@);
    assert(y@.skip(0) =~= y@);
    while i < x.len() && i < y.len() && x[i] == y[i]
        invariant
            i <= x@.len(),
            i <= y@.len(),
            x@ == a@,
            y@ == b@,
            str_le(a@, b@) == str_le(x@.skip(i as int), y@.skip(i as int)),
        decreases x@.len() - i,
    {
        assert(x@.skip(i as int).drop_first() =~= x@.skip(i + 1));
        assert(y@.skip(i as int).drop_first() =~= y@.skip(i + 1));
        i = i + 1;
    }
    if i == x.len() {
        true
    } else if i == y.len() {
        false
    } else {
        x[i] < y[i]
    }
}

/// A ranking key, by value.
pub open spec fn key_view(k: (i128, String)) -> (int, Seq<char>) {
    (k.0 as int, k.1@)
}

/// Whether the positions `idx` list keys in ranked order.
pub open spec fn ranked(keys: Seq<(i128, String)>, idx: Seq<usize>) -> bool {
    &&& forall|i: int| 0 <= i < idx.len() ==> (#[trigger] idx[i]) < keys.len()
    &&& forall|i: int, j: int| 0 <= i < j < idx.len() ==> ranked_le(key_view(keys[idx[i] as int]), key_view(keys[idx[j] as int]))
}

/// Whether the entry at position `i` comes no later than that at `j`.
fn key_le(keys: &Vec<(i128, String)>, i: usize, j: usize) -> (r: bool)
    requires
        i < keys@.len(),
        j < keys@.len(),
    ensures
        r == ranked_le(key_view(keys@[i as int]), key_view(keys@[j as int])),
{
    let (a, b) = (&keys[i], &keys[j]);
    a.0 > b.0 || (a.0 == b.0 && str_le_exec(a.1.as_str(), b.1.as_str()))
}

/// Merges two ranked position lists into one.
fn merge(keys: &Vec<(i128, String)>, a: Vec<usize>, b: Vec<usize>) -> (r: Vec<usize>)
    requires
        ranked(keys@, a@),
        ranked(keys@, b@),
    ensures
        ranked(keys@, r@),
        r@.to_multiset() == a@.to_multiset().add(b@.to_multiset()),
{
    let mut r: Vec<usize> = Vec::new();
    let mut i: usize = 0;
    let mut j: usize = 0;
    while i < a.len() || j < b.len()
        invariant
            i <= a@.len(),
            j <= b@.len(),
            ranked(keys@, a@),
            ranked(keys@, b@),
            ranked(keys@, r@),
            r@.to_multiset() == a@.take(i as int).to_multiset().add(b@.take(j as int).to_multiset()),
            r@.len() > 0 ==> forall|k: int| i <= k < a@.len() ==> ranked_le(key_view(keys@[r@.last() as int]), key_view(keys@[#[trigger] a@[k] as int])),
            r@.len() > 0 ==> forall|k: int| j <= k < b@.len() ==> ranked_le(key_view(keys@[r@.last() as int]), key_view(keys@[#[trigger] b@[k] as int])),
        decreases a@.len() + b@.len() - i - j,
    {
        let take_a = if i >= a.len() {
            false
        } else if j >= b.len() {
            true
        } else {
            key_le(keys, a[i], b[j])
        };
        let x = if take_a { a[i] } else { b[j] };
        proof {
            if take_a {
                assert forall|k: int| j <= k < b@.len() implies ranked_le(key_view(keys@[x as int]), key_view(keys@[#[trigger] b@[k] as int])) by {
                    lemma_ranked_le(key_view(keys@[x as int]), key_view(keys@[b@[j as int] as int]), key_view(keys@[b@[k] as int]));
                }
                assert forall|k: int| i + 1 <= k < a@.len() implies ranked_le(key_view(keys@[x as int]), key_view(keys@[#[trigger] a@[k] as int])) by {}
            } else {
                if i < a@.len() {
                    lemma_ranked_le(key_view(keys@[a@[i as int] as int]), key_view(keys@[x as int]), key_view(keys@[x as int]));
                }
                assert forall|k: int| i <= k < a@.len() implies ranked_le(key_view(keys@[x as int]), key_view(keys@[#[trigger] a@[k] as int])) by {
                    lemma_ranked_le(key_view(keys@[x as int]), key_view(keys@[a@[i as int] as int]), key_view(keys@[a@[k] as int]));
                }
                assert forall|k: int| j + 1 <= k < b@.len() implies ranked_le(key_view(keys@[x as int]), key_view(keys@[#[trigger] b@[k] as int])) by {}
            }
        }
        let ghost old_r = r@;
        r.push(x);
        proof {
            assert forall|p: int, q: int| 0 <= p < q < r@.len() implies ranked_le(key_view(keys@[r@[p] as int]), key_view(keys@[r@[q] as int])) by {
                if q == r@.len() - 1 && p < q {
                    if take_a {
                        assert(a@[i as int] == x);
                    } else {
                        assert(b@[j as int] == x);
                    }
                    lemma_ranked_le(key_view(keys@[r@[p] as int]), key_view(keys@[old_r.last() as int]), key_view(keys@[x as int]));
                }
            }
            if take_a {
                assert(a@.take(i + 1) =~= a@.take(i as int).push(x));
            } else {
                assert(b@.take(j + 1) =~= b@.take(j as int).push(x));
            }
        }
        if take_a {
            i = i + 1;
        } else {
            j = j + 1;
        }
    }
    assert(a@.take(a@.len() as int) =~= a@);
    assert(b@.take(b@.len() as int) =~= b@);
    r
}

/// Sorts positions into ranked order.
fn merge_sort(keys: &Vec<(i128, String)>, v: Vec<usize>) -> (r: Vec<usize>)
    requires
        forall|i: int| 0 <= i < v@.len() ==> (#[trigger] v@[i]) < keys@.len(),
    ensures
        ranked(keys@, r@),
        r@.to_multiset() == v@.to_multiset(),
    decreases v@.len(),
{
    if v.len() <= 1 {
        return v;
    }
    let ghost whole = v@;
    let mut left = v;
    let mid = left.len() / 2;
    let right = left.split_off(mid);
    proof {
        assert(whole =~= left@ + right@);
        vstd::seq_lib::lemma_multiset_commutative(left@, right@);
    }
    let l = merge_sort(keys, left);
    let r = merge_sort(keys, right);
    merge(keys, l, r)
}

/// The positions of `keys` in ranked order: largest rank first, ties by name.
pub fn rank_order(keys: &Vec<(i128, String)>) -> (r: Vec<usize>)
    ensures
        ranked(keys@, r@),
        r@.to_multiset() == Seq::new(keys@.len(), |i: int| i as usize).to_multiset(),
{
    let mut v: Vec<usize> = Vec::new();
    let mut i: usize = 0;
    while i < keys.len()
        invariant
            i <= keys@.len(),
            v@ == Seq::new(i as nat, |k: int| k as usize),
        decreases keys@.len() - i,
    {
        v.push(i);
        assert(v@ =~= Seq::new((i + 1) as nat, |k: int| k as usize));
        i = i + 1;
    }
    merge_sort(keys, v)
}


/// A name comes no later than any name it starts.
proof fn lemma_prefix_le(p: Seq<char>, q: Seq<char>)
    ensures
        str_le(p, p + q),
    decreases p.len(),
{
    if p.len() > 0 {
        assert((p + q).drop_first() =~= p.drop_first() + q);
        assert((p + q)[0] == p[0]);
        lemma_prefix_le(p.drop_first(), q);
    }
}

/// Where two names first differ, the smaller character comes first.
proof fn lemma_first_difference(a: Seq<char>, b: Seq<char>, k: int)
    requires
        0 <= k < a.len(),
        k < b.len(),
        a.take(k) == b.take(k),
        a[k] < b[k],
    ensures
        str_le(a, b),
        !str_le(b, a),
    decreases k,
{
    if k > 0 {
        assert(a[0] == a.take(k)[0]);
        assert(b[0] == b.take(k)[0]);
        assert(a.drop_first().take(k - 1) =~= a.take(k).drop_first());
        assert(b.drop_first().take(k - 1) =~= b.take(k).drop_first());
        lemma_first_difference(a.drop_first(), b.drop_first(), k - 1);
    }
}

/// Law: names are ordered by code point, first difference deciding: a name
/// comes no later than any longer name it starts, and where two names first
/// differ, the smaller character comes first and not the other way round.
pub proof fn law_name_order(p: Seq<char>, q: Seq<char>, a: Seq<char>, b: Seq<char>, k: int)
    ensures
        str_le(p, p + q),
        0 <= k < a.len() && k < b.len() && a.take(k) == b.take(k) && a[k] < b[k]
            ==> str_le(a, b) && !str_le(b, a),
{
    lemma_prefix_le(p, q);
    if 0 <= k < a.len() && k < b.len() && a.take(k) == b.take(k) && a[k] < b[k] {
        lemma_first_difference(a, b, k);
    }
}

/// Law: a larger number ranks first whatever the names; equal numbers rank
/// by name.
pub proof fn law_rank_order(a: (int, Seq<char>), b: (int, Seq<char>))
    ensures
        a.0 > b.0 ==> ranked_le(a, b) && !ranked_le(b, a),
        a.0 == b.0 ==> (ranked_le(a, b) <==> str_le(a.1, b.1)),
{
}

} // verus!
