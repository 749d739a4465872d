//! Lexicographic order on byte strings, and sorting of fixed-size digests.

use vstd::prelude::*;
use vstd::relations::{sorted_by, total_ordering};
use vstd::string::StrSliceExecFns;
use crate::text::string_views;

verus! {

/// `a` comes no later than `b` in lexicographic byte order (a proper prefix
/// comes first), the order of `Ord` on byte slices and byte arrays.
pub open spec fn lex_le(a: Seq<u8>, b: Seq<u8>) -> bool
    decreases a.len(),
{
    if a.len() == 0 {
        true
    } else if b.len() == 0 {
        false
    } else if a[0] != b[0] {
        a[0] < b[0]
    } else {
        lex_le(a.drop_first(), b.drop_first())
    }
}

/// Byte strings of equal length are ordered by their first differing byte:
/// when `a` and `b` agree before position `k` and differ there, `a` comes
/// first exactly when its byte at `k` is the smaller.
pub proof fn lemma_lex_first_difference(a: Seq<u8>, b: Seq<u8>, k: int)
    requires
        a.len() == b.len(),
        0 <= k < a.len(),
        a.subrange(0, k) == b.subrange(0, k),
        a[k] != b[k],
    ensures
        lex_le(a, b) <==> a[k] < b[k],
    decreases k,
{
    if k > 0 {
        assert(a[0] == a.subrange(0, k)[0]);
        assert(b[0] == b.subrange(0, k)[0]);
        assert(a.drop_first().subrange(0, k - 1) =~= a.subrange(0, k).drop_first());
        assert(b.drop_first().subrange(0, k - 1) =~= b.subrange(0, k).drop_first());
        lemma_lex_first_difference(a.drop_first(), b.drop_first(), k - 1);
    }
}

/// A byte string comes no later than any longer string that it begins.
pub proof fn lemma_lex_prefix_first(a: Seq<u8>, b: Seq<u8>)
    requires
        a.len() <= b.len(),
        b.subrange(0, a.len() as int) == a,
    ensures
        lex_le(a, b),
    decreases a.len(),
{
    if a.len() > 0 {
        assert(a[0] == b.subrange(0, a.len() as int)[0]);
        assert(b.drop_first().subrange(0, a.len() - 1) =~= a.drop_first());
        lemma_lex_prefix_first(a.drop_first(), b.drop_first());
    }
}

/// The lexicographic order as a relation.
pub open spec fn lex_order() -> spec_fn(Seq<u8>, Seq<u8>) -> bool {
    |a: Seq<u8>, b: Seq<u8>| lex_le(a, b)
}

proof fn lemma_lex_reflexive(a: Seq<u8>)
    ensures
        lex_le(a, a),
    decreases a.len(),
{
    if a.len() > 0 {
        lemma_lex_reflexive(a.drop_first());
    }
}

proof fn lemma_lex_antisymmetric(a: Seq<u8>, b: Seq<u8>)
    requires
        lex_le(a, b),
        lex_le(b, a),
    ensures
        a == b,
    decreases a.len(),
{
    if a.len() > 0 && b.len() > 0 {
        lemma_lex_antisymmetric(a.drop_first(), b.drop_first());
        assert(a =~= seq![a[0]] + a.drop_first());
        assert(b =~= seq![b[0]] + b.drop_first());
    } else {
        assert(a =~= b);
    }
}

proof fn lemma_lex_transitive(a: Seq<u8>, b: Seq<u8>, c: Seq<u8>)
    requires
        lex_le(a, b),
        lex_le(b, c),
    ensures
        lex_le(a, c),
    decreases a.len(),
{
    if a.len() > 0 && b.len() > 0 && c.len() > 0 {
        if a[0] == b[0] && b[0] == c[0] {
            lemma_lex_transitive(a.drop_first(), b.drop_first(), c.drop_first());
        }
    }
}

proof fn lemma_lex_connected(a: Seq<u8>, b: Seq<u8>)
    ensures
        lex_le(a, b) || lex_le(b, a),
    decreases a.len(),
{
    if a.len() > 0 && b.len() > 0 && a[0] == b[0] {
        lemma_lex_connected(a.drop_first(), b.drop_first());
    }
}

/// The lexicographic order is a total order.
pub proof fn lemma_lex_total()
    ensures
        total_ordering(lex_order()),
{
    assert forall|a: Seq<u8>| #[trigger] lex_order()(a, a) by {
        lemma_lex_reflexive(a);
    }
    assert forall|a: Seq<u8>, b: Seq<u8>|
        #[trigger] lex_order()(a, b) && #[trigger] lex_order()(b, a) implies a == b by {
        lemma_lex_antisymmetric(a, b);
    }
    assert forall|a: Seq<u8>, b: Seq<u8>, c: Seq<u8>|
        #[trigger] lex_order()(a, b) && #[trigger] lex_order()(b, c) implies lex_order()(a, c) by {
        lemma_lex_transitive(a, b, c);
    }
    assert forall|a: Seq<u8>, b: Seq<u8>| #[trigger] lex_order()(a, b) || #[trigger] lex_order()(b, a) by {
        lemma_lex_connected(a, b);
    }
}

/// The contents of a list of digests.
pub open spec fn digest_views<const N: usize>(v: Seq<[u8; N]>) -> Seq<Seq<u8>> {
    v.map_values(|d: [u8; N]| d@)
}

/// Sorting depends only on which digests there are, not on their order:
/// two lists holding the same digests, each as often, sort to the same list.
pub proof fn lemma_sort_order_independent(a: Seq<Seq<u8>>, b: Seq<Seq<u8>>)
    requires
        a.to_multiset() == b.to_multiset(),
    ensures
        a.sort_by(lex_order()) == b.sort_by(lex_order()),
{
    lemma_lex_total();
    a.lemma_sort_by_ensures(lex_order());
    b.lemma_sort_by_ensures(lex_order());
    vstd::seq_lib::lemma_sorted_unique(a.sort_by(lex_order()), b.sort_by(lex_order()), lex_order());
}

/// Sorting yields the same digests, in ascending order.
pub proof fn lemma_sort_sorted_permutation(a: Seq<Seq<u8>>)
    ensures
        sorted_by(a.sort_by(lex_order()), lex_order()),
        a.sort_by(lex_order()).to_multiset() == a.to_multiset(),
{
    lemma_lex_total();
    a.lemma_sort_by_ensures(lex_order());
}

/// Compares two digests in lexicographic order.
pub fn digest_le<const N: usize>(a: &[u8; N], b: &[u8; N]) -> (res: bool)
    ensures
        res == lex_le(a@, b@),
{
    let mut i: usize = 0;
    assert(a@.skip(0) =~= a@);
    assert(b@.skip(0) =~= b@);
    while i < N
        invariant
            0 <= i <= N,
            a@.len() == N,
            b@.len() == N,
            lex_le(a@, b@) == lex_le(a@.skip(i as int), b@.skip(i as int)),
        decreases N - i,
    {
        assert(a@.skip(i as int)[0] == a@[i as int]);
        assert(b@.skip(i as int)[0] == b@[i as int]);
        assert(a@.skip(i as int).drop_first() =~= a@.skip(i + 1));
        assert(b@.skip(i as int).drop_first() =~= b@.skip(i + 1));
        if a[i] != b[i] {
            return a[i] < b[i];
        }
        i = i + 1;
    }
    assert(a@.skip(i as int).len() == 0);
    true
}

proof fn lemma_insert_to_multiset<A>(s: Seq<A>, p: int, x: A)
    requires
        0 <= p <= s.len(),
    ensures
        s.insert(p, x).to_multiset() == s.to_multiset().insert(x),
{
    broadcast use vstd::seq_lib::lemma_multiset_commutative;
    broadcast use vstd::seq_lib::group_to_multiset_ensures;
    let l = s.take(p);
    let r = s.skip(p);
    assert(s =~= l + r);
    assert(s.insert(p, x) =~= l.push(x) + r);
    assert(s.insert(p, x).to_multiset() =~= l.push(x).to_multiset().add(r.to_multiset()));
    assert(s.to_multiset() =~= l.to_multiset().add(r.to_multiset()));
    assert(l.push(x).to_multiset() =~= l.to_multiset().insert(x));
    assert(s.insert(p, x).to_multiset() =~= s.to_multiset().insert(x));
}

/// Sorts digests into ascending lexicographic order.
pub fn sort_digests<const N: usize>(v: &Vec<[u8; N]>) -> (res: Vec<[u8; N]>)
    ensures
        digest_views(res@) == digest_views(v@).sort_by(lex_order()),
        res@.len() == v@.len(),
{
    proof {
        lemma_lex_total();
    }
    let mut out: Vec<[u8; N]> = Vec::new();
    let ghost dv = digest_views(v@);
    let mut i: usize = 0;
    assert(digest_views(out@) =~= dv.take(0));
    while i < v.len()
        invariant
            0 <= i <= v@.len(),
            dv == digest_views(v@),
            total_ordering(lex_order()),
            sorted_by(digest_views(out@), lex_order()),
            digest_views(out@).to_multiset() == dv.take(i as int).to_multiset(),
        decreases v@.len() - i,
    {
        let x = v[i];
        let mut p: usize = 0;
        while p < out.len() && !digest_le(&x, &out[p])
            invariant
                0 <= p <= out@.len(),
                forall|q: int| 0 <= q < p ==> !lex_le(x@, #[trigger] out@[q]@),
            decreases out@.len() - p,
        {
            p = p + 1;
        }
        let ghost old_out = digest_views(out@);
        out.insert(p, x);
        proof {
            let nv = digest_views(out@);
            assert(nv =~= old_out.insert(p as int, x@));
            assert forall|a: int, b: int| 0 <= a < b < nv.len() implies #[trigger] lex_order()(nv[a], nv[b]) by {
                if b < p {
                    assert(lex_order()(old_out[a], old_out[b]));
                } else if b == p {
                    assert(!lex_le(x@, old_out[a]));
                    assert(lex_order()(x@, old_out[a]) || lex_order()(old_out[a], x@));
                } else if a == p {
                    assert(lex_le(x@, old_out[p as int]));
                    if b - 1 > p {
                        assert(lex_order()(old_out[p as int], old_out[b - 1]));
                        assert(lex_order()(x@, old_out[p as int]));
                    }
                } else if a < p {
                    assert(lex_order()(old_out[a], old_out[b - 1]));
                } else {
                    assert(lex_order()(old_out[a - 1], old_out[b - 1]));
                }
            }
            lemma_insert_to_multiset(old_out, p as int, x@);
            assert(dv.take(i + 1) =~= dv.take(i as int).push(x@));
            vstd::seq_lib::to_multiset_build(dv.take(i as int), x@);
        }
        i = i + 1;
    }
    proof {
        assert(dv.take(v@.len() as int) =~= dv);
        dv.lemma_sort_by_ensures(lex_order());
        vstd::seq_lib::lemma_sorted_unique(digest_views(out@), dv.sort_by(lex_order()), lex_order());
        broadcast use vstd::seq_lib::group_to_multiset_ensures;
        assert(digest_views(out@).len() == dv.to_multiset().len());
    }
    out
}

/// `a` comes no later than `b` in lexicographic code point order, the order
/// of `Ord` on `str` and `String` (byte order of UTF-8 is code point order).
pub open spec fn char_lex_le(a: Seq<char>, b: Seq<char>) -> bool
    decreases a.len(),
{
    if a.len() == 0 {
        true
    } else if b.len() == 0 {
        false
    } else if a[0] != b[0] {
        (a[0] as u32) < (b[0] as u32)
    } else {
        char_lex_le(a.drop_first(), b.drop_first())
    }
}

/// The code point order on strings as a relation.
pub open spec fn char_lex_order() -> spec_fn(Seq<char>, Seq<char>) -> bool {
    |a: Seq<char>, b: Seq<char>| char_lex_le(a, b)
}

proof fn lemma_char_lex_reflexive(a: Seq<char>)
    ensures
        char_lex_le(a, a),
    decreases a.len(),
{
    if a.len() > 0 {
        lemma_char_lex_reflexive(a.drop_first());
    }
}

proof fn lemma_char_lex_antisymmetric(a: Seq<char>, b: Seq<char>)
    requires
        char_lex_le(a, b),
        char_lex_le(b, a),
    ensures
        a == b,
    decreases a.len(),
{
    if a.len() > 0 && b.len() > 0 {
        if a[0] == b[0] {
            lemma_char_lex_antisymmetric(a.drop_first(), b.drop_first());
        }
        assert(a =~= seq![a[0]] + a.drop_first());
        assert(b =~= seq![b[0]] + b.drop_first());
    } else {
        assert(a =~= b);
    }
}

proof fn lemma_char_lex_transitive(a: Seq<char>, b: Seq<char>, c: Seq<char>)
    requires
        char_lex_le(a, b),
        char_lex_le(b, c),
    ensures
        char_lex_le(a, c),
    decreases a.len(),
{
    if a.len() > 0 && b.len() > 0 && c.len() > 0 {
        if a[0] == b[0] && b[0] == c[0] {
            lemma_char_lex_transitive(a.drop_first(), b.drop_first(), c.drop_first());
        }
    }
}

proof fn lemma_char_lex_connected(a: Seq<char>, b: Seq<char>)
    ensures
        char_lex_le(a, b) || char_lex_le(b, a),
    decreases a.len(),
{
    if a.len() > 0 && b.len() > 0 {
        if a[0] == b[0] {
            lemma_char_lex_connected(a.drop_first(), b.drop_first());
        } else {
            vstd::utf8::char_u32_cast(a[0], a[0] as u32);
            vstd::utf8::char_u32_cast(b[0], b[0] as u32);
        }
    }
}

/// The code point order is a total order.
pub proof fn lemma_char_lex_total()
    ensures
        total_ordering(char_lex_order()),
{
    assert forall|a: Seq<char>| #[trigger] char_lex_order()(a, a) by {
        lemma_char_lex_reflexive(a);
    }
    assert forall|a: Seq<char>, b: Seq<char>|
        #[trigger] char_lex_order()(a, b) && #[trigger] char_lex_order()(b, a) implies a == b by {
        lemma_char_lex_antisymmetric(a, b);
    }
    assert forall|a: Seq<char>, b: Seq<char>, c: Seq<char>|
        #[trigger] char_lex_order()(a, b) && #[trigger] char_lex_order()(b, c) implies char_lex_order()(
        a,
        c,
    ) by {
        lemma_char_lex_transitive(a, b, c);
    }
    assert forall|a: Seq<char>, b: Seq<char>|
        #[trigger] char_lex_order()(a, b) || #[trigger] char_lex_order()(b, a) by {
        lemma_char_lex_connected(a, b);
    }
}

/// Compares two strings in code point order.
pub fn string_le(a: &str, b: &str) -> (res: bool)
    ensures
        res == char_lex_le(a@, b@),
{
    let n = a.unicode_len();
    let m = b.unicode_len();
    let mut i: usize = 0;
    assert(a@.skip(0) =~= a@);
    assert(b@.skip(0) =~= b@);
    while i < n && i < m
        invariant
            0 <= i <= n,
            i <= m,
            n == a@.len(),
            m == b@.len(),
            char_lex_le(a@, b@) == char_lex_le(a@.skip(i as int), b@.skip(i as int)),
        decreases n - i,
    {
        let ca = a.get_char(i);
        let cb = b.get_char(i);
        assert(a@.skip(i as int)[0] == ca);
        assert(b@.skip(i as int)[0] == cb);
        assert(a@.skip(i as int).drop_first() =~= a@.skip(i + 1));
        assert(b@.skip(i as int).drop_first() =~= b@.skip(i + 1));
        if ca != cb {
            return (ca as u32) < (cb as u32);
        }
        i = i + 1;
    }
    i == n
}

/// Sorts strings into ascending code point order, as `sort` on a
/// `Vec<String>` does.
pub fn sort_strings(v: &Vec<String>) -> (res: Vec<String>)
    ensures
        string_views(res@) == string_views(v@).sort_by(char_lex_order()),
        res@.len() == v@.len(),
{
    proof {
        lemma_char_lex_total();
    }
    let mut out: Vec<String> = Vec::new();
    let ghost sv = string_views(v@);
    let mut i: usize = 0;
    assert(string_views(out@) =~= sv.take(0));
    while i < v.len()
        invariant
            0 <= i <= v@.len(),
            sv == string_views(v@),
            total_ordering(char_lex_order()),
            sorted_by(string_views(out@), char_lex_order()),
            string_views(out@).to_multiset() == sv.take(i as int).to_multiset(),
        decreases v@.len() - i,
    {
        let x = v[i].clone();
        let mut p: usize = 0;
        while p < out.len() && !string_le(x.as_str(), out[p].as_str())
            invariant
                0 <= p <= out@.len(),
                forall|q: int| 0 <= q < p ==> !char_lex_le(x@, #[trigger] out@[q]@),
            decreases out@.len() - p,
        {
            p = p + 1;
        }
        let ghost old_out = string_views(out@);
        out.insert(p, x);
        proof {
            let nv = string_views(out@);
            assert(nv =~= old_out.insert(p as int, x@));
            assert forall|a: int, b: int| 0 <= a < b < nv.len() implies #[trigger] char_lex_order()(nv[a], nv[b]) by {
                if b < p {
                    assert(char_lex_order()(old_out[a], old_out[b]));
                } else if b == p {
                    assert(!char_lex_le(x@, old_out[a]));
                    assert(char_lex_order()(x@, old_out[a]) || char_lex_order()(old_out[a], x@));
                } else if a == p {
                    assert(char_lex_le(x@, old_out[p as int]));
                    if b - 1 > p {
                        assert(char_lex_order()(old_out[p as int], old_out[b - 1]));
                        assert(char_lex_order()(x@, old_out[p as int]));
                    }
                } else if a < p {
                    assert(char_lex_order()(old_out[a], old_out[b - 1]));
                } else {
                    assert(char_lex_order()(old_out[a - 1], old_out[b - 1]));
                }
            }
            lemma_insert_to_multiset(old_out, p as int, x@);
            assert(sv.take(i + 1) =~= sv.take(i as int).push(x@));
            vstd::seq_lib::to_multiset_build(sv.take(i as int), x@);
        }
        i = i + 1;
    }
    proof {
        assert(sv.take(v@.len() as int) =~= sv);
        sv.lemma_sort_by_ensures(char_lex_order());
        vstd::seq_lib::lemma_sorted_unique(string_views(out@), sv.sort_by(char_lex_order()), char_lex_order());
        broadcast use vstd::seq_lib::group_to_multiset_ensures;
        assert(string_views(out@).len() == sv.to_multiset().len());
    }
    out
}

/// `s` with each run of equal neighbours reduced to one, as `Vec::dedup`.
pub open spec fn spec_dedup(s: Seq<Seq<char>>) -> Seq<Seq<char>>
    decreases s.len(),
{
    if s.len() <= 1 {
        s
    } else if s[s.len() - 1] == s[s.len() - 2] {
        spec_dedup(s.drop_last())
    } else {
        spec_dedup(s.drop_last()).push(s.last())
    }
}

/// A copy of `v` with each run of equal neighbours reduced to one.
pub fn dedup_strings(v: &Vec<String>) -> (res: Vec<String>)
    ensures
        string_views(res@) == spec_dedup(string_views(v@)),
{
    let mut out: Vec<String> = Vec::new();
    let ghost sv = string_views(v@);
    let mut i: usize = 0;
    assert(string_views(out@) =~= spec_dedup(sv.take(0)));
    while i < v.len()
        invariant
            0 <= i <= v@.len(),
            sv == string_views(v@),
            string_views(out@) == spec_dedup(sv.take(i as int)),
        decreases v@.len() - i,
    {
        let ghost before = out@;
        assert(sv.take(i + 1).drop_last() =~= sv.take(i as int));
        if i == 0 || v[i] != v[i - 1] {
            out.push(v[i].clone());
            assert(string_views(out@) =~= string_views(before).push(sv[i as int]));
            if i == 0 {
                assert(sv.take(1) =~= seq![sv[0]]);
                assert(string_views(before) =~= Seq::<Seq<char>>::empty());
            }
        }
        i = i + 1;
    }
    assert(sv.take(v@.len() as int) =~= sv);
    out
}

} // verus!
