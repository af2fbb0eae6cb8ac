//! Lexicographic order of texts, and insertion into sorted lists of strings.
use vstd::prelude::*;
use vstd::string::*;

use crate::text::{chars_of, texts_of};

verus! {

/// Lexicographic order of texts by character code (the order of `String`).
pub open spec fn text_lt(a: Seq<char>, b: Seq<char>) -> bool
    decreases a.len(),
{
    if a.len() == 0 {
        b.len() > 0
    } else if b.len() == 0 {
        false
    } else if a[0] != b[0] {
        a[0] < b[0]
    } else {
        text_lt(a.drop_first(), b.drop_first())
    }
}

/// `s` is in strictly increasing order.
pub open spec fn strictly_sorted(s: Seq<Seq<char>>) -> bool {
    forall|i: int, j: int| 0 <= i < j < s.len() ==> text_lt(#[trigger] s[i], #[trigger] s[j])
}

pub proof fn lemma_text_lt_irreflexive(a: Seq<char>)
    ensures
        !text_lt(a, a),
    decreases a.len(),
{
    if a.len() > 0 {
        lemma_text_lt_irreflexive(a.drop_first());
    }
}

pub proof fn lemma_text_lt_transitive(a: Seq<char>, b: Seq<char>, c: Seq<char>)
    requires
        text_lt(a, b),
        text_lt(b, c),
    ensures
        text_lt(a, c),
    decreases a.len(),
{
    if a.len() > 0 && b.len() > 0 && c.len() > 0 && a[0] == b[0] && b[0] == c[0] {
        lemma_text_lt_transitive(a.drop_first(), b.drop_first(), c.drop_first());
    }
}

pub proof fn lemma_text_lt_total(a: Seq<char>, b: Seq<char>)
    ensures
        a == b || text_lt(a, b) || text_lt(b, a),
    decreases a.len(),
{
    if a.len() > 0 && b.len() > 0 && a[0] == b[0] {
        lemma_text_lt_total(a.drop_first(), b.drop_first());
        if a.drop_first() == b.drop_first() {
            assert(a =~= seq![a[0]] + a.drop_first());
            assert(b =~= seq![b[0]] + b.drop_first());
        }
    } else if a.len() == 0 && b.len() == 0 {
        assert(a =~= b);
    }
}

pub proof fn lemma_text_lt_asymmetric(a: Seq<char>, b: Seq<char>)
    requires
        text_lt(a, b),
    ensures
        !text_lt(b, a),
{
    if text_lt(b, a) {
        lemma_text_lt_transitive(a, b, a);
        lemma_text_lt_irreflexive(a);
    }
}

/// Whether `a` sorts before `b`.
pub fn text_less(a: &Vec<char>, b: &Vec<char>) -> (r: bool)
    ensures
        r == text_lt(a@, b@),
{
    let mut i: usize = 0;
    assert(a@.skip(0) =~= a@);
    assert(b@.skip(0) =~= b@);
    while i < a.len() && i < b.len() && a[i] == b[i]
        invariant
            i <= a@.len(),
            i <= b@.len(),
            text_lt(a@, b@) == text_lt(a@.skip(i as int), b@.skip(i as int)),
        decreases a.len() - i,
    {
        assert(a@.skip(i as int).drop_first() =~= a@.skip(i + 1));
        assert(b@.skip(i as int).drop_first() =~= b@.skip(i + 1));
        i = i + 1;
    }
    if i == a.len() {
        i < b.len()
    } else if i == b.len() {
        false
    } else {
        a[i] < b[i]
    }
}

/// `s` is in increasing order, repeats allowed.
pub open spec fn sorted(s: Seq<Seq<char>>) -> bool {
    forall|i: int, j: int| 0 <= i < j < s.len() ==> !text_lt(#[trigger] s[j], #[trigger] s[i])
}

/// Inserts `x` into the strictly sorted `v`, keeping it strictly sorted.
pub fn insert_sorted(v: &mut Vec<String>, x: String)
    requires
        strictly_sorted(texts_of(old(v)@)),
    ensures
        strictly_sorted(texts_of(final(v)@)),
        forall|p: Seq<char>| #![trigger texts_of(final(v)@).contains(p)]
            texts_of(final(v)@).contains(p) <==> (texts_of(old(v)@).contains(p) || p == x@),
{
    let ghost before = texts_of(v@);
    let key = chars_of(x.as_str());
    let mut k: usize = 0;
    while k < v.len() && text_less(&chars_of(v[k].as_str()), &key)
        invariant
            k <= v@.len(),
            texts_of(v@) == before,
            key@ == x@,
            forall|j: int| 0 <= j < k ==> text_lt(#[trigger] before[j], x@),
        decreases v.len() - k,
    {
        k = k + 1;
    }
    if k < v.len() {
        let here = chars_of(v[k].as_str());
        if !text_less(&key, &here) {
            proof {
                lemma_text_lt_total(before[k as int], x@);
                assert(before[k as int] == x@);
                assert forall|p: Seq<char>| before.contains(p) <==> (before.contains(p) || p == x@) by {
                    if p == x@ {
                        assert(before[k as int] == p);
                    }
                }
            }
            return;
        }
    }
    v.insert(k, x);
    proof {
        let after = texts_of(v@);
        assert(after =~= before.insert(k as int, key@));
        assert forall|i: int, j: int| 0 <= i < j < after.len() implies text_lt(#[trigger] after[i], #[trigger] after[j]) by {
            if j < k {
            } else if i < k && j == k {
            } else if i < k && j > k {
                assert(after[j] == before[j - 1]);
                if k < before.len() {
                    assert(text_lt(x@, before[k as int]));
                    if j - 1 > k {
                        lemma_text_lt_transitive(x@, before[k as int], before[j - 1]);
                    }
                    lemma_text_lt_transitive(before[i], x@, before[j - 1]);
                }
            } else if i == k {
                assert(after[j] == before[j - 1]);
                assert(text_lt(x@, before[k as int]));
                if j - 1 > k {
                    lemma_text_lt_transitive(x@, before[k as int], before[j - 1]);
                }
            } else {
                assert(after[i] == before[i - 1]);
                assert(after[j] == before[j - 1]);
            }
        }
        assert forall|p: Seq<char>| after.contains(p) <==> (before.contains(p) || p == x@) by {
            if after.contains(p) {
                let i = choose|i: int| 0 <= i < after.len() && after[i] == p;
                if i < k {
                    assert(before[i] == p);
                } else if i > k {
                    assert(before[i - 1] == p);
                }
            }
            if before.contains(p) {
                let i = choose|i: int| 0 <= i < before.len() && before[i] == p;
                if i < k {
                    assert(after[i] == p);
                } else {
                    assert(after[i + 1] == p);
                }
            }
            if p == x@ {
                assert(after[k as int] == p);
            }
        }
    }
}

/// Inserts `x` into the sorted `v` after every text not greater than it.
pub fn insert_sorted_keep(v: &mut Vec<String>, x: String)
    requires
        sorted(texts_of(old(v)@)),
    ensures
        sorted(texts_of(final(v)@)),
        texts_of(final(v)@).to_multiset() == texts_of(old(v)@).to_multiset().insert(x@),
{
    let ghost before = texts_of(v@);
    let key = chars_of(x.as_str());
    let mut k: usize = 0;
    while k < v.len() && !text_less(&key, &chars_of(v[k].as_str()))
        invariant
            k <= v@.len(),
            texts_of(v@) == before,
            key@ == x@,
            forall|j: int| 0 <= j < k ==> !text_lt(x@, #[trigger] before[j]),
        decreases v.len() - k,
    {
        k = k + 1;
    }
    v.insert(k, x);
    proof {
        let after = texts_of(v@);
        assert(after =~= before.insert(k as int, key@));
        vstd::seq_lib::to_multiset_insert(before, k as int, key@);
        assert forall|i: int, j: int| 0 <= i < j < after.len() implies !text_lt(#[trigger] after[j], #[trigger] after[i]) by {
            if j < k {
            } else if i < k && j == k {
            } else if i < k && j > k {
                assert(after[j] == before[j - 1]);
                if text_lt(before[j - 1], before[i]) {
                    lemma_text_lt_total(before[i], x@);
                    if before[i] != x@ {
                        lemma_text_lt_transitive(before[j - 1], before[i], x@);
                    }
                    if k < before.len() {
                        assert(text_lt(x@, before[k as int]));
                        if j - 1 > k {
                            assert(!text_lt(before[j - 1], before[k as int]));
                            lemma_text_lt_total(before[j - 1], before[k as int]);
                            if before[j - 1] != before[k as int] {
                                lemma_text_lt_transitive(x@, before[k as int], before[j - 1]);
                            }
                        }
                        lemma_text_lt_asymmetric(x@, before[j - 1]);
                    }
                }
            } else if i == k {
                assert(after[j] == before[j - 1]);
                assert(text_lt(x@, before[k as int]));
                if j - 1 > k {
                    assert(!text_lt(before[j - 1], before[k as int]));
                    lemma_text_lt_total(before[j - 1], before[k as int]);
                    if before[j - 1] != before[k as int] {
                        lemma_text_lt_transitive(x@, before[k as int], before[j - 1]);
                    }
                }
                lemma_text_lt_asymmetric(x@, before[j - 1]);
            } else {
                assert(after[i] == before[i - 1]);
                assert(after[j] == before[j - 1]);
            }
        }
    }
}

/// Two strictly sorted lists of texts with the same elements are the same list.
pub proof fn sorted_lists_with_same_texts_are_equal(a: Seq<Seq<char>>, b: Seq<Seq<char>>)
    requires
        strictly_sorted(a),
        strictly_sorted(b),
        forall|x: Seq<char>| a.contains(x) <==> b.contains(x),
    ensures
        a == b,
    decreases a.len(),
{
    if a.len() == 0 {
        if b.len() > 0 {
            assert(b.contains(b[0]));
        }
        assert(a =~= b);
    } else if b.len() == 0 {
        assert(a.contains(a[0]));
    } else {
        assert(a.contains(a[0]));
        assert(b.contains(b[0]));
        if a[0] != b[0] {
            let j = choose|j: int| 0 <= j < a.len() && a[j] == b[0];
            let k = choose|k: int| 0 <= k < b.len() && b[k] == a[0];
            assert(text_lt(a[0], a[j]));
            assert(text_lt(b[0], b[k]));
            lemma_text_lt_asymmetric(a[0], b[0]);
        }
        let a1 = a.drop_first();
        let b1 = b.drop_first();
        assert forall|x: Seq<char>| a1.contains(x) <==> b1.contains(x) by {
            if a1.contains(x) {
                let i = choose|i: int| 0 <= i < a1.len() && a1[i] == x;
                assert(a[i + 1] == x);
                assert(text_lt(a[0], a[i + 1]));
                lemma_text_lt_irreflexive(x);
                assert(b.contains(x));
                let k = choose|k: int| 0 <= k < b.len() && b[k] == x;
                assert(k != 0);
                assert(b1[k - 1] == x);
            }
            if b1.contains(x) {
                let i = choose|i: int| 0 <= i < b1.len() && b1[i] == x;
                assert(b[i + 1] == x);
                assert(text_lt(b[0], b[i + 1]));
                lemma_text_lt_irreflexive(x);
                assert(a.contains(x));
                let k = choose|k: int| 0 <= k < a.len() && a[k] == x;
                assert(k != 0);
                assert(a1[k - 1] == x);
            }
        }
        sorted_lists_with_same_texts_are_equal(a1, b1);
        assert(a =~= b) by {
            assert forall|i: int| 0 <= i < a.len() implies a[i] == b[i] by {
                if i > 0 {
                    assert(a[i] == a1[i - 1]);
                    assert(b[i] == b1[i - 1]);
                }
            }
        }
    }
}

/// Inserting `x` into a strictly sorted list of texts gives a strictly sorted
/// list holding exactly the old texts and `x`.
pub proof fn lemma_insert_text(s: Seq<Seq<char>>, x: Seq<char>) -> (r: Seq<Seq<char>>)
    requires
        strictly_sorted(s),
    ensures
        strictly_sorted(r),
        forall|n: Seq<char>| #[trigger] r.contains(n) <==> s.contains(n) || n == x,
    decreases s.len(),
{
    if s.contains(x) {
        s
    } else if s.len() == 0 {
        let r = seq![x];
        assert forall|n: Seq<char>| #[trigger] r.contains(n) <==> s.contains(n) || n == x by {
            if r.contains(n) {
                let k = choose|k: int| 0 <= k < r.len() && r[k] == n;
                assert(k == 0);
            }
            if n == x {
                assert(r[0] == n);
            }
        }
        r
    } else {
        lemma_text_lt_total(x, s[0]);
        assert(s[0] != x) by {
            if s[0] == x {
                assert(s.contains(s[0]));
            }
        }
        if text_lt(x, s[0]) {
            let r = seq![x] + s;
            assert forall|i: int, j: int| 0 <= i < j < r.len() implies text_lt(#[trigger] r[i], #[trigger] r[j]) by {
                if i == 0 {
                    if j > 1 {
                        assert(text_lt(s[0], s[j - 1]));
                        lemma_text_lt_transitive(x, s[0], s[j - 1]);
                    }
                } else {
                    assert(r[i] == s[i - 1] && r[j] == s[j - 1]);
                }
            }
            assert forall|n: Seq<char>| #[trigger] r.contains(n) <==> s.contains(n) || n == x by {
                if r.contains(n) {
                    let k = choose|k: int| 0 <= k < r.len() && r[k] == n;
                    if k > 0 {
                        assert(s[k - 1] == n);
                    }
                }
                if s.contains(n) {
                    let k = choose|k: int| 0 <= k < s.len() && s[k] == n;
                    assert(r[k + 1] == n);
                }
                if n == x {
                    assert(r[0] == n);
                }
            }
            r
        } else {
            let t = s.drop_first();
            assert(strictly_sorted(t)) by {
                assert forall|i: int, j: int| 0 <= i < j < t.len() implies text_lt(#[trigger] t[i], #[trigger] t[j]) by {
                    assert(t[i] == s[i + 1] && t[j] == s[j + 1]);
                }
            }
            let r1 = lemma_insert_text(t, x);
            let r = seq![s[0]] + r1;
            assert forall|n: Seq<char>| #[trigger] r1.contains(n) implies text_lt(s[0], n) by {
                if n != x {
                    assert(t.contains(n));
                    let k = choose|k: int| 0 <= k < t.len() && t[k] == n;
                    assert(s[k + 1] == n);
                }
            }
            assert forall|i: int, j: int| 0 <= i < j < r.len() implies text_lt(#[trigger] r[i], #[trigger] r[j]) by {
                if i == 0 {
                    assert(r[j] == r1[j - 1]);
                    assert(r1.contains(r1[j - 1]));
                } else {
                    assert(r[i] == r1[i - 1] && r[j] == r1[j - 1]);
                }
            }
            assert forall|n: Seq<char>| #[trigger] r.contains(n) <==> s.contains(n) || n == x by {
                if r.contains(n) {
                    let k = choose|k: int| 0 <= k < r.len() && r[k] == n;
                    if k > 0 {
                        assert(r1[k - 1] == n);
                        assert(r1.contains(n));
                        if n != x {
                            let m = choose|m: int| 0 <= m < t.len() && t[m] == n;
                            assert(s[m + 1] == n);
                        }
                    } else {
                        assert(s[0] == n);
                    }
                }
                if s.contains(n) {
                    let k = choose|k: int| 0 <= k < s.len() && s[k] == n;
                    if k == 0 {
                        assert(r[0] == n);
                    } else {
                        assert(t[k - 1] == n);
                        assert(t.contains(n));
                        assert(r1.contains(n));
                        let m = choose|m: int| 0 <= m < r1.len() && r1[m] == n;
                        assert(r[m + 1] == n);
                    }
                }
                if n == x {
                    assert(r1.contains(n));
                    let m = choose|m: int| 0 <= m < r1.len() && r1[m] == n;
                    assert(r[m + 1] == n);
                }
            }
            r
        }
    }
}

/// A strictly sorted list of texts holding exactly the values present in `xs`.
pub proof fn lemma_sorted_somes(xs: Seq<Option<Seq<char>>>) -> (s: Seq<Seq<char>>)
    ensures
        strictly_sorted(s),
        forall|n: Seq<char>| #[trigger] s.contains(n) <==> exists|i: int| 0 <= i < xs.len() && xs[i] == Some(n),
    decreases xs.len(),
{
    if xs.len() == 0 {
        let s = Seq::<Seq<char>>::empty();
        assert forall|n: Seq<char>| #[trigger] s.contains(n) <==> exists|i: int| 0 <= i < xs.len() && xs[i] == Some(n) by {}
        s
    } else {
        let d = xs.drop_last();
        let s0 = lemma_sorted_somes(d);
        let s = match xs.last() {
            Some(x) => lemma_insert_text(s0, x),
            None => s0,
        };
        assert forall|n: Seq<char>| #[trigger] s.contains(n) <==> exists|i: int| 0 <= i < xs.len() && xs[i] == Some(n) by {
            if s0.contains(n) {
                let i = choose|i: int| 0 <= i < d.len() && d[i] == Some(n);
                assert(xs[i] == Some(n));
            }
            if exists|i: int| 0 <= i < xs.len() && xs[i] == Some(n) {
                let i = choose|i: int| 0 <= i < xs.len() && xs[i] == Some(n);
                if i < d.len() {
                    assert(d[i] == Some(n));
                    assert(s0.contains(n));
                } else {
                    assert(xs.last() == Some(n));
                }
            }
            if xs.last() == Some(n) {
                assert(xs[xs.len() - 1] == Some(n));
            }
        }
        s
    }
}

} // verus!
