//! Stable sorting of keyed items, as `sort_by_key` and `sort_by` do it.
use vstd::prelude::*;
use crate::text::{seq_lt, str_lt};

verus! {

/// Index at or after `j` of the first item that `k` sorts strictly before
/// (or the length).
pub open spec fn ins_pos<K, A>(s: Seq<(K, A)>, k: K, lt: spec_fn(K, K) -> bool, j: int) -> int
    decreases s.len() - j,
{
    if j < 0 || j >= s.len() {
        s.len() as int
    } else if lt(k, s[j].0) {
        j
    } else {
        ins_pos(s, k, lt, j + 1)
    }
}

/// The stable sort of `s` by its keys under the strict order `lt`: each
/// item goes after every earlier item whose key it does not sort before,
/// so items with equal keys keep their order.
pub open spec fn stable_sort<K, A>(s: Seq<(K, A)>, lt: spec_fn(K, K) -> bool) -> Seq<(K, A)>
    decreases s.len(),
{
    if s.len() == 0 {
        s
    } else {
        let r = stable_sort(s.drop_last(), lt);
        r.insert(ins_pos(r, s.last().0, lt, 0), s.last())
    }
}

pub proof fn lemma_ins_pos<K, A>(s: Seq<(K, A)>, k: K, lt: spec_fn(K, K) -> bool, j: int)
    requires
        0 <= j <= s.len(),
    ensures
        j <= ins_pos(s, k, lt, j) <= s.len(),
    decreases s.len() - j,
{
    if j < s.len() && !lt(k, s[j].0) {
        lemma_ins_pos(s, k, lt, j + 1);
    }
}

pub proof fn lemma_stable_sort_len<K, A>(s: Seq<(K, A)>, lt: spec_fn(K, K) -> bool)
    ensures
        stable_sort(s, lt).len() == s.len(),
    decreases s.len(),
{
    if s.len() > 0 {
        lemma_stable_sort_len(s.drop_last(), lt);
        lemma_ins_pos(stable_sort(s.drop_last(), lt), s.last().0, lt, 0);
    }
}

/// Sorting keeps the items: an item is in the sorted list exactly when it
/// is in the list.
pub proof fn lemma_stable_sort_contains<K, A>(s: Seq<(K, A)>, lt: spec_fn(K, K) -> bool, x: (K, A))
    ensures
        stable_sort(s, lt).contains(x) <==> s.contains(x),
    decreases s.len(),
{
    if s.len() > 0 {
        let rest = s.drop_last();
        lemma_stable_sort_contains(rest, lt, x);
        let r = stable_sort(rest, lt);
        lemma_ins_pos(r, s.last().0, lt, 0);
        let p = ins_pos(r, s.last().0, lt, 0);
        let t = r.insert(p, s.last());
        if t.contains(x) {
            let i = choose|i: int| 0 <= i < t.len() && t[i] == x;
            if i < p {
                assert(r[i] == x);
            } else if i > p {
                assert(r[i - 1] == x);
            }
            if x != s.last() {
                assert(r.contains(x));
                let q = choose|q: int| 0 <= q < rest.len() && rest[q] == x;
                assert(s[q] == x);
            } else {
                assert(s[s.len() - 1] == x);
            }
        }
        if s.contains(x) {
            let q = choose|q: int| 0 <= q < s.len() && s[q] == x;
            if q == s.len() - 1 {
                assert(t[p] == x);
            } else {
                assert(rest[q] == x);
                assert(r.contains(x));
                let i = choose|i: int| 0 <= i < r.len() && r[i] == x;
                if i < p {
                    assert(t[i] == x);
                } else {
                    assert(t[i + 1] == x);
                }
            }
        }
    }
}

/// `s` with each payload mapped by `g`, keys kept.
pub open spec fn map_payload<K, A, B>(s: Seq<(K, A)>, g: spec_fn(A) -> B) -> Seq<(K, B)> {
    Seq::new(s.len(), |i: int| (s[i].0, g(s[i].1)))
}

proof fn lemma_ins_pos_map<K, A, B>(s: Seq<(K, A)>, g: spec_fn(A) -> B, k: K, lt: spec_fn(K, K) -> bool, j: int)
    ensures
        ins_pos(map_payload(s, g), k, lt, j) == ins_pos(s, k, lt, j),
    decreases s.len() - j,
{
    if 0 <= j < s.len() && !lt(k, s[j].0) {
        lemma_ins_pos_map(s, g, k, lt, j + 1);
    }
}

/// Sorting looks at keys only: mapping the payloads before or after the
/// sort gives the same list.
pub proof fn lemma_sort_map<K, A, B>(s: Seq<(K, A)>, g: spec_fn(A) -> B, lt: spec_fn(K, K) -> bool)
    ensures
        stable_sort(map_payload(s, g), lt) == map_payload(stable_sort(s, lt), g),
    decreases s.len(),
{
    if s.len() > 0 {
        let t = map_payload(s, g);
        assert(t.drop_last() =~= map_payload(s.drop_last(), g));
        lemma_sort_map(s.drop_last(), g, lt);
        let r = stable_sort(s.drop_last(), lt);
        lemma_stable_sort_len(s.drop_last(), lt);
        lemma_ins_pos_map(r, g, s.last().0, lt, 0);
        lemma_ins_pos(r, s.last().0, lt, 0);
        let p = ins_pos(r, s.last().0, lt, 0);
        assert(map_payload(r, g).insert(p, t.last()) =~= map_payload(r.insert(p, s.last()), g));
    }
}

/// Code-point order of strings.
pub open spec fn text_lt() -> spec_fn(Seq<char>, Seq<char>) -> bool {
    |a: Seq<char>, b: Seq<char>| seq_lt(a, b)
}

/// Larger numbers first.
pub open spec fn num_gt() -> spec_fn(i64, i64) -> bool {
    |a: i64, b: i64| a > b
}

/// Smaller numbers first.
pub open spec fn num_lt() -> spec_fn(u64, u64) -> bool {
    |a: u64, b: u64| a < b
}

/// The view of text-keyed items.
pub open spec fn text_keyed<T>(s: Seq<(String, T)>) -> Seq<(Seq<char>, T)> {
    Seq::new(s.len(), |i: int| (s[i].0@, s[i].1))
}

/// Stable sort by string key (`sort_by_key` with a `String` key).
pub fn sort_by_text<T>(items: Vec<(String, T)>) -> (r: Vec<(String, T)>)
    ensures
        text_keyed(r@) == stable_sort(text_keyed(items@), text_lt()),
{
    let ghost orig = text_keyed(items@);
    let n: usize = items.len();
    let mut rest = items;
    let mut out: Vec<(String, T)> = Vec::new();
    let mut i: usize = 0;
    assert(orig.take(0) =~= Seq::<(Seq<char>, T)>::empty());
    assert(text_keyed(out@) =~= Seq::<(Seq<char>, T)>::empty());
    while rest.len() > 0
        invariant
            orig.len() == n,
            i + rest@.len() == n,
            forall|j: int| 0 <= j < rest@.len() ==> (#[trigger] rest@[j].0@, rest@[j].1) == orig[i + j],
            text_keyed(out@) == stable_sort(orig.take(i as int), text_lt()),
        decreases rest@.len(),
    {
        let ghost old_rest = rest@;
        assert((old_rest[0].0@, old_rest[0].1) == orig[i + 0]);
        let x = rest.remove(0);
        let ghost prev = text_keyed(out@);
        proof {
            lemma_stable_sort_len(orig.take(i as int), text_lt());
            lemma_ins_pos(prev, x.0@, text_lt(), 0);
        }
        let mut j: usize = 0;
        while j < out.len() && !str_lt(x.0.as_str(), out[j].0.as_str())
            invariant
                prev == text_keyed(out@),
                j <= out@.len(),
                ins_pos(prev, x.0@, text_lt(), 0) == ins_pos(prev, x.0@, text_lt(), j as int),
            decreases out@.len() - j,
        {
            j = j + 1;
        }
        let ghost xm = (x.0@, x.1);
        out.insert(j, x);
        proof {
            assert(orig.take(i + 1).drop_last() =~= orig.take(i as int));
            assert(orig.take(i + 1).last() == xm);
            assert(text_keyed(out@) =~= prev.insert(j as int, xm));
        }
        i = i + 1;
        proof {
            assert forall|m: int| 0 <= m < rest@.len() implies (#[trigger] rest@[m].0@, rest@[m].1) == orig[i + m] by {
                assert(rest@[m] == old_rest[m + 1]);
            }
        }
    }
    assert(orig.take(n as int) =~= orig);
    out
}

/// Stable sort by descending number (`sort_by(|a, b| b.cmp(a))` on the key).
pub fn sort_by_num_desc<T>(items: Vec<(i64, T)>) -> (r: Vec<(i64, T)>)
    ensures
        r@ == stable_sort(items@, num_gt()),
{
    let ghost orig = items@;
    let n: usize = items.len();
    let mut rest = items;
    let mut out: Vec<(i64, T)> = Vec::new();
    let mut i: usize = 0;
    assert(orig.take(0) =~= Seq::<(i64, T)>::empty());
    assert(out@ =~= Seq::<(i64, T)>::empty());
    while rest.len() > 0
        invariant
            orig.len() == n,
            i + rest@.len() == n,
            forall|j: int| 0 <= j < rest@.len() ==> #[trigger] rest@[j] == orig[i + j],
            out@ == stable_sort(orig.take(i as int), num_gt()),
        decreases rest@.len(),
    {
        let ghost old_rest = rest@;
        assert(old_rest[0] == orig[i + 0]);
        let x = rest.remove(0);
        let ghost prev = out@;
        proof {
            lemma_stable_sort_len(orig.take(i as int), num_gt());
            lemma_ins_pos(prev, x.0, num_gt(), 0);
        }
        let mut j: usize = 0;
        while j < out.len() && !(x.0 > out[j].0)
            invariant
                prev == out@,
                j <= out@.len(),
                ins_pos(prev, x.0, num_gt(), 0) == ins_pos(prev, x.0, num_gt(), j as int),
            decreases out@.len() - j,
        {
            j = j + 1;
        }
        let ghost xm = x;
        out.insert(j, x);
        proof {
            assert(orig.take(i + 1).drop_last() =~= orig.take(i as int));
            assert(orig.take(i + 1).last() == xm);
        }
        i = i + 1;
        proof {
            assert forall|m: int| 0 <= m < rest@.len() implies #[trigger] rest@[m] == orig[i + m] by {
                assert(rest@[m] == old_rest[m + 1]);
            }
        }
    }
    assert(orig.take(n as int) =~= orig);
    out
}

/// Stable sort by ascending number (`sort_by_key` on a `u64` key).
pub fn sort_by_num_asc<T>(items: Vec<(u64, T)>) -> (r: Vec<(u64, T)>)
    ensures
        r@ == stable_sort(items@, num_lt()),
{
    let ghost orig = items@;
    let n: usize = items.len();
    let mut rest = items;
    let mut out: Vec<(u64, T)> = Vec::new();
    let mut i: usize = 0;
    assert(orig.take(0) =~= Seq::<(u64, T)>::empty());
    assert(out@ =~= Seq::<(u64, T)>::empty());
    while rest.len() > 0
        invariant
            orig.len() == n,
            i + rest@.len() == n,
            forall|j: int| 0 <= j < rest@.len() ==> #[trigger] rest@[j] == orig[i + j],
            out@ == stable_sort(orig.take(i as int), num_lt()),
        decreases rest@.len(),
    {
        let ghost old_rest = rest@;
        assert(old_rest[0] == orig[i + 0]);
        let x = rest.remove(0);
        let ghost prev = out@;
        proof {
            lemma_stable_sort_len(orig.take(i as int), num_lt());
            lemma_ins_pos(prev, x.0, num_lt(), 0);
        }
        let mut j: usize = 0;
        while j < out.len() && !(x.0 < out[j].0)
            invariant
                prev == out@,
                j <= out@.len(),
                ins_pos(prev, x.0, num_lt(), 0) == ins_pos(prev, x.0, num_lt(), j as int),
            decreases out@.len() - j,
        {
            j = j + 1;
        }
        let ghost xm = x;
        out.insert(j, x);
        proof {
            assert(orig.take(i + 1).drop_last() =~= orig.take(i as int));
            assert(orig.take(i + 1).last() == xm);
        }
        i = i + 1;
        proof {
            assert forall|m: int| 0 <= m < rest@.len() implies #[trigger] rest@[m] == orig[i + m] by {
                assert(rest@[m] == old_rest[m + 1]);
            }
        }
    }
    assert(orig.take(n as int) =~= orig);
    out
}

} // verus!
