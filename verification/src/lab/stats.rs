//! Small summaries over measured values.

use vstd::prelude::*;

verus! {

/// How many times `v` occurs in `s`.
pub open spec fn count_of(s: Seq<u64>, v: u64) -> nat
    decreases s.len(),
{
    if s.len() == 0 {
        0
    } else {
        count_of(s.drop_last(), v) + if s.last() == v {
            1nat
        } else {
            0nat
        }
    }
}

/// The histogram order: higher count first, and among equal counts the smaller value first.
pub open spec fn comes_before(a: (u64, usize), b: (u64, usize)) -> bool {
    a.1 > b.1 || (a.1 == b.1 && a.0 < b.0)
}

/// `h` is the histogram of `values`: one entry per distinct value with its count, in histogram
/// order.
pub open spec fn is_histogram_of(h: Seq<(u64, usize)>, values: Seq<u64>) -> bool {
    &&& forall|i: int| 0 <= i < h.len() ==> #[trigger] h[i].1 == count_of(values, h[i].0)
    &&& forall|i: int| 0 <= i < h.len() ==> #[trigger] h[i].1 > 0
    &&& forall|v: u64| #[trigger] count_of(values, v) > 0 ==> exists|i: int|
        0 <= i < h.len() && h[i].0 == v
    &&& forall|i: int, j: int| 0 <= i < j < h.len() ==> comes_before(#[trigger] h[i], #[trigger] h[j])
}

proof fn lemma_count_bound(s: Seq<u64>, v: u64)
    ensures
        count_of(s, v) <= s.len(),
    decreases s.len(),
{
    if s.len() > 0 {
        lemma_count_bound(s.drop_last(), v);
    }
}

/// The distinct values of `values` with their counts, in first-seen order.
fn count_values(values: &Vec<u64>) -> (counts: Vec<(u64, usize)>)
    ensures
        forall|i: int| 0 <= i < counts.len() ==> #[trigger] counts@[i].1 == count_of(
            values@,
            counts@[i].0,
        ),
        forall|i: int| 0 <= i < counts.len() ==> #[trigger] counts@[i].1 > 0,
        forall|i: int, j: int|
            0 <= i < j < counts.len() ==> #[trigger] counts@[i].0 != #[trigger] counts@[j].0,
        forall|v: u64| #[trigger]
            count_of(values@, v) > 0 ==> exists|i: int| 0 <= i < counts.len() && counts@[i].0 == v,
{
    // Distinct values with their counts so far, in first-seen order.
    let mut counts: Vec<(u64, usize)> = Vec::new();
    let mut p: usize = 0;
    while p < values.len()
        invariant
            p <= values.len(),
            forall|i: int| 0 <= i < counts.len() ==> #[trigger] counts@[i].1 == count_of(
                values@.subrange(0, p as int),
                counts@[i].0,
            ),
            forall|i: int| 0 <= i < counts.len() ==> #[trigger] counts@[i].1 > 0,
            forall|i: int, j: int|
                0 <= i < j < counts.len() ==> #[trigger] counts@[i].0 != #[trigger] counts@[j].0,
            forall|v: u64| #[trigger]
                count_of(values@.subrange(0, p as int), v) > 0 ==> exists|i: int|
                    0 <= i < counts.len() && counts@[i].0 == v,
        decreases values.len() - p,
    {
        let v = values[p];
        let ghost before = values@.subrange(0, p as int);
        let ghost after = values@.subrange(0, p as int + 1);
        assert(after.drop_last() =~= before);
        assert(after.last() == v);
        proof {
            lemma_count_bound(after, v);
        }
        let mut i: usize = 0;
        while i < counts.len() && counts[i].0 != v
            invariant
                i <= counts.len(),
                forall|t: int| 0 <= t < i ==> #[trigger] counts@[t].0 != v,
            decreases counts.len() - i,
        {
            i = i + 1;
        }
        let ghost old_counts = counts@;
        if i < counts.len() {
            let (key, n) = counts[i];
            assert(n == count_of(before, v));
            counts.set(i, (key, n + 1));
        } else {
            assert(count_of(before, v) == 0);
            counts.push((v, 1));
        }
        assert(counts@[i as int].0 == v);
        assert forall|t: int| 0 <= t < old_counts.len() implies #[trigger] counts@[t].0
            == old_counts[t].0 by {}
        assert forall|u: u64| #[trigger] count_of(after, u) > 0 implies exists|t: int|
            0 <= t < counts.len() && counts@[t].0 == u by {
            if u != v {
                assert(count_of(after, u) == count_of(before, u));
                let t = choose|t: int| 0 <= t < old_counts.len() && old_counts[t].0 == u;
                assert(counts@[t].0 == u);
            } else {
                assert(counts@[i as int].0 == u);
            }
        }
        assert forall|t: int| 0 <= t < counts.len() implies #[trigger] counts@[t].1 == count_of(
            after,
            counts@[t].0,
        ) by {
            if t != i {
                assert(counts@[t] == old_counts[t]);
                assert(count_of(after, counts@[t].0) == count_of(before, counts@[t].0));
            }
        }
        p = p + 1;
    }
    assert(values@.subrange(0, values.len() as int) =~= values@);
    counts
}

/// Every entry comes before every later one.
pub open spec fn in_histogram_order(h: Seq<(u64, usize)>) -> bool {
    forall|i: int, j: int| 0 <= i < j < h.len() ==> comes_before(#[trigger] h[i], #[trigger] h[j])
}

/// Inserts `e` where histogram order puts it.
fn insert_in_order(sorted: &mut Vec<(u64, usize)>, e: (u64, usize))
    requires
        in_histogram_order(old(sorted)@),
        forall|t: int| 0 <= t < old(sorted)@.len() ==> #[trigger] old(sorted)@[t].0 != e.0,
    ensures
        in_histogram_order(final(sorted)@),
        exists|pos: int|
            0 <= pos <= old(sorted)@.len() && final(sorted)@ == old(sorted)@.insert(pos, e),
{
    let mut pos: usize = 0;
    while pos < sorted.len() && (sorted[pos].1 > e.1 || (sorted[pos].1 == e.1 && sorted[pos].0
        < e.0))
        invariant
            pos <= sorted.len(),
            forall|t: int| 0 <= t < pos ==> comes_before(#[trigger] sorted@[t], e),
        decreases sorted.len() - pos,
    {
        pos = pos + 1;
    }
    let ghost old_sorted = sorted@;
    assert forall|t: int| pos <= t < old_sorted.len() implies comes_before(e, #[trigger] old_sorted[t]) by {
        assert(old_sorted[t].0 != e.0);
        if pos < t {
            assert(comes_before(old_sorted[pos as int], old_sorted[t]));
        }
    }
    sorted.insert(pos, e);
    assert(sorted@ == old_sorted.insert(pos as int, e));
    assert forall|i: int, j: int| 0 <= i < j < sorted.len() implies comes_before(
        #[trigger] sorted@[i],
        #[trigger] sorted@[j],
    ) by {
        if j < pos {
            assert(comes_before(old_sorted[i], old_sorted[j]));
        } else if j == pos {
            assert(comes_before(old_sorted[i], e));
        } else if i == pos {
            assert(comes_before(e, old_sorted[j - 1]));
        } else if i < pos {
            assert(comes_before(old_sorted[i], old_sorted[j - 1]));
        } else {
            assert(comes_before(old_sorted[i - 1], old_sorted[j - 1]));
        }
    }
}

#[verifier::spinoff_prover]
#[verifier::rlimit(100)]
/// Counts each distinct value, then orders the pairs by count (descending) and value.
pub fn histogram(values: &Vec<u64>) -> (h: Vec<(u64, usize)>)
    ensures
        is_histogram_of(h@, values@),
{
    let counts = count_values(values);
    // Insert each pair at its place in histogram order.
    let mut sorted: Vec<(u64, usize)> = Vec::new();
    let mut q: usize = 0;
    while q < counts.len()
        invariant
            q <= counts.len(),
            forall|i: int| 0 <= i < counts.len() ==> #[trigger] counts@[i].1 == count_of(
                values@,
                counts@[i].0,
            ),
            forall|i: int| 0 <= i < counts.len() ==> #[trigger] counts@[i].1 > 0,
            forall|i: int, j: int|
                0 <= i < j < counts.len() ==> #[trigger] counts@[i].0 != #[trigger] counts@[j].0,
            forall|i: int|
                0 <= i < sorted.len() ==> exists|j: int|
                    0 <= j < q && counts@[j] == #[trigger] sorted@[i],
            forall|j: int|
                0 <= j < q ==> exists|i: int|
                    0 <= i < sorted.len() && #[trigger] counts@[j] == sorted@[i],
            in_histogram_order(sorted@),
        decreases counts.len() - q,
    {
        let e = counts[q];
        let ghost old_sorted = sorted@;
        assert forall|t: int| 0 <= t < old_sorted.len() implies #[trigger] old_sorted[t].0
            != e.0 by {
            let j = choose|j: int| 0 <= j < q && counts@[j] == old_sorted[t];
            assert(counts@[j].0 != counts@[q as int].0);
        }
        insert_in_order(&mut sorted, e);
        let ghost pos = choose|pos: int| 0 <= pos <= old_sorted.len() && sorted@ == old_sorted.insert(pos, e);
        assert forall|i: int| 0 <= i < sorted.len() implies exists|j: int|
            0 <= j < q + 1 && counts@[j] == #[trigger] sorted@[i] by {
            if i < pos {
                assert(sorted@[i] == old_sorted[i]);
            } else if i == pos {
                assert(counts@[q as int] == sorted@[i]);
            } else {
                assert(sorted@[i] == old_sorted[i - 1]);
            }
        }
        assert forall|j: int| 0 <= j < q + 1 implies exists|i: int|
            0 <= i < sorted.len() && #[trigger] counts@[j] == sorted@[i] by {
            if j == q {
                assert(sorted@[pos] == counts@[j]);
            } else {
                let i = choose|i: int| 0 <= i < old_sorted.len() && counts@[j] == old_sorted[i];
                if i < pos {
                    assert(sorted@[i] == old_sorted[i]);
                } else {
                    assert(sorted@[i + 1] == old_sorted[i]);
                }
            }
        }
        q = q + 1;
    }
    assert forall|v: u64| #[trigger] count_of(values@, v) > 0 implies exists|i: int|
        0 <= i < sorted.len() && sorted@[i].0 == v by {
        let j = choose|j: int| 0 <= j < counts.len() && counts@[j].0 == v;
        let i = choose|i: int| 0 <= i < sorted.len() && #[trigger] counts@[j] == sorted@[i];
        assert(sorted@[i].0 == v);
    }
    assert forall|i: int| 0 <= i < sorted.len() implies #[trigger] sorted@[i].1 == count_of(
        values@,
        sorted@[i].0,
    ) && sorted@[i].1 > 0 by {
        let j = choose|j: int| 0 <= j < counts.len() && counts@[j] == sorted@[i];
        assert(counts@[j].1 == count_of(values@, counts@[j].0));
    }
    sorted
}

} // verus!
