//! Per-cell time series sampled from the COGs: their finalization into
//! date-ordered series and the date range an index reports.
use vstd::prelude::*;
use crate::axis::axis_contains;

verus! {

/// One sample of a cell: a date key and the raster value on that date.
#[derive(Debug, Clone, Copy, PartialEq, Eq, Structural)]
pub struct TimeSeriesEntry {
    pub date: u32,
    pub value: i16,
}

/// Entry `i` is the first of `entries` with its date.
pub open spec fn first_of_date(entries: Seq<TimeSeriesEntry>, i: int) -> bool {
    forall|j: int| 0 <= j < i ==> #[trigger] entries[j].date != entries[i].date
}

/// `e` is the first of `entries` with its date.
pub open spec fn is_first_entry(entries: Seq<TimeSeriesEntry>, e: TimeSeriesEntry) -> bool {
    exists|i: int| 0 <= i < entries.len() && #[trigger] entries[i] == e && first_of_date(entries, i)
}

/// The dates of `out` are strictly ascending.
pub open spec fn dates_ascending(out: Seq<TimeSeriesEntry>) -> bool {
    forall|a: int, b: int| 0 <= a < b < out.len() ==> #[trigger] out[a].date < #[trigger] out[b].date
}

/// Every entry of `out` is the first of `entries` with its date.
pub open spec fn all_first_entries(out: Seq<TimeSeriesEntry>, entries: Seq<TimeSeriesEntry>) -> bool {
    forall|k: int| 0 <= k < out.len() ==> is_first_entry(entries, #[trigger] out[k])
}

/// Some entry of `out` has date `d`.
pub open spec fn has_date(out: Seq<TimeSeriesEntry>, d: u32) -> bool {
    exists|k: int| 0 <= k < out.len() && #[trigger] out[k].date == d
}

/// Every date of `entries` has an entry in `out`.
pub open spec fn covers_dates(out: Seq<TimeSeriesEntry>, entries: Seq<TimeSeriesEntry>) -> bool {
    forall|i: int| 0 <= i < entries.len() ==> has_date(out, #[trigger] entries[i].date)
}

/// `out` is `entries` ordered by date with one entry per date, the first of
/// `entries` with that date.
#[verifier::opaque]
pub open spec fn finalized(out: Seq<TimeSeriesEntry>, entries: Seq<TimeSeriesEntry>) -> bool {
    dates_ascending(out) && all_first_entries(out, entries) && covers_dates(out, entries)
}

proof fn lemma_push_first_entries(out: Seq<TimeSeriesEntry>, pre: Seq<TimeSeriesEntry>, e: TimeSeriesEntry)
    requires
        all_first_entries(out, pre),
    ensures
        all_first_entries(out, pre.push(e)),
{
    let next = pre.push(e);
    assert forall|k: int| 0 <= k < out.len() implies is_first_entry(next, #[trigger] out[k]) by {
        assert(is_first_entry(pre, out[k]));
        let i = choose|i: int| 0 <= i < pre.len() && #[trigger] pre[i] == out[k] && first_of_date(pre, i);
        assert(next[i] == pre[i]);
        assert forall|j: int| 0 <= j < i implies #[trigger] next[j].date != next[i].date by {
            assert(next[j] == pre[j]);
        }
    }
}

/// Adding an entry whose date is already present keeps the series finalized.
proof fn lemma_finalized_skip(out: Seq<TimeSeriesEntry>, pre: Seq<TimeSeriesEntry>, e: TimeSeriesEntry, p: int)
    requires
        finalized(out, pre),
        0 <= p < out.len(),
        out[p].date == e.date,
    ensures
        finalized(out, pre.push(e)),
{
    reveal(finalized);
    let next = pre.push(e);
    lemma_push_first_entries(out, pre, e);
    assert forall|i: int| 0 <= i < next.len() implies has_date(out, #[trigger] next[i].date) by {
        if i < pre.len() {
            assert(next[i] == pre[i]);
        } else {
            assert(out[p].date == next[i].date);
        }
    }
}

/// An entry whose date `prev` lacks is the first of its date.
proof fn lemma_new_date_first(prev: Seq<TimeSeriesEntry>, pre: Seq<TimeSeriesEntry>, e: TimeSeriesEntry, p: int)
    requires
        dates_ascending(prev),
        covers_dates(prev, pre),
        0 <= p <= prev.len(),
        forall|j: int| 0 <= j < p ==> prev[j].date < e.date,
        p < prev.len() ==> prev[p].date > e.date,
    ensures
        first_of_date(pre.push(e), pre.len() as int),
{
    let next = pre.push(e);
    assert forall|j: int| 0 <= j < pre.len() implies #[trigger] next[j].date != next[pre.len() as int].date by {
        assert(next[j] == pre[j]);
        assert(has_date(prev, pre[j].date));
        let k = choose|k: int| 0 <= k < prev.len() && #[trigger] prev[k].date == pre[j].date;
        if k > p {
            assert(prev[p].date < prev[k].date);
        }
    }
}

proof fn lemma_insert_ascending(prev: Seq<TimeSeriesEntry>, e: TimeSeriesEntry, p: int)
    requires
        dates_ascending(prev),
        0 <= p <= prev.len(),
        forall|j: int| 0 <= j < p ==> prev[j].date < e.date,
        p < prev.len() ==> prev[p].date > e.date,
    ensures
        dates_ascending(prev.insert(p, e)),
{
    let out = prev.insert(p, e);
    assert forall|a: int, b: int| 0 <= a < b < out.len() implies #[trigger] out[a].date < #[trigger] out[b].date by {
        if b < p {
        } else if b == p {
        } else if a < p {
            assert(out[b] == prev[b - 1]);
            if p < prev.len() {
                assert(prev[p].date <= prev[b - 1].date);
            }
        } else if a == p {
            assert(out[b] == prev[b - 1]);
            assert(prev[p].date <= prev[b - 1].date);
        } else {
            assert(out[a] == prev[a - 1]);
            assert(out[b] == prev[b - 1]);
        }
    }
}

proof fn lemma_insert_first_entries(prev: Seq<TimeSeriesEntry>, pre: Seq<TimeSeriesEntry>, e: TimeSeriesEntry, p: int)
    requires
        all_first_entries(prev, pre),
        first_of_date(pre.push(e), pre.len() as int),
        0 <= p <= prev.len(),
    ensures
        all_first_entries(prev.insert(p, e), pre.push(e)),
{
    let out = prev.insert(p, e);
    let next = pre.push(e);
    assert forall|k: int| 0 <= k < out.len() implies is_first_entry(next, #[trigger] out[k]) by {
        if k == p {
            assert(next[pre.len() as int] == out[k]);
        } else {
            let k0 = if k < p { k } else { k - 1 };
            assert(out[k] == prev[k0]);
            assert(is_first_entry(pre, prev[k0]));
            let i = choose|i: int| 0 <= i < pre.len() && #[trigger] pre[i] == prev[k0] && first_of_date(pre, i);
            assert(next[i] == pre[i]);
            assert forall|j: int| 0 <= j < i implies #[trigger] next[j].date != next[i].date by {
                assert(next[j] == pre[j]);
            }
        }
    }
}

proof fn lemma_insert_covers(prev: Seq<TimeSeriesEntry>, pre: Seq<TimeSeriesEntry>, e: TimeSeriesEntry, p: int)
    requires
        covers_dates(prev, pre),
        0 <= p <= prev.len(),
    ensures
        covers_dates(prev.insert(p, e), pre.push(e)),
{
    let out = prev.insert(p, e);
    let next = pre.push(e);
    assert forall|i: int| 0 <= i < next.len() implies has_date(out, #[trigger] next[i].date) by {
        if i < pre.len() {
            assert(next[i] == pre[i]);
            assert(has_date(prev, pre[i].date));
            let k = choose|k: int| 0 <= k < prev.len() && #[trigger] prev[k].date == pre[i].date;
            if k < p {
                assert(out[k] == prev[k]);
            } else {
                assert(out[k + 1] == prev[k]);
            }
        } else {
            assert(out[p] == e);
        }
    }
}

/// Inserting an entry of a new date at its place keeps the series finalized.
proof fn lemma_finalized_insert(prev: Seq<TimeSeriesEntry>, pre: Seq<TimeSeriesEntry>, e: TimeSeriesEntry, p: int)
    requires
        finalized(prev, pre),
        0 <= p <= prev.len(),
        forall|j: int| 0 <= j < p ==> prev[j].date < e.date,
        p < prev.len() ==> prev[p].date > e.date,
    ensures
        finalized(prev.insert(p, e), pre.push(e)),
{
    reveal(finalized);
    lemma_new_date_first(prev, pre, e, p);
    lemma_insert_ascending(prev, e, p);
    lemma_insert_first_entries(prev, pre, e, p);
    lemma_insert_covers(prev, pre, e, p);
}

/// Orders a cell's samples by date and keeps one per date, the first given.
pub fn finalize_series(entries: &Vec<TimeSeriesEntry>) -> (out: Vec<TimeSeriesEntry>)
    ensures
        finalized(out@, entries@),
{
    let mut out: Vec<TimeSeriesEntry> = Vec::new();
    let mut n: usize = 0;
    proof {
        reveal(finalized);
    }
    while n < entries.len()
        invariant
            n <= entries@.len(),
            finalized(out@, entries@.subrange(0, n as int)),
        decreases entries@.len() - n,
    {
        let e = entries[n];
        let ghost pre = entries@.subrange(0, n as int);
        assert(entries@.subrange(0, n + 1) =~= pre.push(e));
        let mut p: usize = 0;
        while p < out.len() && out[p].date < e.date
            invariant
                p <= out@.len(),
                forall|j: int| 0 <= j < p ==> out@[j].date < e.date,
            decreases out@.len() - p,
        {
            p = p + 1;
        }
        if p < out.len() && out[p].date == e.date {
            proof {
                lemma_finalized_skip(out@, pre, e, p as int);
            }
        } else {
            let ghost prev = out@;
            out.insert(p, e);
            proof {
                lemma_finalized_insert(prev, pre, e, p as int);
            }
        }
        n = n + 1;
    }
    assert(entries@.subrange(0, entries@.len() as int) =~= entries@);
    out
}

/// The earliest and the latest date of a set of finalized series, if any has
/// an entry.
pub open spec fn spans(series: Seq<Seq<TimeSeriesEntry>>, lo: u32, hi: u32) -> bool {
    &&& forall|s: int, k: int|
        0 <= s < series.len() && 0 <= k < series[s].len() ==> lo <= #[trigger] series[s][k].date <= hi
    &&& exists|s: int, k: int| 0 <= s < series.len() && 0 <= k < series[s].len() && #[trigger] series[s][k].date == lo
    &&& exists|s: int, k: int| 0 <= s < series.len() && 0 <= k < series[s].len() && #[trigger] series[s][k].date == hi
}

/// The entries of each series.
pub open spec fn series_view(series: Seq<Vec<TimeSeriesEntry>>) -> Seq<Seq<TimeSeriesEntry>> {
    Seq::new(series.len(), |i: int| series[i]@)
}

/// Every series of `series` is ordered by date.
pub open spec fn all_date_ordered(series: Seq<Seq<TimeSeriesEntry>>) -> bool {
    forall|s: int, a: int, b: int|
        0 <= s < series.len() && 0 <= a < b < series[s].len() ==> #[trigger] series[s][a].date < #[trigger] series[s][b].date
}

/// The date range of a set of finalized series: the earliest first date and
/// the latest last date, or `None` when no series has an entry.
pub fn date_range(series: &Vec<Vec<TimeSeriesEntry>>) -> (r: Option<(u32, u32)>)
    requires
        all_date_ordered(series_view(series@)),
    ensures
        match r {
            Some((lo, hi)) => spans(series_view(series@), lo, hi),
            None => forall|s: int| 0 <= s < series@.len() ==> #[trigger] series@[s]@.len() == 0,
        },
{
    let ghost sv = series_view(series@);
    let mut r: Option<(u32, u32)> = None;
    let mut s: usize = 0;
    while s < series.len()
        invariant
            sv == series_view(series@),
            all_date_ordered(sv),
            s <= series@.len(),
            match r {
                Some((lo, hi)) => spans(sv.subrange(0, s as int), lo, hi),
                None => forall|t: int| 0 <= t < s ==> #[trigger] series@[t]@.len() == 0,
            },
        decreases series@.len() - s,
    {
        let ghost pre = sv.subrange(0, s as int);
        let ghost next = sv.subrange(0, s + 1);
        assert(sv[s as int] == series@[s as int]@);
        let cur = &series[s];
        if cur.len() > 0 {
            let first = cur[0].date;
            let last = cur[cur.len() - 1].date;
            proof {
                assert forall|k: int| 0 <= k < cur@.len() implies first <= #[trigger] cur@[k].date <= last by {
                    if k > 0 {
                        assert(sv[s as int][0].date < sv[s as int][k].date);
                    }
                    if k < cur@.len() - 1 {
                        assert(sv[s as int][k].date < sv[s as int][cur@.len() - 1].date);
                    }
                }
            }
            let nr = match r {
                None => (first, last),
                Some((lo, hi)) => (if first < lo { first } else { lo }, if last > hi { last } else { hi }),
            };
            proof {
                let (lo2, hi2) = nr;
                assert forall|t: int, k: int| 0 <= t < next.len() && 0 <= k < next[t].len() implies lo2 <= #[trigger] next[t][k].date <= hi2 by {
                    if t < s {
                        assert(next[t] == pre[t]);
                        assert(sv[t] == series@[t]@);
                        assert(pre[t][k].date == next[t][k].date);
                    } else {
                        assert(next[t][k] == cur@[k]);
                    }
                }
                if lo2 == first {
                    assert(next[s as int][0].date == lo2);
                } else {
                    let (t, k) = choose|t: int, k: int| 0 <= t < pre.len() && 0 <= k < pre[t].len() && #[trigger] pre[t][k].date == lo2;
                    assert(next[t][k] == pre[t][k]);
                }
                if hi2 == last {
                    assert(next[s as int][cur@.len() - 1].date == hi2);
                } else {
                    let (t, k) = choose|t: int, k: int| 0 <= t < pre.len() && 0 <= k < pre[t].len() && #[trigger] pre[t][k].date == hi2;
                    assert(next[t][k] == pre[t][k]);
                }
            }
            r = Some(nr);
        } else {
            proof {
                match r {
                    Some((lo, hi)) => {
                        assert forall|t: int, k: int| 0 <= t < next.len() && 0 <= k < next[t].len() implies lo <= #[trigger] next[t][k].date <= hi by {
                            assert(next[t] == pre[t]);
                        }
                        let (t, k) = choose|t: int, k: int| 0 <= t < pre.len() && 0 <= k < pre[t].len() && #[trigger] pre[t][k].date == lo;
                        assert(next[t][k] == pre[t][k]);
                        let (t2, k2) = choose|t: int, k: int| 0 <= t < pre.len() && 0 <= k < pre[t].len() && #[trigger] pre[t][k].date == hi;
                        assert(next[t2][k2] == pre[t2][k2]);
                    },
                    None => {},
                }
            }
        }
        s = s + 1;
    }
    assert(sv.subrange(0, series@.len() as int) =~= sv);
    r
}

/// Whether a COG of `date` is to be sampled: only dates the series do not
/// hold yet are.
pub fn should_sample(existing_dates: &Vec<u32>, date: u32) -> (b: bool)
    ensures
        b == !existing_dates@.contains(date),
{
    !axis_contains(existing_dates, date)
}

/// Some position listed in `r` holds `id`.
pub open spec fn id_listed(ids: Seq<String>, r: Seq<usize>, id: Seq<char>) -> bool {
    exists|k: int| 0 <= k < r.len() && ids[#[trigger] r[k] as int]@ == id
}

/// Position `i` holds the first occurrence of its id.
pub open spec fn first_id_at(ids: Seq<String>, i: int) -> bool {
    forall|j: int| 0 <= j < i ==> #[trigger] ids[j]@ != ids[i]@
}

/// The positions of the first occurrence of each distinct id, in order.
pub fn first_occurrences(ids: &Vec<String>) -> (r: Vec<usize>)
    ensures
        forall|a: int, b: int| 0 <= a < b < r@.len() ==> r@[a] < r@[b],
        forall|k: int| 0 <= k < r@.len() ==> (#[trigger] r@[k] as int) < ids@.len(),
        forall|k: int| 0 <= k < r@.len() ==> first_id_at(ids@, #[trigger] r@[k] as int),
        forall|i: int| 0 <= i < ids@.len() ==> id_listed(ids@, r@, #[trigger] ids@[i]@),
{
    let mut r: Vec<usize> = Vec::new();
    let mut i: usize = 0;
    while i < ids.len()
        invariant
            i <= ids@.len(),
            forall|a: int, b: int| 0 <= a < b < r@.len() ==> r@[a] < r@[b],
            forall|k: int| 0 <= k < r@.len() ==> (#[trigger] r@[k] as int) < i,
            forall|k: int| 0 <= k < r@.len() ==> first_id_at(ids@, #[trigger] r@[k] as int),
            forall|m: int| 0 <= m < i ==> id_listed(ids@, r@, #[trigger] ids@[m]@),
        decreases ids@.len() - i,
    {
        let mut seen = false;
        let mut k: usize = 0;
        while k < r.len()
            invariant
                k <= r@.len(),
                i < ids@.len(),
                forall|q: int| 0 <= q < r@.len() ==> (#[trigger] r@[q] as int) < i,
                seen ==> id_listed(ids@, r@, ids@[i as int]@),
                !seen ==> forall|q: int| 0 <= q < k ==> #[trigger] ids@[r@[q] as int]@ != ids@[i as int]@,
            decreases r@.len() - k,
        {
            if ids[r[k]] == ids[i] {
                seen = true;
            }
            k = k + 1;
        }
        if !seen {
            proof {
                assert forall|j: int| 0 <= j < i implies #[trigger] ids@[j]@ != ids@[i as int]@ by {
                    assert(id_listed(ids@, r@, ids@[j]@));
                }
            }
            let ghost prev = r@;
            r.push(i);
            proof {
                assert forall|m: int| 0 <= m < i + 1 implies id_listed(ids@, r@, #[trigger] ids@[m]@) by {
                    if m < i {
                        assert(id_listed(ids@, prev, ids@[m]@));
                        let k = choose|k: int| 0 <= k < prev.len() && ids@[#[trigger] prev[k] as int]@ == ids@[m]@;
                        assert(r@[k] == prev[k]);
                    } else {
                        assert(r@[prev.len() as int] == i);
                    }
                }
            }
        }
        i = i + 1;
    }
    r
}

} // verus!
