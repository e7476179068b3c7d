//! The date axis: the strictly ascending list of `YYYYMMDD` keys that indexes
//! the time dimension of the array, and the planning of each extension of it.
//!
//! A date is held as the number whose eight decimal digits are `YYYYMMDD`, so
//! that numeric order is chronological order.
use vstd::prelude::*;
use crate::text::{
    all_digits, chars_of, digits_value, ends_with, has_prefix, has_suffix, padded_digits,
    parse_digits, pow10, starts_with, append_padded, append_decimal, decimal, lemma_digits_bound_text,
    lemma_padded_digits,
};

verus! {

/// Strictly ascending: sorted and free of duplicates.
pub open spec fn ascending(s: Seq<u32>) -> bool {
    forall|i: int, j: int| 0 <= i < j < s.len() ==> s[i] < s[j]
}

/// The date key of a COG name of the form `snodas_snow_depth_YYYYMMDD.tif`.
pub open spec fn cog_date(name: Seq<char>) -> Option<u32> {
    let p = "snodas_snow_depth_"@;
    let q = ".tif"@;
    if name.len() == p.len() + 8 + q.len() && has_prefix(name, p) && has_suffix(name, q) && all_digits(
        name.subrange(p.len() as int, p.len() + 8 as int),
    ) {
        Some(digits_value(name.subrange(p.len() as int, p.len() + 8 as int)) as u32)
    } else {
        None
    }
}

/// The date text of a key: its eight digits, zero-padded.
pub open spec fn date_text_of(key: u32) -> Seq<char> {
    padded_digits(key as nat, 8)
}

/// The key of an eight-digit date text.
pub open spec fn date_key_of(text: Seq<char>) -> Option<u32> {
    if text.len() == 8 && all_digits(text) {
        Some(digits_value(text) as u32)
    } else {
        None
    }
}

/// Whether `d` is a new date of an extension of `existing` by `candidates`:
/// every candidate when the store is rebuilt, the candidates not yet on the
/// axis when appending.
pub open spec fn is_new_date(existing: Seq<u32>, candidates: Seq<u32>, append: bool, d: u32) -> bool {
    candidates.contains(d) && (!append || !existing.contains(d))
}

/// Appending a new date that does not sort after every date already on the
/// axis would shift the positions of stored slices.
pub open spec fn precondition_violated(existing: Seq<u32>, candidates: Seq<u32>, append: bool) -> bool {
    append && existing.len() > 0 && exists|d: u32|
        #[trigger] is_new_date(existing, candidates, append, d) && d <= existing.last()
}

/// `new_dates` are the new dates in ascending order and `combined` is the axis
/// after the extension: the old axis followed by the new dates when appending
/// (so unchanged when nothing is new), the new dates alone when rebuilding
/// (so empty when the batch holds no date).
pub open spec fn planned(
    existing: Seq<u32>,
    candidates: Seq<u32>,
    append: bool,
    new_dates: Seq<u32>,
    combined: Seq<u32>,
) -> bool {
    &&& ascending(new_dates)
    &&& forall|d: u32| new_dates.contains(d) <==> #[trigger] is_new_date(existing, candidates, append, d)
    &&& combined == if append {
        existing + new_dates
    } else {
        new_dates
    }
}

/// Every key of `s` has at most eight digits, so it has a `YYYYMMDD` text.
pub open spec fn eight_digit_keys(s: Seq<u32>) -> bool {
    forall|i: int| 0 <= i < s.len() ==> #[trigger] s[i] < 100_000_000
}

/// The text of a key of at most eight digits reads back as the key.
pub proof fn lemma_date_text_round_trip(k: u32)
    requires
        k < 100_000_000,
    ensures
        date_key_of(date_text_of(k)) == Some(k),
{
    lemma_padded_digits(k as nat, 8);
    reveal_with_fuel(pow10, 9);
    vstd::arithmetic::div_mod::lemma_small_mod(k as nat, 100_000_000);
}

/// A key read from a date text has at most eight digits.
pub proof fn lemma_date_key_bound(text: Seq<char>)
    requires
        date_key_of(text) is Some,
    ensures
        date_key_of(text)->0 < 100_000_000,
        date_key_of(text)->0 == digits_value(text),
{
    lemma_digits_bound_text(text);
    reveal_with_fuel(pow10, 9);
}

/// The date of a COG name has at most eight digits.
pub proof fn lemma_cog_date_bound(name: Seq<char>)
    requires
        cog_date(name) is Some,
    ensures
        cog_date(name)->0 < 100_000_000,
{
    let p = "snodas_snow_depth_"@;
    lemma_digits_bound_text(name.subrange(p.len() as int, p.len() + 8 as int));
    reveal_with_fuel(pow10, 9);
}

/// Errors of the accumulator.
#[derive(Debug, Clone, Copy, PartialEq, Eq, Structural)]
pub enum ZarrError {
    /// Appending a date that does not sort after every date on the axis.
    PreconditionViolation,
    /// The persisted axis is not a JSON array of strictly ascending dates.
    InvalidDates,
}

/// The new dates of an extension of the axis, and the axis after it.
pub struct DatePlan {
    pub new_dates: Vec<u32>,
    pub combined: Vec<u32>,
}

/// The date key of a COG name `snodas_snow_depth_YYYYMMDD.tif`.
pub fn cog_date_key(name: &str) -> (r: Option<u32>)
    ensures
        r == cog_date(name@),
{
    let cs = chars_of(name);
    let p = chars_of("snodas_snow_depth_");
    let q = chars_of(".tif");
    if p.len() > 64 || q.len() > 64 || cs.len() != p.len() + 8 + q.len() {
        proof {
            if name@.len() == p@.len() + 8 + q@.len() {
                assert(p@.len() > 64 || q@.len() > 64);
                assert(false) by {
                    reveal_strlit("snodas_snow_depth_");
                    reveal_strlit(".tif");
                }
            }
        }
        return None;
    }
    if !starts_with(&cs, "snodas_snow_depth_") || !ends_with(&cs, ".tif") {
        return None;
    }
    match parse_digits(&cs, p.len(), 8) {
        Some(v) => {
            proof {
                lemma_digits_bound_text(name@.subrange(p@.len() as int, p@.len() + 8 as int));
            }
            Some(v as u32)
        },
        None => None,
    }
}

/// The `YYYYMMDD` text of a COG name `snodas_snow_depth_YYYYMMDD.tif`.
pub fn extract_date_from_filename(filename: &str) -> (r: Option<String>)
    ensures
        r is Some <==> cog_date(filename@) is Some,
        r is Some ==> r->0@ == filename@.subrange("snodas_snow_depth_"@.len() as int, "snodas_snow_depth_"@.len() + 8 as int),
{
    match cog_date_key(filename) {
        Some(_) => {
            proof {
                reveal_strlit("snodas_snow_depth_");
            }
            let n = chars_of("snodas_snow_depth_").len();
            Some(String::from_str(filename.substring_char(n, n + 8)))
        },
        None => None,
    }
}

/// The eight-digit text of a date key.
pub fn date_text(key: u32) -> (r: String)
    ensures
        r@ == date_text_of(key),
{
    let mut r = String::new();
    append_padded(&mut r, key as u64, 8);
    assert(r@ =~= date_text_of(key));
    r
}

/// The key of an eight-digit date text.
pub fn parse_date_text(text: &str) -> (r: Option<u32>)
    ensures
        r == date_key_of(text@),
{
    let cs = chars_of(text);
    if cs.len() != 8 {
        return None;
    }
    match parse_digits(&cs, 0, 8) {
        Some(v) => {
            proof {
                assert(cs@.subrange(0, 8) =~= text@);
                lemma_digits_bound_text(text@);
                reveal_with_fuel(pow10, 9);
            }
            Some(v as u32)
        },
        None => {
            assert(cs@.subrange(0, 8) =~= text@);
            None
        },
    }
}

/// Whether `d` is on the strictly ascending axis `s`.
pub fn axis_contains(s: &Vec<u32>, d: u32) -> (b: bool)
    ensures
        b == s@.contains(d),
{
    let mut i: usize = 0;
    while i < s.len()
        invariant
            i <= s@.len(),
            forall|j: int| 0 <= j < i ==> s@[j] != d,
        decreases s@.len() - i,
    {
        if s[i] == d {
            return true;
        }
        i = i + 1;
    }
    false
}

/// The distinct values of `v` in ascending order.
pub fn sorted_unique(v: &Vec<u32>) -> (r: Vec<u32>)
    ensures
        ascending(r@),
        forall|d: u32| r@.contains(d) <==> v@.contains(d),
{
    let mut out: Vec<u32> = Vec::new();
    let mut k: usize = 0;
    while k < v.len()
        invariant
            k <= v@.len(),
            ascending(out@),
            forall|d: u32| out@.contains(d) <==> v@.subrange(0, k as int).contains(d),
        decreases v@.len() - k,
    {
        let x = v[k];
        let mut p: usize = 0;
        while p < out.len() && out[p] < x
            invariant
                p <= out@.len(),
                forall|j: int| 0 <= j < p ==> out@[j] < x,
            decreases out@.len() - p,
        {
            p = p + 1;
        }
        let ghost prev = out@;
        let ghost sub = v@.subrange(0, k as int);
        let ghost next = v@.subrange(0, k + 1);
        assert(next =~= sub.push(x));
        if p < out.len() && out[p] == x {
            assert forall|d: u32| out@.contains(d) <==> next.contains(d) by {
                if next.contains(d) {
                    let j = choose|j: int| 0 <= j < next.len() && next[j] == d;
                    if j < sub.len() {
                        assert(sub[j] == d);
                    }
                }
                if out@.contains(d) {
                    assert(sub.contains(d));
                    let j = choose|j: int| 0 <= j < sub.len() && sub[j] == d;
                    assert(next[j] == d);
                }
            }
        } else {
            out.insert(p, x);
            assert forall|i: int, j: int| 0 <= i < j < out@.len() implies out@[i] < out@[j] by {
                if j < p {
                } else if j == p {
                } else if i < p {
                    assert(out@[j] == prev[j - 1]);
                    if p < prev.len() {
                        assert(prev[p as int] >= x);
                        assert(prev[p as int] <= prev[j - 1]);
                    }
                } else if i == p {
                    assert(out@[j] == prev[j - 1]);
                    assert(prev[p as int] >= x);
                    assert(prev[p as int] != x);
                    assert(prev[p as int] <= prev[j - 1]);
                } else {
                    assert(out@[i] == prev[i - 1]);
                    assert(out@[j] == prev[j - 1]);
                }
            }
            assert forall|d: u32| out@.contains(d) <==> next.contains(d) by {
                if next.contains(d) {
                    let j = choose|j: int| 0 <= j < next.len() && next[j] == d;
                    if j < sub.len() {
                        assert(sub[j] == d);
                        assert(prev.contains(d));
                        let m = choose|m: int| 0 <= m < prev.len() && prev[m] == d;
                        if m < p {
                            assert(out@[m] == d);
                        } else {
                            assert(out@[m + 1] == d);
                        }
                    } else {
                        assert(out@[p as int] == d);
                    }
                }
                if out@.contains(d) {
                    let m = choose|m: int| 0 <= m < out@.len() && out@[m] == d;
                    if m < p {
                        assert(prev[m] == d);
                        assert(prev.contains(d));
                        assert(sub.contains(d));
                        let j = choose|j: int| 0 <= j < sub.len() && sub[j] == d;
                        assert(next[j] == d);
                    } else if m == p {
                        assert(next[k as int] == d);
                    } else {
                        assert(prev[m - 1] == d);
                        assert(prev.contains(d));
                        assert(sub.contains(d));
                        let j = choose|j: int| 0 <= j < sub.len() && sub[j] == d;
                        assert(next[j] == d);
                    }
                }
            }
        }
        k = k + 1;
    }
    assert(v@.subrange(0, v@.len() as int) =~= v@);
    out
}

/// A copy of the axis.
fn copy_axis(s: &Vec<u32>) -> (r: Vec<u32>)
    ensures
        r@ == s@,
{
    let mut r: Vec<u32> = Vec::with_capacity(s.len());
    let mut i: usize = 0;
    while i < s.len()
        invariant
            i <= s@.len(),
            r@ == s@.subrange(0, i as int),
        decreases s@.len() - i,
    {
        r.push(s[i]);
        i = i + 1;
        assert(r@ =~= s@.subrange(0, i as int));
    }
    assert(r@ =~= s@);
    r
}

/// Plans an extension of the axis by the dates found in a batch of COGs.
///
/// Fails with `PreconditionViolation`, and changes nothing, when appending a
/// date that does not sort after every date already on the axis.
pub fn plan_dates(existing: &Vec<u32>, candidates: &Vec<u32>, append: bool) -> (r: Result<DatePlan, ZarrError>)
    requires
        ascending(existing@),
    ensures
        match r {
            Ok(p) => !precondition_violated(existing@, candidates@, append) && planned(
                existing@,
                candidates@,
                append,
                p.new_dates@,
                p.combined@,
            ),
            Err(e) => e == ZarrError::PreconditionViolation && precondition_violated(
                existing@,
                candidates@,
                append,
            ),
        },
{
    let all = sorted_unique(candidates);
    let mut new_dates: Vec<u32> = Vec::new();
    let mut k: usize = 0;
    while k < all.len()
        invariant
            k <= all@.len(),
            ascending(all@),
            forall|d: u32| all@.contains(d) <==> candidates@.contains(d),
            forall|i: int| 0 <= i < new_dates@.len() ==> exists|j: int| 0 <= j < k && all@[j] == #[trigger] new_dates@[i],
            ascending(new_dates@),
            forall|i: int| 0 <= i < new_dates@.len() ==> is_new_date(existing@, candidates@, append, #[trigger] new_dates@[i]),
            forall|j: int| 0 <= j < k && is_new_date(existing@, candidates@, append, #[trigger] all@[j]) ==> new_dates@.contains(all@[j]),
        decreases all@.len() - k,
    {
        let d = all[k];
        let keep = !append || !axis_contains(existing, d);
        if keep {
            let ghost prev = new_dates@;
            new_dates.push(d);
            proof {
                assert(candidates@.contains(d)) by {
                    assert(all@.contains(d));
                }
                assert forall|i: int, j: int| 0 <= i < j < new_dates@.len() implies new_dates@[i] < new_dates@[j] by {
                    if j == prev.len() {
                        let m = choose|m: int| 0 <= m < k && all@[m] == new_dates@[i];
                    }
                }
                assert forall|i: int| 0 <= i < new_dates@.len() implies exists|j: int| 0 <= j < k + 1 && all@[j] == #[trigger] new_dates@[i] by {
                    if i < prev.len() {
                        assert(new_dates@[i] == prev[i]);
                    } else {
                        assert(all@[k as int] == new_dates@[i]);
                    }
                }
                assert forall|j: int| 0 <= j < k + 1 && is_new_date(existing@, candidates@, append, #[trigger] all@[j]) implies new_dates@.contains(all@[j]) by {
                    if j < k {
                        let m = choose|m: int| 0 <= m < prev.len() && prev[m] == all@[j];
                        assert(new_dates@[m] == all@[j]);
                    } else {
                        assert(new_dates@[prev.len() as int] == all@[j]);
                    }
                }
            }
        } else {
            proof {
                assert(!is_new_date(existing@, candidates@, append, d));
            }
        }
        k = k + 1;
    }
    proof {
        assert forall|d: u32| new_dates@.contains(d) <==> #[trigger] is_new_date(existing@, candidates@, append, d) by {
            if is_new_date(existing@, candidates@, append, d) {
                assert(all@.contains(d));
                let j = choose|j: int| 0 <= j < all@.len() && all@[j] == d;
            }
        }
    }
    if new_dates.len() == 0 {
        proof {
            if precondition_violated(existing@, candidates@, append) {
                let d = choose|d: u32| #[trigger] is_new_date(existing@, candidates@, append, d) && d <= existing@.last();
                assert(new_dates@.contains(d));
            }
        }
        let combined = if append {
            assert(existing@ + new_dates@ =~= existing@);
            copy_axis(existing)
        } else {
            Vec::new()
        };
        assert(!append ==> combined@ =~= new_dates@);
        return Ok(DatePlan { new_dates, combined });
    }
    if append && existing.len() > 0 && new_dates[0] <= existing[existing.len() - 1] {
        proof {
            assert(new_dates@.contains(new_dates@[0]));
        }
        return Err(ZarrError::PreconditionViolation);
    }
    proof {
        if precondition_violated(existing@, candidates@, append) {
            let d = choose|d: u32| #[trigger] is_new_date(existing@, candidates@, append, d) && d <= existing@.last();
            assert(new_dates@.contains(d));
            let m = choose|m: int| 0 <= m < new_dates@.len() && new_dates@[m] == d;
            if m > 0 {
                assert(new_dates@[0] < new_dates@[m]);
            }
        }
    }
    let combined = if append {
        let mut c = copy_axis(existing);
        let mut tail = copy_axis(&new_dates);
        c.append(&mut tail);
        c
    } else {
        copy_axis(&new_dates)
    };
    Ok(DatePlan { new_dates, combined })
}

/// Time chunk `c` holds a position of the axis `combined` whose date is new.
pub open spec fn is_affected_chunk(combined: Seq<u32>, new_dates: Seq<u32>, c: int) -> bool {
    exists|i: int| 0 <= i < combined.len() && new_dates.contains(combined[i]) && #[trigger] (i / 365) == c
}

/// The time chunks that an extension touches, in ascending order: those of
/// the positions on the extended axis that hold a new date, no more, no fewer.
pub fn affected_time_chunks(combined: &Vec<u32>, new_dates: &Vec<u32>) -> (r: Vec<usize>)
    ensures
        forall|i: int, j: int| 0 <= i < j < r@.len() ==> r@[i] < r@[j],
        forall|c: usize| r@.contains(c) <==> #[trigger] is_affected_chunk(combined@, new_dates@, c as int),
{
    let mut out: Vec<usize> = Vec::new();
    let mut i: usize = 0;
    while i < combined.len()
        invariant
            i <= combined@.len(),
            forall|a: int, b: int| 0 <= a < b < out@.len() ==> out@[a] < out@[b],
            out@.len() > 0 ==> out@.last() <= (i - 1) / 365,
            forall|c: usize|
                #[trigger] out@.contains(c) <==> exists|k: int|
                    0 <= k < i && new_dates@.contains(combined@[k]) && #[trigger] (k / 365) == c as int,
        decreases combined@.len() - i,
    {
        if axis_contains(new_dates, combined[i]) {
            let c = i / 365;
            if out.len() == 0 || out[out.len() - 1] != c {
                let ghost prev = out@;
                out.push(c);
                proof {
                    assert forall|c2: usize|
                        #[trigger] out@.contains(c2) <==> exists|k: int|
                            0 <= k < i + 1 && new_dates@.contains(combined@[k]) && #[trigger] (k / 365) == c2 as int by {
                        if out@.contains(c2) {
                            let m = choose|m: int| 0 <= m < out@.len() && out@[m] == c2;
                            if m < prev.len() {
                                assert(prev[m] == c2);
                                assert(prev.contains(c2));
                            } else {
                                assert(i as int / 365 == c2);
                            }
                        }
                        if exists|k: int| 0 <= k < i + 1 && new_dates@.contains(combined@[k]) && #[trigger] (k / 365) == c2 as int {
                            let k = choose|k: int| 0 <= k < i + 1 && new_dates@.contains(combined@[k]) && #[trigger] (k / 365) == c2 as int;
                            if k < i {
                                assert(prev.contains(c2));
                                let m = choose|m: int| 0 <= m < prev.len() && prev[m] == c2;
                                assert(out@[m] == c2);
                            } else {
                                assert(out@[prev.len() as int] == c2);
                            }
                        }
                    }
                }
            } else {
                proof {
                    assert(out@[out@.len() - 1] == c);
                    assert forall|c2: usize|
                        #[trigger] out@.contains(c2) <==> exists|k: int|
                            0 <= k < i + 1 && new_dates@.contains(combined@[k]) && #[trigger] (k / 365) == c2 as int by {
                        if exists|k: int| 0 <= k < i + 1 && new_dates@.contains(combined@[k]) && #[trigger] (k / 365) == c2 as int {
                            let k = choose|k: int| 0 <= k < i + 1 && new_dates@.contains(combined@[k]) && #[trigger] (k / 365) == c2 as int;
                            if k == i {
                                assert(out@.contains(c));
                            }
                        }
                    }
                }
            }
        } else {
            proof {
                assert forall|c2: usize|
                    #[trigger] out@.contains(c2) <==> exists|k: int|
                        0 <= k < i + 1 && new_dates@.contains(combined@[k]) && #[trigger] (k / 365) == c2 as int by {
                    if exists|k: int| 0 <= k < i + 1 && new_dates@.contains(combined@[k]) && #[trigger] (k / 365) == c2 as int {
                        let k = choose|k: int| 0 <= k < i + 1 && new_dates@.contains(combined@[k]) && #[trigger] (k / 365) == c2 as int;
                        assert(k < i);
                    }
                }
            }
        }
        i = i + 1;
    }
    out
}

/// The store prefix under which the chunk objects of time chunk `c` lie.
pub open spec fn chunk_prefix_of(c: nat) -> Seq<char> {
    "snow_depth/c/"@ + decimal(c) + "/"@
}

/// The store prefix `snow_depth/c/<c>/` of the chunk objects of time chunk `c`.
pub fn chunk_prefix(c: usize) -> (r: String)
    ensures
        r@ == chunk_prefix_of(c as nat),
{
    let mut r = String::from_str("snow_depth/c/");
    append_decimal(&mut r, c as u64);
    r.append("/");
    r
}

/// Axis monotonicity: every planned axis is strictly ascending.
pub proof fn lemma_axis_monotone(
    existing: Seq<u32>,
    candidates: Seq<u32>,
    append: bool,
    new_dates: Seq<u32>,
    combined: Seq<u32>,
)
    requires
        ascending(existing),
        !precondition_violated(existing, candidates, append),
        planned(existing, candidates, append, new_dates, combined),
    ensures
        ascending(combined),
{
    if new_dates.len() > 0 && append {
        assert forall|i: int, j: int| 0 <= i < j < combined.len() implies combined[i] < combined[j] by {
            let n = existing.len() as int;
            if j >= n && i < n {
                assert(new_dates.contains(new_dates[0]));
                assert(is_new_date(existing, candidates, append, new_dates[0]));
                assert(existing[i] <= existing.last());
                if j > n {
                    assert(new_dates[0] < new_dates[j - n]);
                }
            } else if j >= n {
                assert(combined[i] == new_dates[i - n]);
            }
        }
    }
}

/// Append preservation on the axis: a successful append keeps every date
/// already on the axis at its position.
pub proof fn lemma_append_keeps_positions(
    existing: Seq<u32>,
    candidates: Seq<u32>,
    new_dates: Seq<u32>,
    combined: Seq<u32>,
)
    requires
        planned(existing, candidates, true, new_dates, combined),
    ensures
        combined.len() >= existing.len(),
        forall|i: int| 0 <= i < existing.len() ==> #[trigger] combined[i] == existing[i],
{
}

/// Idempotence on the axis: once an extension is done, planning the same
/// batch again in append mode finds nothing new and keeps the axis.
pub proof fn lemma_replan_finds_nothing(
    existing: Seq<u32>,
    candidates: Seq<u32>,
    append: bool,
    new_dates: Seq<u32>,
    combined: Seq<u32>,
    new_again: Seq<u32>,
    combined_again: Seq<u32>,
)
    requires
        planned(existing, candidates, append, new_dates, combined),
        planned(combined, candidates, true, new_again, combined_again),
    ensures
        new_again.len() == 0,
        combined_again == combined,
        !precondition_violated(combined, candidates, true),
{
    assert forall|d: u32| !#[trigger] is_new_date(combined, candidates, true, d) by {
        if candidates.contains(d) {
            if append && existing.contains(d) {
                let k = choose|k: int| 0 <= k < existing.len() && existing[k] == d;
                if new_dates.len() > 0 {
                    assert(combined[k] == d);
                }
            } else {
                assert(is_new_date(existing, candidates, append, d));
                assert(new_dates.contains(d));
                let k = choose|k: int| 0 <= k < new_dates.len() && new_dates[k] == d;
                if append {
                    assert(combined[existing.len() + k] == d);
                } else {
                    assert(combined[k] == d);
                }
            }
        }
    }
    if new_again.len() > 0 {
        assert(new_again.contains(new_again[0]));
        assert(is_new_date(combined, candidates, true, new_again[0]));
    }
}

} // verus!
