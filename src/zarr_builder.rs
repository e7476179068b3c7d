//! The accumulator: its date axis, and the plan of each batch of COGs that it
//! merges into the chunked array.
//!
//! A batch runs in three steps. `plan_cogs` decides, from the COG file names,
//! the new axis, how the array is to be created or grown and which file goes
//! to which axis position. The caller then stores the chunks of each job (see
//! `chunk`), grouped by time chunk in the order of the jobs. Last,
//! `commit_plan` advances the axis, whose `dates_json` is persisted after all
//! chunks are stored.
use vstd::prelude::*;
use crate::axis::{
    ascending, cog_date, cog_date_key, date_key_of, date_text, date_text_of, eight_digit_keys, is_new_date,
    lemma_cog_date_bound, lemma_date_key_bound, lemma_date_text_round_trip, parse_date_text, plan_dates, planned,
    precondition_violated, DatePlan, ZarrError,
};
use crate::text::{all_digits, lemma_padded_digits};

verus! {

/// Names the compact JSON text that serde_json writes for an array of strings.
pub uninterp spec fn json_of_string_array(items: Seq<Seq<char>>) -> Seq<char>;

/// Names the array of strings that serde_json reads from a JSON text, if the
/// text is one.
pub uninterp spec fn string_array_of_json(text: Seq<char>) -> Option<Seq<Seq<char>>>;

/// The quoted items of a JSON array of strings that need no escapes,
/// separated by commas.
pub open spec fn json_plain_items(items: Seq<Seq<char>>) -> Seq<char>
    decreases items.len(),
{
    if items.len() == 0 {
        Seq::empty()
    } else if items.len() == 1 {
        "\""@ + items[0] + "\""@
    } else {
        json_plain_items(items.drop_last()) + ","@ + "\""@ + items.last() + "\""@
    }
}

/// The compact JSON text of an array of strings that need no escapes.
pub open spec fn json_plain_array(items: Seq<Seq<char>>) -> Seq<char> {
    "["@ + json_plain_items(items) + "]"@
}

/// Relies on `serde_json::to_string`, which writes a `Vec<String>` as a
/// compact JSON array of strings, cannot fail on one, and writes strings of
/// digits between quotes as they are; `serde_json::from_str` reads the text
/// back as the same strings.
#[verifier::external_body]
fn json_string_array(items: &Vec<String>) -> (r: String)
    ensures
        r@ == json_of_string_array(items.deep_view()),
        string_array_of_json(r@) == Some(items.deep_view()),
        (forall|i: int| 0 <= i < items@.len() ==> all_digits(#[trigger] items@[i]@)) ==> r@ == json_plain_array(
            items.deep_view(),
        ),
{
    serde_json::to_string(items).unwrap_or_default()
}

/// Relies on `serde_json::from_str::<Vec<String>>`, which reads a JSON array of
/// strings and fails on any other text.
#[verifier::external_body]
fn parse_json_string_array(text: &str) -> (r: Option<Vec<String>>)
    ensures
        match r {
            Some(v) => string_array_of_json(text@) == Some(v.deep_view()),
            None => string_array_of_json(text@) is None,
        },
{
    serde_json::from_str::<Vec<String>>(text).ok()
}

/// The axis held by a `dates.json` text: an array of eight-digit dates in
/// strictly ascending order.
pub open spec fn axis_of_json(text: Seq<char>) -> Option<Seq<u32>> {
    match string_array_of_json(text) {
        Some(items) => {
            let keys = Seq::new(items.len(), |i: int| date_key_of(items[i])->0);
            if (forall|i: int| 0 <= i < items.len() ==> #[trigger] date_key_of(items[i]) is Some) && ascending(keys) {
                Some(keys)
            } else {
                None
            }
        },
        None => None,
    }
}

/// The dates of the COG names among `names`, in the order of the names.
pub open spec fn cog_dates(names: Seq<String>) -> Seq<u32>
    decreases names.len(),
{
    if names.len() == 0 {
        Seq::empty()
    } else {
        let rest = cog_dates(names.drop_last());
        match cog_date(names.last()@) {
            Some(d) => rest.push(d),
            None => rest,
        }
    }
}

/// How the array is brought to the length of the new axis.
#[derive(Debug, Clone, Copy, PartialEq, Eq, Structural)]
pub enum ArrayStep {
    /// Create the array afresh with `time_len` positions.
    Create { time_len: u64 },
    /// Open the stored array and grow it to `time_len` positions if it is
    /// shorter; it never shrinks.
    Extend { time_len: u64 },
}

/// The array step of an extension: a rebuild, or the first batch of a store,
/// creates the array; an append to a stored axis extends it.
pub open spec fn array_step_for(existing: Seq<u32>, append: bool, combined: Seq<u32>) -> ArrayStep {
    if !append || existing.len() == 0 {
        ArrayStep::Create { time_len: combined.len() as u64 }
    } else {
        ArrayStep::Extend { time_len: combined.len() as u64 }
    }
}

/// The time length of the array after a step, from the length it had.
pub open spec fn time_len_after(step: ArrayStep, current: int) -> int {
    match step {
        ArrayStep::Create { time_len } => time_len as int,
        ArrayStep::Extend { time_len } => if current < time_len { time_len as int } else { current },
    }
}

/// The shape that an array of shape `current` takes to hold `time_len`
/// positions, or `None` when it holds them already.
pub fn grown_shape(current: &Vec<u64>, time_len: u64) -> (r: Option<Vec<u64>>)
    requires
        current@.len() == 3,
    ensures
        match r {
            Some(s) => current@[0] < time_len && s@ == seq![time_len, current@[1], current@[2]],
            None => current@[0] >= time_len,
        },
{
    if current[0] < time_len {
        let mut s: Vec<u64> = Vec::new();
        s.push(time_len);
        s.push(current[1]);
        s.push(current[2]);
        assert(s@ =~= seq![time_len, current@[1], current@[2]]);
        Some(s)
    } else {
        None
    }
}

/// One COG of a batch: which of the names, its date and its axis position.
#[derive(Debug, Clone, Copy, PartialEq, Eq, Structural)]
pub struct CogJob {
    pub file_index: usize,
    pub date: u32,
    pub time_index: usize,
}

/// Everything a batch does, decided before anything is written.
pub struct BuildPlan {
    pub dates: DatePlan,
    pub step: ArrayStep,
    /// In ascending order of axis position, then of file index.
    pub jobs: Vec<CogJob>,
}

/// Some job of `jobs` is for file `m`.
pub open spec fn has_job(jobs: Seq<CogJob>, m: int) -> bool {
    exists|j: int| 0 <= j < jobs.len() && #[trigger] jobs[j].file_index == m
}

proof fn lemma_has_job_push(jobs: Seq<CogJob>, job: CogJob, m: int)
    requires
        has_job(jobs, m) || job.file_index == m,
    ensures
        has_job(jobs.push(job), m),
{
    if job.file_index == m {
        assert(jobs.push(job)[jobs.len() as int].file_index == m);
    } else {
        let j = choose|j: int| 0 <= j < jobs.len() && #[trigger] jobs[j].file_index == m;
        assert(jobs.push(job)[j].file_index == m);
    }
}

/// Job `a` comes before job `b`.
pub open spec fn job_before(a: CogJob, b: CogJob) -> bool {
    a.time_index < b.time_index || (a.time_index == b.time_index && a.file_index < b.file_index)
}

/// `jobs` lists, in order, each file among `names` whose date is new, with the
/// position of that date on the axis `combined`.
pub open spec fn jobs_of(jobs: Seq<CogJob>, names: Seq<String>, new_dates: Seq<u32>, combined: Seq<u32>) -> bool {
    &&& forall|j: int|
        0 <= j < jobs.len() ==> {
            let job = #[trigger] jobs[j];
            &&& job.file_index < names.len()
            &&& cog_date(names[job.file_index as int]@) == Some(job.date)
            &&& new_dates.contains(job.date)
            &&& job.time_index < combined.len()
            &&& combined[job.time_index as int] == job.date
        }
    &&& forall|i: int|
        0 <= i < names.len() && (#[trigger] cog_date(names[i]@)) is Some && new_dates.contains(
            cog_date(names[i]@)->0,
        ) ==> has_job(jobs, i)
    &&& forall|a: int, b: int| 0 <= a < b < jobs.len() ==> job_before(#[trigger] jobs[a], #[trigger] jobs[b])
}

/// The accumulator's state: where its store lies, and its date axis.
pub struct ZarrBuilder {
    output_path: String,
    dates: Vec<u32>,
}

impl ZarrBuilder {
    /// The date axis.
    pub closed spec fn axis(&self) -> Seq<u32> {
        self.dates@
    }

    /// The location of the store.
    pub closed spec fn path(&self) -> Seq<char> {
        self.output_path@
    }

    /// The axis is strictly ascending, at all times.
    #[verifier::type_invariant]
    spec fn axis_ascending(self) -> bool {
        ascending(self.dates@) && eight_digit_keys(self.dates@)
    }

    /// An accumulator for a fresh store at `output_path`, with an empty axis.
    pub fn new(output_path: &str) -> (b: ZarrBuilder)
        ensures
            b.axis() == Seq::<u32>::empty(),
            b.path() == output_path@,
    {
        ZarrBuilder { output_path: String::from_str(output_path), dates: Vec::new() }
    }

    /// An accumulator for the store at `output_path`, whose axis is read from
    /// the text of its `dates.json`; without that file the axis is empty.
    pub fn load_existing(output_path: &str, dates_json: Option<&str>) -> (r: Result<ZarrBuilder, ZarrError>)
        ensures
            match dates_json {
                None => r matches Ok(b) && b.axis() == Seq::<u32>::empty(),
                Some(text) => match axis_of_json(text@) {
                    Some(axis) => r matches Ok(b) && b.axis() == axis,
                    None => r == Err::<ZarrBuilder, ZarrError>(ZarrError::InvalidDates),
                },
            },
            r matches Ok(b) ==> b.path() == output_path@,
    {
        match dates_json {
            None => Ok(ZarrBuilder::new(output_path)),
            Some(text) => match decode_axis(text) {
                Some(dates) => {
                    proof {
                        lemma_axis_of_json_keys(text@);
                    }
                    Ok(ZarrBuilder { output_path: String::from_str(output_path), dates })
                },
                None => Err(ZarrError::InvalidDates),
            },
        }
    }

    /// The location of the store.
    pub fn output_path(&self) -> (r: &str)
        ensures
            r@ == self.path(),
    {
        self.output_path.as_str()
    }

    /// The axis as date keys, strictly ascending.
    pub fn date_keys(&self) -> (r: &Vec<u32>)
        ensures
            r@ == self.axis(),
            ascending(r@),
            eight_digit_keys(r@),
    {
        proof {
            use_type_invariant(self);
        }
        &self.dates
    }

    /// The axis as `YYYYMMDD` texts.
    pub fn get_existing_dates(&self) -> (r: Vec<String>)
        ensures
            r@.len() == self.axis().len(),
            forall|i: int| 0 <= i < r@.len() ==> #[trigger] r@[i]@ == date_text_of(self.axis()[i]),
    {
        let mut r: Vec<String> = Vec::new();
        let mut i: usize = 0;
        while i < self.dates.len()
            invariant
                i <= self.dates@.len(),
                r@.len() == i,
                forall|k: int| 0 <= k < i ==> #[trigger] r@[k]@ == date_text_of(self.dates@[k]),
            decreases self.dates@.len() - i,
        {
            r.push(date_text(self.dates[i]));
            i = i + 1;
        }
        r
    }

    /// The number of dates on the axis.
    pub fn dates_count(&self) -> (n: usize)
        ensures
            n == self.axis().len(),
    {
        self.dates.len()
    }

    /// The text of `dates.json` for the axis.
    ///
    /// The text is the compact JSON array of the axis's `YYYYMMDD` texts, and
    /// reading it back gives the axis again.
    pub fn dates_json(&self) -> (r: String)
        ensures
            r@ == json_of_string_array(Seq::new(self.axis().len(), |i: int| date_text_of(self.axis()[i]))),
            r@ == json_plain_array(Seq::new(self.axis().len(), |i: int| date_text_of(self.axis()[i]))),
            axis_of_json(r@) == Some(self.axis()),
    {
        proof {
            use_type_invariant(self);
        }
        let texts = self.get_existing_dates();
        let ghost views = Seq::new(self.axis().len(), |i: int| date_text_of(self.axis()[i]));
        assert(texts.deep_view() =~= views);
        assert forall|i: int| 0 <= i < texts@.len() implies all_digits(#[trigger] texts@[i]@) by {
            lemma_padded_digits(self.axis()[i] as nat, 8);
        }
        let r = json_string_array(&texts);
        proof {
            let keys = Seq::new(views.len(), |i: int| date_key_of(views[i])->0);
            assert forall|i: int| 0 <= i < views.len() implies #[trigger] date_key_of(views[i]) == Some(self.axis()[i]) by {
                lemma_date_text_round_trip(self.axis()[i]);
            }
            assert(keys =~= self.axis());
        }
        r
    }

    /// Plans a batch from the file names of a COG directory. Only names of the
    /// form `snodas_snow_depth_YYYYMMDD.tif` count; with `append` the dates
    /// already on the axis are skipped, otherwise the store is rebuilt from
    /// the batch alone.
    ///
    /// Fails with `PreconditionViolation` when appending a date that does not
    /// sort after every date on the axis.
    pub fn plan_cogs(&self, file_names: &Vec<String>, append: bool) -> (r: Result<BuildPlan, ZarrError>)
        ensures
            match r {
                Ok(p) => {
                    &&& !precondition_violated(self.axis(), cog_dates(file_names@), append)
                    &&& planned(self.axis(), cog_dates(file_names@), append, p.dates.new_dates@, p.dates.combined@)
                    &&& p.step == array_step_for(self.axis(), append, p.dates.combined@)
                    &&& jobs_of(p.jobs@, file_names@, p.dates.new_dates@, p.dates.combined@)
                    &&& eight_digit_keys(p.dates.combined@)
                },
                Err(e) => e == ZarrError::PreconditionViolation && precondition_violated(
                    self.axis(),
                    cog_dates(file_names@),
                    append,
                ),
            },
    {
        proof {
            use_type_invariant(self);
        }
        // The date of each name, and the candidate dates in name order.
        let mut name_dates: Vec<Option<u32>> = Vec::new();
        let mut candidates: Vec<u32> = Vec::new();
        let mut i: usize = 0;
        while i < file_names.len()
            invariant
                i <= file_names@.len(),
                name_dates@.len() == i,
                forall|k: int| 0 <= k < i ==> #[trigger] name_dates@[k] == cog_date(file_names@[k]@),
                candidates@ == cog_dates(file_names@.subrange(0, i as int)),
            decreases file_names@.len() - i,
        {
            let d = cog_date_key(file_names[i].as_str());
            name_dates.push(d);
            proof {
                assert(file_names@.subrange(0, i + 1).drop_last() =~= file_names@.subrange(0, i as int));
            }
            match d {
                Some(v) => candidates.push(v),
                None => {},
            }
            i = i + 1;
        }
        assert(file_names@.subrange(0, file_names@.len() as int) =~= file_names@);
        let dp = plan_dates(&self.dates, &candidates, append)?;
        let step = if !append || self.dates.len() == 0 {
            ArrayStep::Create { time_len: dp.combined.len() as u64 }
        } else {
            ArrayStep::Extend { time_len: dp.combined.len() as u64 }
        };
        // New dates sit at the end of an appended axis, or make up a rebuilt one.
        let base: usize = if append && dp.new_dates.len() > 0 { self.dates.len() } else { 0 };
        proof {
            assert(base + dp.new_dates@.len() <= dp.combined@.len());
            assert forall|q: int| 0 <= q < dp.new_dates@.len() implies dp.combined@[base + q] == #[trigger] dp.new_dates@[q] by {
                if append {
                    assert(dp.combined@ == self.dates@ + dp.new_dates@);
                }
            }
        }
        proof {
            lemma_cog_dates_keys(file_names@);
            assert forall|q: int| 0 <= q < dp.new_dates@.len() implies #[trigger] dp.new_dates@[q] < 100_000_000 by {
                assert(dp.new_dates@.contains(dp.new_dates@[q]));
                assert(is_new_date(self.dates@, candidates@, append, dp.new_dates@[q]));
                let m = choose|m: int| 0 <= m < candidates@.len() && candidates@[m] == dp.new_dates@[q];
            }
            assert forall|q: int| 0 <= q < dp.combined@.len() implies #[trigger] dp.combined@[q] < 100_000_000 by {
                if append && q < self.dates@.len() {
                    assert(dp.combined@[q] == self.dates@[q]);
                } else if append {
                    assert(dp.combined@[q] == dp.new_dates@[q - self.dates@.len()]);
                } else {
                    assert(dp.combined@[q] == dp.new_dates@[q]);
                }
            }
        }
        let jobs = build_jobs(&name_dates, &dp.new_dates, base, dp.combined.len());
        proof {
            assert forall|j: int| 0 <= j < jobs@.len() implies {
                let job = #[trigger] jobs@[j];
                &&& job.file_index < file_names@.len()
                &&& cog_date(file_names@[job.file_index as int]@) == Some(job.date)
                &&& dp.new_dates@.contains(job.date)
                &&& job.time_index < dp.combined@.len()
                &&& dp.combined@[job.time_index as int] == job.date
            } by {
                let job = jobs@[j];
                assert(dp.new_dates@[job.time_index - base] == job.date);
                assert(dp.combined@[base + (job.time_index - base)] == dp.new_dates@[job.time_index - base]);
            }
            assert forall|m: int|
                0 <= m < file_names@.len() && (#[trigger] cog_date(file_names@[m]@)) is Some && dp.new_dates@.contains(
                    cog_date(file_names@[m]@)->0,
                ) implies has_job(jobs@, m) by {
                assert(name_dates@[m] == cog_date(file_names@[m]@));
            }
        }
        Ok(BuildPlan { dates: dp, step, jobs })
    }

    /// Advances the axis to the one a batch planned, once its chunks are
    /// stored. A plan whose axis is not strictly ascending, or holds a key of
    /// more than eight digits, is refused with `InvalidDates` and changes
    /// nothing; `plan_cogs` never makes one.
    pub fn commit_plan(&mut self, plan: &BuildPlan) -> (r: Result<(), ZarrError>)
        ensures
            r is Ok <==> ascending(plan.dates.combined@) && eight_digit_keys(plan.dates.combined@),
            r is Ok ==> final(self).axis() == plan.dates.combined@,
            r is Err ==> final(self).axis() == old(self).axis() && r == Err::<(), ZarrError>(ZarrError::InvalidDates),
            final(self).path() == old(self).path(),
    {
        if !is_ascending(&plan.dates.combined) || !has_eight_digit_keys(&plan.dates.combined) {
            return Err(ZarrError::InvalidDates);
        }
        let c = &plan.dates.combined;
        let mut d: Vec<u32> = Vec::new();
        let mut i: usize = 0;
        while i < c.len()
            invariant
                i <= c@.len(),
                d@ == c@.subrange(0, i as int),
                ascending(c@),
                eight_digit_keys(c@),
            decreases c@.len() - i,
        {
            d.push(c[i]);
            i = i + 1;
            assert(d@ =~= c@.subrange(0, i as int));
        }
        assert(d@ =~= c@);
        self.dates = d;
        Ok(())
    }
}

/// Whether every key of `v` has at most eight digits.
pub fn has_eight_digit_keys(v: &Vec<u32>) -> (b: bool)
    ensures
        b == eight_digit_keys(v@),
{
    let mut i: usize = 0;
    while i < v.len()
        invariant
            i <= v@.len(),
            forall|j: int| 0 <= j < i ==> v@[j] < 100_000_000,
        decreases v@.len() - i,
    {
        if v[i] >= 100_000_000 {
            return false;
        }
        i = i + 1;
    }
    true
}

/// The keys of an axis read from `dates.json` have at most eight digits.
proof fn lemma_axis_of_json_keys(text: Seq<char>)
    requires
        axis_of_json(text) is Some,
    ensures
        eight_digit_keys(axis_of_json(text)->0),
{
    let items = string_array_of_json(text)->0;
    assert forall|i: int| 0 <= i < items.len() implies #[trigger] (date_key_of(items[i])->0) < 100_000_000 by {
        lemma_date_key_bound(items[i]);
    }
}

/// Every date of a COG name has at most eight digits.
proof fn lemma_cog_dates_keys(names: Seq<String>)
    ensures
        eight_digit_keys(cog_dates(names)),
    decreases names.len(),
{
    if names.len() > 0 {
        lemma_cog_dates_keys(names.drop_last());
        if cog_date(names.last()@) is Some {
            lemma_cog_date_bound(names.last()@);
        }
    }
}

/// Whether `v` is strictly ascending.
pub fn is_ascending(v: &Vec<u32>) -> (b: bool)
    ensures
        b == ascending(v@),
{
    let mut i: usize = 1;
    while i < v.len()
        invariant
            1 <= i,
            i <= v@.len() || v@.len() == 0,
            forall|a: int, b: int| 0 <= a < b < i && b < v@.len() ==> v@[a] < v@[b],
        decreases v@.len() - i,
    {
        if v[i] <= v[i - 1] {
            assert(!ascending(v@)) by {
                assert(v@[i - 1] >= v@[i as int]);
            }
            return false;
        }
        proof {
            assert forall|a: int, b: int| 0 <= a < b < i + 1 && b < v@.len() implies v@[a] < v@[b] by {
                if b == i && a < i - 1 {
                    assert(v@[a] < v@[i - 1]);
                }
            }
        }
        i = i + 1;
    }
    true
}

/// The jobs of a batch: for each new date in order, each file of that date
/// in order, at axis position `base` plus the date's rank among the new dates.
fn build_jobs(name_dates: &Vec<Option<u32>>, new_dates: &Vec<u32>, base: usize, combined_len: usize) -> (jobs: Vec<CogJob>)
    requires
        base + new_dates@.len() <= combined_len,
        ascending(new_dates@),
    ensures
        forall|j: int|
            0 <= j < jobs@.len() ==> {
                let job = #[trigger] jobs@[j];
                &&& job.file_index < name_dates@.len()
                &&& name_dates@[job.file_index as int] == Some(job.date)
                &&& base <= job.time_index < base + new_dates@.len()
                &&& new_dates@[job.time_index - base] == job.date
                &&& new_dates@.contains(job.date)
            },
        forall|m: int|
            0 <= m < name_dates@.len() && name_dates@[m] is Some && new_dates@.contains(name_dates@[m]->0)
                ==> #[trigger] has_job(jobs@, m),
        forall|a: int, b: int| 0 <= a < b < jobs@.len() ==> job_before(#[trigger] jobs@[a], #[trigger] jobs@[b]),
{
    let mut jobs: Vec<CogJob> = Vec::new();
    let mut k: usize = 0;
    while k < new_dates.len()
        invariant
            k <= new_dates@.len(),
            base + new_dates@.len() <= combined_len,
            forall|j: int|
                0 <= j < jobs@.len() ==> {
                    let job = #[trigger] jobs@[j];
                    &&& job.file_index < name_dates@.len()
                    &&& name_dates@[job.file_index as int] == Some(job.date)
                    &&& base <= job.time_index < base + k
                    &&& new_dates@[job.time_index - base] == job.date
                    &&& new_dates@.contains(job.date)
                },
            forall|m: int|
                0 <= m < name_dates@.len() && name_dates@[m] is Some && new_dates@.subrange(0, k as int).contains(
                    name_dates@[m]->0,
                ) ==> #[trigger] has_job(jobs@, m),
            forall|a: int, b: int| 0 <= a < b < jobs@.len() ==> job_before(#[trigger] jobs@[a], #[trigger] jobs@[b]),
        decreases new_dates@.len() - k,
    {
        let d = new_dates[k];
        let t = base + k;
        let mut f: usize = 0;
        while f < name_dates.len()
            invariant
                k < new_dates@.len(),
                d == new_dates@[k as int],
                t == base + k,
                f <= name_dates@.len(),
                forall|j: int|
                    0 <= j < jobs@.len() ==> {
                        let job = #[trigger] jobs@[j];
                        &&& job.file_index < name_dates@.len()
                        &&& name_dates@[job.file_index as int] == Some(job.date)
                        &&& base <= job.time_index <= t
                        &&& (job.time_index == t ==> job.file_index < f)
                        &&& new_dates@[job.time_index - base] == job.date
                        &&& new_dates@.contains(job.date)
                    },
                forall|m: int|
                    0 <= m < name_dates@.len() && name_dates@[m] is Some && new_dates@.subrange(0, k as int).contains(
                        name_dates@[m]->0,
                    ) ==> #[trigger] has_job(jobs@, m),
                forall|m: int| 0 <= m < f && name_dates@[m] == Some(d) ==> #[trigger] has_job(jobs@, m),
                forall|a: int, b: int| 0 <= a < b < jobs@.len() ==> job_before(#[trigger] jobs@[a], #[trigger] jobs@[b]),
            decreases name_dates@.len() - f,
        {
            if name_dates[f] == Some(d) {
                let ghost prev = jobs@;
                let job = CogJob { file_index: f, date: d, time_index: t };
                jobs.push(job);
                proof {
                    assert(new_dates@.contains(d));
                    assert forall|m: int| has_job(prev, m) implies #[trigger] has_job(jobs@, m) by {
                        lemma_has_job_push(prev, job, m);
                    }
                    lemma_has_job_push(prev, job, f as int);
                }
            }
            f = f + 1;
        }
        proof {
            assert forall|m: int|
                0 <= m < name_dates@.len() && name_dates@[m] is Some && new_dates@.subrange(0, k + 1).contains(
                    name_dates@[m]->0,
                ) implies #[trigger] has_job(jobs@, m) by {
                let x = name_dates@[m]->0;
                let sub = new_dates@.subrange(0, k + 1);
                let q = choose|q: int| 0 <= q < sub.len() && #[trigger] sub[q] == x;
                if q < k {
                    assert(new_dates@.subrange(0, k as int)[q] == x);
                }
            }
        }
        k = k + 1;
    }
    assert(new_dates@.subrange(0, new_dates@.len() as int) =~= new_dates@);
    jobs
}

/// Reads the axis from a `dates.json` text.
pub fn decode_axis(text: &str) -> (r: Option<Vec<u32>>)
    ensures
        match r {
            Some(v) => axis_of_json(text@) == Some(v@),
            None => axis_of_json(text@) is None,
        },
{
    let items = match parse_json_string_array(text) {
        Some(v) => v,
        None => return None,
    };
    let ghost views = items.deep_view();
    let mut keys: Vec<u32> = Vec::new();
    let mut i: usize = 0;
    while i < items.len()
        invariant
            views == items.deep_view(),
            string_array_of_json(text@) == Some(views),
            i <= items@.len(),
            keys@.len() == i,
            forall|k: int| 0 <= k < i ==> #[trigger] date_key_of(views[k]) == Some(keys@[k]),
            ascending(keys@),
        decreases items@.len() - i,
    {
        assert(views[i as int] == items@[i as int]@);
        let key = match parse_date_text(items[i].as_str()) {
            Some(k) => k,
            None => {
                proof {
                    assert(date_key_of(views[i as int]) is None);
                    assert(string_array_of_json(text@) == Some(views));
                    assert(!(forall|k: int| 0 <= k < views.len() ==> #[trigger] date_key_of(views[k]) is Some));
                }
                return None;
            },
        };
        if i > 0 && key <= keys[i - 1] {
            proof {
                let ks = Seq::new(views.len(), |k: int| date_key_of(views[k])->0);
                assert(ks[i - 1] == keys@[i - 1]);
                assert(ks[i as int] == key);
                assert(!ascending(ks));
                assert(string_array_of_json(text@) == Some(views));
            }
            return None;
        }
        keys.push(key);
        i = i + 1;
    }
    proof {
        let ks = Seq::new(views.len(), |k: int| date_key_of(views[k])->0);
        assert(ks =~= keys@);
    }
    Some(keys)
}

/// Shape coherence: after its array step, a batch leaves the array exactly as
/// long as its new axis, when the array was as long as the old axis.
pub proof fn lemma_shape_coherent(
    existing: Seq<u32>,
    candidates: Seq<u32>,
    append: bool,
    new_dates: Seq<u32>,
    combined: Seq<u32>,
)
    requires
        planned(existing, candidates, append, new_dates, combined),
        combined.len() <= u64::MAX,
    ensures
        time_len_after(array_step_for(existing, append, combined), existing.len() as int) == combined.len(),
{
}

} // verus!
