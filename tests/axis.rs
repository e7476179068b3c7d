use snodas_pipeline::axis::{
    affected_time_chunks, chunk_prefix, cog_date_key, date_text, extract_date_from_filename, parse_date_text, plan_dates,
    sorted_unique, ZarrError,
};
use snodas_pipeline::axis::DatePlan;
use snodas_pipeline::zarr_builder::{grown_shape, is_ascending, ArrayStep, BuildPlan, ZarrBuilder};

#[test]
fn test_date_extraction() {
    let date = extract_date_from_filename("snodas_snow_depth_20231201.tif");
    assert_eq!(date, Some("20231201".to_string()));
}

#[test]
fn cog_names_must_be_strict() {
    assert_eq!(cog_date_key("snodas_snow_depth_20231201.tif"), Some(20231201));
    assert_eq!(cog_date_key("snodas_swe_20231201.tif"), None);
    assert_eq!(cog_date_key("snodas_snow_depth_2023120.tif"), None);
    assert_eq!(cog_date_key("snodas_snow_depth_2023120x.tif"), None);
    assert_eq!(cog_date_key("snodas_snow_depth_20231201.tiff"), None);
    assert_eq!(extract_date_from_filename("snodas_snow_depth_20231201.tif.bak"), None);
}

#[test]
fn date_texts() {
    assert_eq!(date_text(20231201), "20231201");
    assert_eq!(date_text(1010101), "01010101");
    assert_eq!(parse_date_text("20240101"), Some(20240101));
    assert_eq!(parse_date_text("2024011"), None);
    assert_eq!(parse_date_text("2024O101"), None);
}

#[test]
fn sorted_unique_sorts_and_dedups() {
    assert_eq!(sorted_unique(&vec![20231203, 20231201, 20231203, 20231202]), vec![20231201, 20231202, 20231203]);
    assert!(sorted_unique(&vec![]).is_empty());
}

#[test]
fn rebuild_sorts_candidates() {
    let p = plan_dates(&vec![20220101], &vec![20231202, 20231201, 20231202], false).unwrap();
    assert_eq!(p.new_dates, vec![20231201, 20231202]);
    assert_eq!(p.combined, vec![20231201, 20231202]);
}

#[test]
fn append_later_date_extends_axis() {
    let p = plan_dates(&vec![20231201], &vec![20231201, 20231202], true).unwrap();
    assert_eq!(p.new_dates, vec![20231202]);
    assert_eq!(p.combined, vec![20231201, 20231202]);
}

#[test]
fn append_earlier_date_is_precondition_violation() {
    let r = plan_dates(&vec![20231201], &vec![20231130], true);
    assert!(matches!(r, Err(ZarrError::PreconditionViolation)));
}

#[test]
fn append_nothing_new_keeps_axis() {
    let p = plan_dates(&vec![20231201, 20231202], &vec![20231202, 20231201], true).unwrap();
    assert!(p.new_dates.is_empty());
    assert_eq!(p.combined, vec![20231201, 20231202]);
}

fn days_2023(from_month: u32, to_month: u32) -> Vec<u32> {
    let lengths = [31, 28, 31, 30, 31, 30, 31, 31, 30, 31, 30, 31];
    let mut out = Vec::new();
    for m in from_month..=to_month {
        for d in 1..=lengths[(m - 1) as usize] {
            out.push(20230000 + m * 100 + d);
        }
    }
    out
}

#[test]
fn remote_append_touches_only_chunk_zero() {
    let existing = days_2023(1, 7);
    assert_eq!(existing.len(), 212);
    let added = days_2023(8, 12);
    let p = plan_dates(&existing, &added, true).unwrap();
    assert_eq!(p.combined.len(), 365);
    assert_eq!(p.combined[364], 20231231);
    let chunks = affected_time_chunks(&p.combined, &p.new_dates);
    assert_eq!(chunks, vec![0]);
    assert_eq!(chunk_prefix(chunks[0]), "snow_depth/c/0/");
}

#[test]
fn append_across_boundary_touches_two_chunks() {
    let existing = days_2023(1, 12);
    let p = plan_dates(&existing, &vec![20240101, 20240102], true).unwrap();
    assert_eq!(affected_time_chunks(&p.combined, &p.new_dates), vec![1]);
    let mut late = existing.clone();
    late.truncate(360);
    let p2 = plan_dates(&late, &vec![20231227, 20231228, 20231229, 20231230, 20231231, 20240101], true).unwrap();
    assert_eq!(affected_time_chunks(&p2.combined, &p2.new_dates), vec![0, 1]);
    assert_eq!(chunk_prefix(12), "snow_depth/c/12/");
}

fn names(list: &[&str]) -> Vec<String> {
    list.iter().map(|s| s.to_string()).collect()
}

#[test]
fn fresh_build_plan() {
    let b = ZarrBuilder::new("out");
    let files = names(&["snodas_snow_depth_20231201.tif", "snodas_swe_20231201.tif", "notes.txt"]);
    let plan = b.plan_cogs(&files, false).unwrap();
    assert_eq!(plan.dates.combined, vec![20231201]);
    assert_eq!(plan.step, ArrayStep::Create { time_len: 1 });
    assert_eq!(plan.jobs.len(), 1);
    assert_eq!(plan.jobs[0].file_index, 0);
    assert_eq!(plan.jobs[0].time_index, 0);
}

#[test]
fn append_plan_and_commit() {
    let mut b = ZarrBuilder::load_existing("out", Some("[\"20231201\"]")).unwrap();
    assert_eq!(b.dates_count(), 1);
    let files = names(&["snodas_snow_depth_20231202.tif", "snodas_snow_depth_20231201.tif"]);
    let plan = b.plan_cogs(&files, true).unwrap();
    assert_eq!(plan.step, ArrayStep::Extend { time_len: 2 });
    assert_eq!(plan.jobs.len(), 1);
    assert_eq!(plan.jobs[0].file_index, 0);
    assert_eq!(plan.jobs[0].time_index, 1);
    b.commit_plan(&plan).unwrap();
    assert_eq!(b.get_existing_dates(), vec!["20231201".to_string(), "20231202".to_string()]);
    assert_eq!(b.dates_json(), "[\"20231201\",\"20231202\"]");
    // a second run of the same batch finds nothing to do
    let again = b.plan_cogs(&files, true).unwrap();
    assert!(again.dates.new_dates.is_empty());
    assert!(again.jobs.is_empty());
    assert_eq!(again.dates.combined, vec![20231201, 20231202]);
}

#[test]
fn append_plan_rejects_earlier_date() {
    let b = ZarrBuilder::load_existing("out", Some("[\"20231201\"]")).unwrap();
    let files = names(&["snodas_snow_depth_20231130.tif"]);
    assert!(matches!(b.plan_cogs(&files, true), Err(ZarrError::PreconditionViolation)));
    assert_eq!(b.get_existing_dates(), vec!["20231201".to_string()]);
}

#[test]
fn load_existing_validates_axis() {
    let none = ZarrBuilder::load_existing("out", None).unwrap();
    assert_eq!(none.dates_count(), 0);
    assert_eq!(none.output_path(), "out");
    assert!(matches!(ZarrBuilder::load_existing("out", Some("not json")), Err(ZarrError::InvalidDates)));
    assert!(matches!(ZarrBuilder::load_existing("out", Some("[\"20231202\",\"20231201\"]")), Err(ZarrError::InvalidDates)));
    assert!(matches!(ZarrBuilder::load_existing("out", Some("[\"2023-12-01\"]")), Err(ZarrError::InvalidDates)));
    let ok = ZarrBuilder::load_existing("out", Some("[\"20231201\", \"20231205\"]")).unwrap();
    assert_eq!(ok.date_keys(), &vec![20231201, 20231205]);
}

#[test]
fn empty_axis_json() {
    assert_eq!(ZarrBuilder::new("out").dates_json(), "[]");
}

#[test]
fn array_growth() {
    assert_eq!(grown_shape(&vec![1, 3351, 6935], 2), Some(vec![2, 3351, 6935]));
    assert_eq!(grown_shape(&vec![2, 3351, 6935], 2), None);
    assert_eq!(grown_shape(&vec![5, 3351, 6935], 2), None);
}

#[test]
fn commit_refuses_unordered_axis() {
    let mut b = ZarrBuilder::load_existing("out", Some("[\"20231201\"]")).unwrap();
    let plan = BuildPlan {
        dates: DatePlan { new_dates: vec![20231130], combined: vec![20231201, 20231130] },
        step: ArrayStep::Extend { time_len: 2 },
        jobs: vec![],
    };
    assert!(matches!(b.commit_plan(&plan), Err(ZarrError::InvalidDates)));
    assert_eq!(b.date_keys(), &vec![20231201]);
    assert!(is_ascending(&vec![1, 2, 5]));
    assert!(!is_ascending(&vec![1, 1]));
    assert!(is_ascending(&vec![]));
}

#[test]
fn rebuild_from_empty_batch_empties_axis() {
    let b = ZarrBuilder::load_existing("out", Some("[\"20231201\",\"20231202\"]")).unwrap();
    let plan = b.plan_cogs(&names(&["notes.txt"]), false).unwrap();
    assert!(plan.dates.new_dates.is_empty());
    assert!(plan.dates.combined.is_empty());
    assert_eq!(plan.step, ArrayStep::Create { time_len: 0 });
    let mut b2 = b;
    b2.commit_plan(&plan).unwrap();
    assert_eq!(b2.dates_count(), 0);
    assert_eq!(b2.dates_json(), "[]");
    let p = plan_dates(&vec![20231201], &vec![], false).unwrap();
    assert!(p.combined.is_empty());
}

#[test]
fn dates_json_reads_back() {
    let b = ZarrBuilder::load_existing("out", Some("[\"20231201\",\"20231202\"]")).unwrap();
    let text = b.dates_json();
    assert_eq!(text, "[\"20231201\",\"20231202\"]");
    let again = ZarrBuilder::load_existing("out", Some(&text)).unwrap();
    assert_eq!(again.date_keys(), b.date_keys());
}

#[test]
fn commit_refuses_keys_beyond_eight_digits() {
    let mut b = ZarrBuilder::new("out");
    let plan = BuildPlan {
        dates: DatePlan { new_dates: vec![100_000_000], combined: vec![100_000_000] },
        step: ArrayStep::Create { time_len: 1 },
        jobs: vec![],
    };
    assert!(matches!(b.commit_plan(&plan), Err(ZarrError::InvalidDates)));
    assert_eq!(b.dates_count(), 0);
}
