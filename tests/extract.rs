use snodas_pipeline::extract::{extract_tar, ExtractError};
use snodas_pipeline::snodas::ProductId;
use snodas_pipeline::storage::upload_order;
use snodas_pipeline::timeseries::{date_range, finalize_series, first_occurrences, should_sample, TimeSeriesEntry};
use std::io::Write;

fn gz(bytes: &[u8]) -> Vec<u8> {
    let mut e = flate2::write::GzEncoder::new(Vec::new(), flate2::Compression::default());
    e.write_all(bytes).unwrap();
    e.finish().unwrap()
}

fn tar_of(members: &[(&str, Vec<u8>)]) -> Vec<u8> {
    let mut b = tar::Builder::new(Vec::new());
    for (path, data) in members {
        let mut h = tar::Header::new_gnu();
        h.set_size(data.len() as u64);
        h.set_mode(0o644);
        h.set_cksum();
        b.append_data(&mut h, path, data.as_slice()).unwrap();
    }
    b.into_inner().unwrap()
}

const SWE: &str = "us_ssmv11034tS__T0001TTNATS2023120105HP001.dat.gz";
const DEPTH: &str = "us_ssmv11036tS__T0001TTNATS2023120105HP001.dat.gz";

#[test]
fn extracts_nested_payloads_with_filter() {
    let inner = tar_of(&[(SWE, gz(b"swe-bytes")), (DEPTH, gz(b"depth-bytes")), ("readme.txt", b"x".to_vec())]);
    let outer = tar_of(&[("SNODAS_20231201.tar", inner)]);
    let all = extract_tar(&outer, None).unwrap();
    assert_eq!(all.len(), 2);
    assert_eq!(all[0].snodas_file.product_id, ProductId::Swe);
    assert_eq!(all[0].data, b"swe-bytes".to_vec());
    assert_eq!(all[0].snodas_file.filename, "us_ssmv11034tS__T0001TTNATS2023120105HP001.dat");
    let filter = vec![ProductId::SnowDepth];
    let some = extract_tar(&outer, Some(&filter)).unwrap();
    assert_eq!(some.len(), 1);
    assert_eq!(some[0].snodas_file.product_id, ProductId::SnowDepth);
    assert_eq!(some[0].data, b"depth-bytes".to_vec());
}

#[test]
fn top_level_payloads_and_directories() {
    let outer = tar_of(&[("dir/sub/us_ssmv11036tS__T0001TTNATS2023120105HP001.dat.gz", gz(b"d")), ("notes.gz", gz(b"n"))]);
    let out = extract_tar(&outer, None).unwrap();
    assert_eq!(out.len(), 1);
    assert_eq!(out[0].snodas_file.filename, "us_ssmv11036tS__T0001TTNATS2023120105HP001.dat");
}

#[test]
fn extraction_errors() {
    assert_eq!(extract_tar(&b"not a tar archive at all".repeat(40), None).err(), Some(ExtractError::Archive));
    let bad = tar_of(&[(SWE, b"not gzip".to_vec())]);
    assert_eq!(extract_tar(&bad, None).err(), Some(ExtractError::Decompress));
    let filter = vec![ProductId::SnowDepth];
    assert_eq!(extract_tar(&bad, Some(&filter)).map(|v| v.len()), Ok(0));
}

#[test]
fn uploads_put_axis_last() {
    let keys: Vec<String> = ["dates.json", "zarr.json", "snow_depth/c/0/3/7", "snow_depth/zarr.json"]
        .iter()
        .map(|s| s.to_string())
        .collect();
    let ordered = upload_order(&keys);
    assert_eq!(ordered, vec!["zarr.json", "snow_depth/c/0/3/7", "snow_depth/zarr.json", "dates.json"]);
}

fn e(date: u32, value: i16) -> TimeSeriesEntry {
    TimeSeriesEntry { date, value }
}

#[test]
fn series_are_sorted_and_deduplicated() {
    let out = finalize_series(&vec![e(20231203, 3), e(20231201, 1), e(20231203, 9), e(20231202, 2)]);
    assert_eq!(out, vec![e(20231201, 1), e(20231202, 2), e(20231203, 3)]);
    assert!(finalize_series(&vec![]).is_empty());
}

#[test]
fn index_date_range() {
    let series = vec![vec![e(20231202, 1), e(20231205, 2)], vec![], vec![e(20231130, 4)]];
    assert_eq!(date_range(&series), Some((20231130, 20231205)));
    assert_eq!(date_range(&vec![vec![], vec![]]), None);
}

#[test]
fn sampling_skips_known_dates() {
    assert!(!should_sample(&vec![20231201], 20231201));
    assert!(should_sample(&vec![20231201], 20231202));
}

#[test]
fn duplicate_grid_ids_keep_first() {
    let ids: Vec<String> = ["40.5_-105.5", "40.5_-105.4", "40.5_-105.5"].iter().map(|s| s.to_string()).collect();
    assert_eq!(first_occurrences(&ids), vec![0, 1]);
}
