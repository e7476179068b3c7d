use snodas_pipeline::calendar::{generate_date_range, CalendarDate};
use snodas_pipeline::convert::{envi_file_name, BatchConverter};
use snodas_pipeline::snodas::{
    bbox_post_2013, bbox_pre_2013, build_nsidc_url, BBOX_UNITS_PER_DEGREE, get_bbox_for_date, parse_product_ids, ProductId, SnodasFile,
};

fn date(year: i32, month: u32, day: u32) -> CalendarDate {
    CalendarDate::from_ymd_opt(year, month, day).unwrap()
}

#[test]
fn test_product_filter() {
    let filter = vec![ProductId::Swe, ProductId::SnowDepth];
    assert!(filter.contains(&ProductId::Swe));
    assert!(!filter.contains(&ProductId::Precipitation));
}

#[test]
fn test_parse_filename() {
    let filename = "us_ssmv11034tS__T0001TTNATS2023120105HP001.dat.gz";
    let parsed = SnodasFile::parse_filename(filename).unwrap();
    assert_eq!(parsed.product_id, ProductId::Swe);
    assert_eq!(parsed.date, date(2023, 12, 1));
}

#[test]
fn parse_filename_observed_fields() {
    let parsed = SnodasFile::parse_filename("us_ssmv11034tS__T0001TTNATS2023120105HP001.dat.gz").unwrap();
    assert_eq!(parsed.hour, 5);
    assert!(!parsed.is_model);
    assert_eq!(parsed.filename, "us_ssmv11034tS__T0001TTNATS2023120105HP001.dat.gz");
}

#[test]
fn parse_filename_modelled_snow_depth() {
    let parsed = SnodasFile::parse_filename("us_ssmv01036SlL01T0024TTNATS2024010105DP001.dat.gz").unwrap();
    assert_eq!(parsed.product_id, ProductId::SnowDepth);
    assert_eq!(parsed.date, date(2024, 1, 1));
    assert_eq!(parsed.hour, 5);
    assert!(parsed.is_model);
}

#[test]
fn parse_filename_plain_dat() {
    let parsed = SnodasFile::parse_filename("us_ssmv11036tS__T0001TTNATS2023120105HP001.dat").unwrap();
    assert_eq!(parsed.product_id, ProductId::SnowDepth);
}

#[test]
fn parse_filename_rejects_deviations() {
    // wrong extension, wrong region, unknown product, no stamp, bad date, short stamp
    assert!(SnodasFile::parse_filename("us_ssmv11034tS__T0001TTNATS2023120105HP001.txt").is_none());
    assert!(SnodasFile::parse_filename("zz_ssmv11034tS__T0001TTNATS2023120105HP001.dat.gz").is_none());
    assert!(SnodasFile::parse_filename("us_ssmv11099tS__T0001TTNATS2023120105HP001.dat.gz").is_none());
    assert!(SnodasFile::parse_filename("us_ssmv11034tS__T0001XXNATS2023120105HP001.dat.gz").is_none());
    assert!(SnodasFile::parse_filename("us_ssmv11034tS__T0001TTNATS2023023005HP001.dat.gz").is_none());
    assert!(SnodasFile::parse_filename("us_ssmv11034tS__T0001TTNATS20231201.dat.gz").is_none());
    assert!(SnodasFile::parse_filename("us_ssmvtS__T0001TTNATS2023120105HP001.dat.gz").is_none());
    assert!(SnodasFile::parse_filename("usssmv11034TTNATS2023120105HP001.dat.gz").is_none());
}

#[test]
fn output_filename_of_payload() {
    let parsed = SnodasFile::parse_filename("us_ssmv11036tS__T0001TTNATS2023120105HP001.dat.gz").unwrap();
    assert_eq!(parsed.output_filename(), "snodas_snow_depth_20231201.tif");
}

#[test]
fn test_bbox_selection() {
    let pre = date(2013, 9, 30);
    let post = date(2013, 10, 1);

    let bbox_pre = get_bbox_for_date(pre);
    let bbox_post = get_bbox_for_date(post);

    // edges are in 1/600000 degree: 0.0001 degree is 60 units
    assert!((bbox_pre.west - bbox_pre_2013().west).abs() < 60);
    assert!((bbox_post.west - bbox_post_2013().west).abs() < 60);
}

#[test]
fn bbox_west_edges_exact() {
    assert_eq!(get_bbox_for_date(date(2013, 9, 30)).west, -74_840_250);
    assert_eq!(get_bbox_for_date(date(2013, 10, 1)).west, -74_840_000);
    assert_eq!(get_bbox_for_date(date(2024, 1, 1)).north, 31_725_000);
    assert_eq!(get_bbox_for_date(date(2003, 1, 1)).south, 14_969_748);
    let per = BBOX_UNITS_PER_DEGREE as f64;
    assert_eq!(get_bbox_for_date(date(2013, 9, 30)).west as f64 / per, -124.73375);
    assert!((get_bbox_for_date(date(2013, 10, 1)).west as f64 / per - -124.733_333_333_333_33).abs() < 1e-12);
    assert!((get_bbox_for_date(date(2013, 10, 1)).east as f64 / per - -66.941_666_666_666_66).abs() < 1e-12);
}

#[test]
fn test_build_url() {
    let url = build_nsidc_url(date(2023, 12, 15));
    assert!(url.contains("2023"));
    assert!(url.contains("12_Dec"));
    assert!(url.contains("SNODAS_20231215.tar"));
    assert_eq!(url, "https://noaadata.apps.nsidc.org/NOAA/G02158/masked/2023/12_Dec/SNODAS_20231215.tar");
}

#[test]
fn test_generate_date_range() {
    let dates = generate_date_range(date(2023, 12, 1), date(2023, 12, 5));
    assert_eq!(dates.len(), 5);
}

#[test]
fn date_range_crosses_year_and_leap_day() {
    let dates = generate_date_range(date(2023, 12, 30), date(2024, 1, 2));
    assert_eq!(dates, vec![date(2023, 12, 30), date(2023, 12, 31), date(2024, 1, 1), date(2024, 1, 2)]);
    let leap = generate_date_range(date(2024, 2, 28), date(2024, 3, 1));
    assert_eq!(leap, vec![date(2024, 2, 28), date(2024, 2, 29), date(2024, 3, 1)]);
    assert!(generate_date_range(date(2024, 1, 2), date(2024, 1, 1)).is_empty());
}

#[test]
fn calendar_rejects_invalid_days() {
    assert!(CalendarDate::from_ymd_opt(2023, 2, 29).is_none());
    assert!(CalendarDate::from_ymd_opt(2024, 2, 29).is_some());
    assert!(CalendarDate::from_ymd_opt(2023, 13, 1).is_none());
    assert!(CalendarDate::from_ymd_opt(2023, 4, 31).is_none());
}

#[test]
fn product_codes_and_names() {
    assert_eq!(ProductId::from_code(1034), Some(ProductId::Swe));
    assert_eq!(ProductId::from_code(1036), Some(ProductId::SnowDepth));
    assert_eq!(ProductId::from_code(1025), Some(ProductId::Precipitation));
    assert_eq!(ProductId::from_code(1000), None);
    assert_eq!(ProductId::SnowpackAverageTemp.code(), 1038);
    assert_eq!(ProductId::Sublimation.code(), 1050);
    assert_eq!(ProductId::SnowDepth.name(), "snow_depth");
    assert_eq!(ProductId::SnowpackAverageTemp.name(), "snowpack_avg_temp");
}

#[test]
fn product_list_parsing() {
    assert_eq!(parse_product_ids("1034,1036"), vec![ProductId::Swe, ProductId::SnowDepth]);
    assert_eq!(parse_product_ids(" 1036 ,\t1044"), vec![ProductId::SnowDepth, ProductId::SnowMeltRunoff]);
    assert_eq!(parse_product_ids("1034,abc,,9999,+1050"), vec![ProductId::Swe, ProductId::Sublimation]);
    assert!(parse_product_ids("").is_empty());
}

#[test]
fn converter_paths() {
    let c = BatchConverter::new("./output");
    assert_eq!(c.output_dir(), "./output");
    let f = SnodasFile::parse_filename("us_ssmv11034tS__T0001TTNATS2023120105HP001.dat.gz").unwrap();
    assert_eq!(c.output_path(&f), "./output/snodas_swe_20231201.tif");
    assert_eq!(envi_file_name(ProductId::SnowDepth, date(2023, 12, 1)), "snow_depth_20231201.dat");
}
