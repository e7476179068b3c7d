use snodas_pipeline::download::{retry_step, RetryStep, MAX_RETRIES};
use snodas_pipeline::storage::{content_type_for, object_key, s3_url, OutputDestination};

#[test]
fn destinations() {
    match OutputDestination::from_str("s3://bucket/some/prefix") {
        OutputDestination::S3 { bucket, prefix } => {
            assert_eq!(bucket, "bucket");
            assert_eq!(prefix, "some/prefix");
        }
        OutputDestination::Local(_) => panic!("expected a remote destination"),
    }
    match OutputDestination::from_str("r2://snow") {
        OutputDestination::S3 { bucket, prefix } => {
            assert_eq!(bucket, "snow");
            assert_eq!(prefix, "");
        }
        OutputDestination::Local(_) => panic!("expected a remote destination"),
    }
    match OutputDestination::from_str("./output") {
        OutputDestination::Local(p) => assert_eq!(p, "./output"),
        OutputDestination::S3 { .. } => panic!("expected a local destination"),
    }
}

#[test]
fn key_joining() {
    assert_eq!(object_key("", "dates.json"), "dates.json");
    assert_eq!(object_key("zarr", "dates.json"), "zarr/dates.json");
    assert_eq!(object_key("zarr//", "snow_depth/c/0/3/7"), "zarr/snow_depth/c/0/3/7");
    assert_eq!(s3_url("b", "k/x.tif"), "s3://b/k/x.tif");
}

#[test]
fn content_types() {
    assert_eq!(content_type_for("snow_depth/zarr.json"), "application/json");
    assert_eq!(content_type_for("snow_depth/c/0/3/7"), "application/octet-stream");
}

#[test]
fn retries_back_off_exponentially() {
    assert_eq!(retry_step(0, MAX_RETRIES, true), RetryStep::Done);
    assert_eq!(retry_step(0, MAX_RETRIES, false), RetryStep::Retry { attempt: 1, delay_secs: 2 });
    assert_eq!(retry_step(1, MAX_RETRIES, false), RetryStep::Retry { attempt: 2, delay_secs: 4 });
    assert_eq!(retry_step(2, MAX_RETRIES, false), RetryStep::GiveUp);
}
