use rustytree::error::RustytreeError;
use rustytree::store::s3_url;
use rustytree::url::{parse_store_spec, StoreSpec};

fn unwrap_local(spec: StoreSpec) -> String {
    match spec {
        StoreSpec::Local(path) => path,
        spec @ StoreSpec::S3 { .. } => panic!("expected Local, got {spec:?}"),
    }
}

fn unwrap_s3(spec: StoreSpec) -> (String, String) {
    match spec {
        StoreSpec::S3 { bucket, prefix } => (bucket, prefix),
        spec @ StoreSpec::Local(_) => panic!("expected S3, got {spec:?}"),
    }
}

#[test]
fn bare_path_is_local() {
    let spec = parse_store_spec("/data/store.zarr").expect("parse ok");
    assert_eq!(unwrap_local(spec), "/data/store.zarr");
}

#[test]
fn relative_path_is_local() {
    let spec = parse_store_spec("relative/store").expect("parse ok");
    assert_eq!(unwrap_local(spec), "relative/store");
}

#[test]
fn file_url_is_local() {
    let spec = parse_store_spec("file:///data/store.zarr").expect("parse ok");
    assert_eq!(unwrap_local(spec), "/data/store.zarr");
}

#[test]
fn s3_url_with_prefix() {
    let spec = parse_store_spec("s3://my-bucket/path/to/store.zarr").expect("parse ok");
    let (bucket, prefix) = unwrap_s3(spec);
    assert_eq!(bucket, "my-bucket");
    assert_eq!(prefix, "path/to/store.zarr");
}

#[test]
fn s3_url_no_prefix() {
    let spec = parse_store_spec("s3://my-bucket").expect("parse ok");
    let (bucket, prefix) = unwrap_s3(spec);
    assert_eq!(bucket, "my-bucket");
    assert_eq!(prefix, "");
}

#[test]
fn s3_url_trailing_slash_normalised() {
    let spec = parse_store_spec("s3://my-bucket/").expect("parse ok");
    let (bucket, prefix) = unwrap_s3(spec);
    assert_eq!(bucket, "my-bucket");
    assert_eq!(prefix, "");
}

#[test]
fn s3_url_with_leading_and_trailing_slashes_in_prefix() {
    let spec = parse_store_spec("s3://b//p/").expect("parse ok");
    let (bucket, prefix) = unwrap_s3(spec);
    assert_eq!(bucket, "b");
    assert_eq!(prefix, "p");
}

#[test]
fn s3_url_without_bucket_rejected() {
    let err = parse_store_spec("s3:///orphan-prefix").expect_err("missing bucket");
    assert!(
        matches!(err, RustytreeError::InvalidInput(_)),
        "got {err:?}"
    );
}

#[test]
fn unsupported_scheme_rejected() {
    let err = parse_store_spec("gs://bucket/store.zarr").expect_err("gs not supported yet");
    let msg = err.message();
    assert!(msg.contains("gs"), "{msg}");
    assert!(msg.contains("supports"), "{msg}");
}

#[test]
fn refusals_say_what_is_wrong() {
    let err = parse_store_spec("gs://bucket/store.zarr").expect_err("refused");
    assert_eq!(
        err.message(),
        "invalid input: unsupported URL scheme `gs://` in gs://bucket/store.zarr; \
         rustytree currently supports `file://` and `s3://` only"
    );
    let err = parse_store_spec("s3:///orphan-prefix").expect_err("refused");
    assert_eq!(
        err.message(),
        "invalid input: s3 URL is missing a bucket name: s3:///orphan-prefix"
    );
}

#[test]
fn the_url_of_a_bucket_and_prefix_is_read_back() {
    for (bucket, prefix) in [("b", ""), ("my-bucket", "p"), ("x", "a/b//c")] {
        let spec = parse_store_spec(&s3_url(bucket, prefix)).expect("parse ok");
        assert_eq!(unwrap_s3(spec), (bucket.to_string(), prefix.to_string()));
    }
}
