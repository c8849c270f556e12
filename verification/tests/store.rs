use rustytree::error::{FailureKind, PyException, RustytreeError};
use rustytree::store::{
    apply_s3_option, local_store, open_error, plan_open, reopen_error, s3_settings, s3_url,
    LocalStore, OpenStep, S3Setting,
};
use rustytree::url::StoreSpec;

fn options(pairs: &[(&str, &str)]) -> Vec<(String, String)> {
    pairs.iter().map(|(k, v)| (k.to_string(), v.to_string())).collect()
}

#[test]
fn local_directories_are_told_apart() {
    match local_store(true, true, None) {
        LocalStore::Icechunk { branch } => assert_eq!(branch, "main"),
        LocalStore::Vanilla => panic!("expected icechunk"),
    }
    match local_store(true, true, Some("dev")) {
        LocalStore::Icechunk { branch } => assert_eq!(branch, "dev"),
        LocalStore::Vanilla => panic!("expected icechunk"),
    }
    assert!(matches!(local_store(true, false, Some("dev")), LocalStore::Vanilla));
    assert!(matches!(local_store(false, true, None), LocalStore::Vanilla));
}

#[test]
fn urls_name_bucket_and_prefix() {
    assert_eq!(s3_url("b", ""), "s3://b");
    assert_eq!(s3_url("b", "p/q"), "s3://b/p/q");
}

#[test]
fn each_option_makes_its_setting() {
    assert!(matches!(apply_s3_option("region", "r"), Ok(S3Setting::Region(v)) if v == "r"));
    assert!(matches!(apply_s3_option("endpoint", "e"), Ok(S3Setting::Endpoint(v)) if v == "e"));
    assert!(
        matches!(apply_s3_option("access_key_id", "a"), Ok(S3Setting::AccessKeyId(v)) if v == "a")
    );
    assert!(matches!(
        apply_s3_option("secret_access_key", "s"),
        Ok(S3Setting::SecretAccessKey(v)) if v == "s"
    ));
    assert!(
        matches!(apply_s3_option("session_token", "t"), Ok(S3Setting::SessionToken(v)) if v == "t")
    );
}

#[test]
fn truth_values_have_four_spellings_each() {
    for value in ["true", "True", "1", "yes"] {
        for key in ["skip_signature", "anon"] {
            assert!(matches!(apply_s3_option(key, value), Ok(S3Setting::SkipSignature(true))));
        }
        assert!(matches!(apply_s3_option("allow_http", value), Ok(S3Setting::AllowHttp(true))));
    }
    for value in ["false", "False", "0", "no"] {
        for key in ["skip_signature", "anon"] {
            assert!(matches!(apply_s3_option(key, value), Ok(S3Setting::SkipSignature(false))));
        }
        assert!(matches!(apply_s3_option("allow_http", value), Ok(S3Setting::AllowHttp(false))));
    }
}

#[test]
fn other_truth_values_are_refused() {
    let err = apply_s3_option("anon", "may\"be").expect_err("refused");
    assert!(matches!(err, RustytreeError::InvalidInput(_)));
    assert_eq!(
        err.message(),
        "invalid input: s3 storage option `anon` expects a boolean, got \"may\\\"be\""
    );
}

#[test]
fn unknown_options_are_refused() {
    let err = apply_s3_option("regoin", "r").expect_err("refused");
    assert!(matches!(err, RustytreeError::InvalidInput(_)));
    assert_eq!(err.message(), "invalid input: unknown s3 storage option: `regoin`");
}

#[test]
fn settings_come_in_the_order_of_the_options() {
    let settings = s3_settings(&options(&[("region", "r"), ("anon", "True")])).expect("taken");
    assert_eq!(settings.len(), 2);
    assert!(matches!(&settings[0], S3Setting::Region(v) if v == "r"));
    assert!(matches!(settings[1], S3Setting::SkipSignature(true)));
    let err = s3_settings(&options(&[("region", "r"), ("x", "1"), ("y", "2")])).expect_err("x");
    assert_eq!(err.message(), "invalid input: unknown s3 storage option: `x`");
    assert!(s3_settings(&Vec::new()).expect("none").is_empty());
}

#[test]
fn opening_a_local_path_passes_options_over() {
    let plan = plan_open("/data", None, &options(&[("x", "1")])).expect("plan");
    assert_eq!(plan.store, StoreSpec::Local("/data".to_string()));
    assert!(plan.settings.is_empty());
    assert_eq!(plan.group_path, "/");
}

#[test]
fn opening_an_s3_url_takes_options() {
    let plan = plan_open("s3://b/p", Some("/g"), &options(&[("anon", "1")])).expect("plan");
    assert_eq!(
        plan.store,
        StoreSpec::S3 { bucket: "b".to_string(), prefix: "p".to_string() }
    );
    assert_eq!(plan.settings.len(), 1);
    assert_eq!(plan.group_path, "/g");
    let err = plan_open("s3://b/p", None, &options(&[("x", "1")])).expect_err("refused");
    assert_eq!(err.message(), "invalid input: unknown s3 storage option: `x`");
    let err = plan_open("gs://b/p", None, &options(&[("x", "1")])).expect_err("refused");
    assert!(err.message().contains("unsupported URL scheme `gs://`"));
}

#[test]
fn failures_to_open_name_place_and_cause() {
    for (step, expected) in [
        (
            OpenStep::IcechunkStorage,
            "icechunk: failed to open local-filesystem storage at /r: why",
        ),
        (OpenStep::IcechunkRepository, "icechunk: failed to open repository at /r: why"),
        (
            OpenStep::IcechunkBranch,
            "icechunk: failed to open readonly session on branch dev at /r: why",
        ),
        (OpenStep::S3Client, "failed to build S3 store for /r: why"),
        (OpenStep::LocalDirectory, "failed to open local filesystem at /r: why"),
    ] {
        let err = open_error(step, FailureKind::Other, "/r", "dev", "why");
        assert_eq!(err.py_exception(), PyException::RuntimeError);
        assert_eq!(err.message(), expected);
        let err = open_error(step, FailureKind::Storage, "/r", "dev", "why");
        assert_eq!(err.py_exception(), PyException::OsError);
        assert_eq!(err.message(), format!("I/O error: {expected}"));
        let err = open_error(step, FailureKind::Missing, "/r", "dev", "why");
        assert_eq!(err.message(), "not found: /r");
    }
    assert_eq!(
        reopen_error("/a\n", "why").message(),
        "rustytree: failed to reopen array \"/a\\n\" on worker: why"
    );
}
