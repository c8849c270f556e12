use chrono::{DateTime, TimeDelta, Utc};
use rustytree::py_credentials::{
    azure_kind, credential_step, is_fresh, refresh_error, AzureKind, CredentialStep, Timestamp,
};

fn stamp(time: DateTime<Utc>) -> Timestamp {
    Timestamp { secs: time.timestamp(), nanos: time.timestamp_subsec_nanos() }
}

#[test]
fn fresh_when_no_expiry() {
    assert!(is_fresh(None, stamp(Utc::now())));
}

#[test]
fn stale_when_expired() {
    let past = Utc::now() - TimeDelta::hours(1);
    assert!(!is_fresh(Some(stamp(past)), stamp(Utc::now())));
}

#[test]
fn stale_inside_refresh_buffer() {
    // Expires in 60s, but the buffer is 180s: treat as stale so we refresh
    // before the credentials actually lapse mid-walk.
    let soon = Utc::now() + TimeDelta::seconds(60);
    assert!(!is_fresh(Some(stamp(soon)), stamp(Utc::now())));
}

#[test]
fn fresh_well_beyond_buffer() {
    let later = Utc::now() + TimeDelta::hours(1);
    assert!(is_fresh(Some(stamp(later)), stamp(Utc::now())));
}

#[test]
fn the_buffer_has_an_exact_end() {
    let now = Timestamp { secs: 1_000, nanos: 500 };
    assert!(!is_fresh(Some(Timestamp { secs: 1_180, nanos: 500 }), now));
    assert!(is_fresh(Some(Timestamp { secs: 1_180, nanos: 501 }), now));
    assert!(is_fresh(Some(Timestamp { secs: 1_181, nanos: 0 }), now));
    assert!(!is_fresh(Some(Timestamp { secs: 1_179, nanos: 999_999_999 }), now));
}

#[test]
fn nothing_outlasts_the_end_of_time() {
    let now = Timestamp { secs: i64::MAX, nanos: 0 };
    assert!(!is_fresh(Some(Timestamp { secs: i64::MAX, nanos: 999_999_999 }), now));
    assert!(is_fresh(None, now));
}

#[test]
fn the_buffer_is_that_of_chrono() {
    for nanos in [0_u32, 999_999_999, 1_000_000_000, 1_500_000_000] {
        // 23:59:59, the only second of a day that may be a leap second.
        let now = DateTime::from_timestamp(86_399, nanos).expect("time");
        for secs in [86_578_i64, 86_579, 86_580] {
            for n in [0_u32, 499_999_999, 500_000_000, 500_000_001] {
                let expiry = DateTime::from_timestamp(secs, n).expect("time");
                assert_eq!(
                    is_fresh(Some(stamp(expiry)), stamp(now)),
                    expiry > now + TimeDelta::seconds(180)
                );
            }
        }
    }
}

#[test]
fn initial_credentials_are_used_while_good() {
    let now = Timestamp { secs: 1_000, nanos: 0 };
    let far = Timestamp { secs: 5_000, nanos: 0 };
    let near = Timestamp { secs: 1_001, nanos: 0 };
    assert_eq!(credential_step(Some(None), now), CredentialStep::UseInitial);
    assert_eq!(credential_step(Some(Some(far)), now), CredentialStep::UseInitial);
    assert_eq!(credential_step(Some(Some(near)), now), CredentialStep::Refresh);
    assert_eq!(credential_step(None, now), CredentialStep::Refresh);
}

#[test]
fn the_first_attribute_tells_the_azure_kind() {
    assert_eq!(azure_kind(true, true, true), Ok(AzureKind::AccessKey));
    assert_eq!(azure_kind(false, true, true), Ok(AzureKind::SasToken));
    assert_eq!(azure_kind(false, false, true), Ok(AzureKind::BearerToken));
    assert_eq!(
        azure_kind(false, false, false),
        Err("icechunk Azure credential object had none of `key`, `token`, or `bearer`")
    );
}

#[test]
fn a_failed_refresh_says_how_to_do_without() {
    let msg = refresh_error("S3", "no such module");
    assert_eq!(
        msg,
        "rustytree could not run the Python credential callback embedded in this \
         icechunk session to refresh S3 credentials (no such module). This session \
         was likely created with delegated/refreshable credentials (e.g. \
         arraylake/Earthmover). Either rebuild it with anonymous or static \
         credentials, keep `scatter_initial_credentials=True` so fresh static \
         credentials travel with the session, or make the credential function \
         importable in this process."
    );
}

#[test]
fn stale_credentials_stay_stale() {
    let expiry = Some(Timestamp { secs: 1_100, nanos: 0 });
    for secs in [920_i64, 921, 1_000, 2_000] {
        assert!(!is_fresh(expiry, Timestamp { secs, nanos: 0 }));
    }
    assert!(is_fresh(expiry, Timestamp { secs: 919, nanos: 0 }));
    assert!(is_fresh(Some(Timestamp { secs: 1_101, nanos: 0 }), Timestamp { secs: 919, nanos: 0 }));
}
