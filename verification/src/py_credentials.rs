//! Credentials that travel with an icechunk session.
//!
//! A session made with refreshable credentials carries a pickled Python callable
//! that fetches them and, unless its maker opted out, credentials that were
//! fetched at the time. This module decides when those are still good, and what
//! a failed refresh is answered with.

use crate::text;
use vstd::prelude::*;
use vstd::string::*;

verus! {

/// Credentials are fetched anew this many seconds before they expire.
pub const REFRESH_BUFFER_SECS: i64 = 180;

/// A point in time: seconds since the Unix epoch, and nanoseconds of the second.
/// In a leap second the nanoseconds go on past one second.
#[derive(Debug, Clone, Copy, PartialEq, Eq, Structural)]
pub struct Timestamp {
    pub secs: i64,
    pub nanos: u32,
}

/// `a` is later than the time with that many seconds and nanoseconds.
pub open spec fn is_later(a: Timestamp, secs: int, nanos: int) -> bool {
    a.secs > secs || a.secs == secs && a.nanos > nanos
}

/// Credentials that expire then, if they expire at all, are good at `now`: they
/// hold for longer than the refresh buffer. The buffer leads out of a leap
/// second.
pub open spec fn is_good(expires_after: Option<Timestamp>, now: Timestamp) -> bool {
    match expires_after {
        None => true,
        Some(expiry) => is_later(
            expiry,
            now.secs + REFRESH_BUFFER_SECS,
            if now.nanos >= 1_000_000_000 {
                now.nanos - 1_000_000_000
            } else {
                now.nanos as int
            },
        ),
    }
}

/// `true` when `expires_after` is absent, or far enough after `now` that the
/// credentials are still safe to hand out.
pub fn is_fresh(expires_after: Option<Timestamp>, now: Timestamp) -> (r: bool)
    ensures
        r == is_good(expires_after, now),
{
    match expires_after {
        None => true,
        Some(expiry) => match now.secs.checked_add(REFRESH_BUFFER_SECS) {
            None => false,
            Some(secs) => {
                let nanos: u32 = if now.nanos >= 1_000_000_000 {
                    now.nanos - 1_000_000_000
                } else {
                    now.nanos
                };
                expiry.secs > secs || expiry.secs == secs && expiry.nanos > nanos
            },
        },
    }
}

/// What is done for a request for credentials.
#[derive(Debug, Clone, Copy, PartialEq, Eq, Structural)]
pub enum CredentialStep {
    /// The credentials that came with the session are handed out.
    UseInitial,
    /// The Python callable is run for new ones.
    Refresh,
}

/// The step for a request at `now`.
pub open spec fn step_at(initial: Option<Option<Timestamp>>, now: Timestamp) -> CredentialStep {
    match initial {
        Some(expires_after) => if is_good(expires_after, now) {
            CredentialStep::UseInitial
        } else {
            CredentialStep::Refresh
        },
        None => CredentialStep::Refresh,
    }
}

/// What is done for a request for credentials at `now`. `initial` is there if
/// credentials came with the session, and says when they expire, if they do.
pub fn credential_step(initial: Option<Option<Timestamp>>, now: Timestamp) -> (r: CredentialStep)
    ensures
        r == step_at(initial, now),
{
    match initial {
        Some(expires_after) => {
            if is_fresh(expires_after, now) {
                CredentialStep::UseInitial
            } else {
                CredentialStep::Refresh
            }
        },
        None => CredentialStep::Refresh,
    }
}

/// The kinds of refreshable Azure credential.
#[derive(Debug, Clone, Copy, PartialEq, Eq, Structural)]
pub enum AzureKind {
    AccessKey,
    SasToken,
    BearerToken,
}

/// Tell the kind of a Python Azure credential by which of the attributes `key`,
/// `token` and `bearer` it has. The first of them decides; an object with none
/// of them is no credential.
pub fn azure_kind(has_key: bool, has_token: bool, has_bearer: bool) -> (r: Result<
    AzureKind,
    &'static str,
>)
    ensures
        match r {
            Ok(AzureKind::AccessKey) => has_key,
            Ok(AzureKind::SasToken) => !has_key && has_token,
            Ok(AzureKind::BearerToken) => !has_key && !has_token && has_bearer,
            Err(m) => !has_key && !has_token && !has_bearer && m@
                == "icechunk Azure credential object had none of `key`, `token`, or `bearer`"@,
        },
{
    if has_key {
        Ok(AzureKind::AccessKey)
    } else if has_token {
        Ok(AzureKind::SasToken)
    } else if has_bearer {
        Ok(AzureKind::BearerToken)
    } else {
        Err("icechunk Azure credential object had none of `key`, `token`, or `bearer`")
    }
}

/// The message for a refresh that failed: it says how to do without one.
pub fn refresh_error(provider: &str, err: &str) -> (r: String)
    ensures
        r@
            == "rustytree could not run the Python credential callback embedded in this icechunk session to refresh "@
            + provider@ + " credentials ("@ + err@
            + "). This session was likely created with delegated/refreshable credentials (e.g. arraylake/Earthmover). Either rebuild it with anonymous or static credentials, keep `scatter_initial_credentials=True` so fresh static credentials travel with the session, or make the credential function importable in this process."@,
{
    let mut m: String =
        "rustytree could not run the Python credential callback embedded in this icechunk session to refresh ".to_owned();
    m.append(provider);
    m.append(" credentials (");
    m.append(err);
    m.append(
        "). This session was likely created with delegated/refreshable credentials (e.g. arraylake/Earthmover). Either rebuild it with anonymous or static credentials, keep `scatter_initial_credentials=True` so fresh static credentials travel with the session, or make the credential function importable in this process.",
    );
    m
}

// ---------------------------------------------------------------------------
// Laws
// ---------------------------------------------------------------------------

/// Credentials that are handed out hold for longer than the refresh buffer.
pub proof fn law_handed_out_credentials_hold(expiry: Timestamp, now: Timestamp)
    requires
        is_good(Some(expiry), now),
    ensures
        is_later(expiry, now.secs as int, now.nanos as int),
{
}

/// Credentials that are stale stay stale.
pub proof fn law_stale_stays_stale(expiry: Timestamp, now: Timestamp, later: Timestamp)
    requires
        now.nanos < 1_000_000_000,
        later.nanos < 1_000_000_000,
        is_later(later, now.secs as int, now.nanos as int),
        !is_good(Some(expiry), now),
    ensures
        !is_good(Some(expiry), later),
{
}

/// Of two credentials the one that expires later is good whenever the other is.
pub proof fn law_longer_lasting_is_good_too(a: Timestamp, b: Timestamp, now: Timestamp)
    requires
        is_good(Some(a), now),
        is_later(b, a.secs as int, a.nanos as int),
    ensures
        is_good(Some(b), now),
{
}

/// Credentials are good when they outlast the refresh buffer of 180 seconds, to
/// the nanosecond, and always when they do not expire.
pub proof fn law_good_credentials_outlast_the_buffer(expiry: Timestamp, now: Timestamp)
    requires
        expiry.nanos < 1_000_000_000,
        now.nanos < 1_000_000_000,
    ensures
        is_good(None, now),
        is_good(Some(expiry), now) <==> expiry.secs * 1_000_000_000 + expiry.nanos > now.secs
            * 1_000_000_000 + now.nanos + 180 * 1_000_000_000,
{
}

/// In a leap second credentials are as good as in the second that it prolongs. A
/// leap second in which they expire is later than all of that second.
pub proof fn law_leap_seconds_are_led_out_of(
    expires_after: Option<Timestamp>,
    secs: i64,
    nanos: u32,
    k: u32,
)
    requires
        nanos < 1_000_000_000,
        k < 1_000_000_000,
    ensures
        is_good(expires_after, (Timestamp { secs, nanos: (nanos + 1_000_000_000) as u32 })) == is_good(
            expires_after,
            (Timestamp { secs, nanos }),
        ),
        secs < i64::MAX - 180 ==> is_good(
            Some(Timestamp { secs: (secs + 180) as i64, nanos: (k + 1_000_000_000) as u32 }),
            (Timestamp { secs, nanos }),
        ),
{
}

/// Credentials that came with the session are used while they are good; otherwise,
/// and where none came, new ones are fetched.
pub proof fn law_good_credentials_are_used(expires_after: Option<Timestamp>, now: Timestamp)
    ensures
        step_at(None, now) == CredentialStep::Refresh,
        step_at(Some(expires_after), now) == CredentialStep::UseInitial <==> is_good(
            expires_after,
            now,
        ),
{
}

/// Of two times the later is the one with more seconds, or with more nanoseconds
/// of the same second.
pub proof fn law_later_means_more_time(a: Timestamp, b: Timestamp)
    requires
        a.nanos < 1_000_000_000,
        b.nanos < 1_000_000_000,
    ensures
        is_later(a, b.secs as int, b.nanos as int) <==> a.secs * 1_000_000_000 + a.nanos > b.secs
            * 1_000_000_000 + b.nanos,
{
}

} // verus!
