//! icechunk-backed Zarr v3 stores.
//!
//! How an icechunk repository is told from a vanilla store, and how a session
//! comes back from the bytes that `icechunk-python` serialises it to.

use crate::error::{session_error_text, RustytreeError};
use crate::text;
use icechunk::session::{Session, SessionError};
use vstd::prelude::*;
use vstd::string::*;

verus! {

/// An icechunk session, live over its repository.
#[verifier::external_type_specification]
#[verifier::external_body]
pub struct ExSession(icechunk::session::Session);

/// What tells one session on a repository from another.
#[verifier::ext_equal]
pub struct SessionFacts {
    /// The id of the snapshot that the session stands on.
    pub snapshot: Seq<u8>,
    /// The branch that it is for, if it is for one.
    pub branch: Option<Seq<char>>,
    /// Whether it refuses writes.
    pub read_only: bool,
    /// Whether it holds changes that are not committed.
    pub has_changes: bool,
}

/// The facts of a session.
pub struct SessionInfo {
    /// The id of the snapshot that the session stands on.
    pub snapshot: Vec<u8>,
    /// The branch that it is for, if it is for one.
    pub branch: Option<String>,
    /// Whether it refuses writes.
    pub read_only: bool,
    /// Whether it holds changes that are not committed.
    pub has_changes: bool,
}

impl View for SessionInfo {
    type V = SessionFacts;

    open spec fn view(&self) -> SessionFacts {
        SessionFacts {
            snapshot: self.snapshot@,
            branch: match self.branch {
                Some(name) => Some(name@),
                None => None,
            },
            read_only: self.read_only,
            has_changes: self.has_changes,
        }
    }
}

/// What `Session::snapshot_id`, `branch`, `read_only` and
/// `has_uncommitted_changes` tell of a session.
pub uninterp spec fn session_facts(session: Session) -> SessionFacts;

/// `icechunk::session::Session::snapshot_id`, by its bytes.
#[verifier::external_body]
fn session_snapshot(session: &Session) -> (r: Vec<u8>)
    ensures
        r@ == session_facts(*session).snapshot,
{
    session.snapshot_id().0.to_vec()
}

/// `icechunk::session::Session::branch`.
#[verifier::external_body]
fn session_branch(session: &Session) -> (r: Option<String>)
    ensures
        match r {
            Some(name) => session_facts(*session).branch == Some(name@),
            None => session_facts(*session).branch is None,
        },
{
    session.branch().map(str::to_owned)
}

/// `icechunk::session::Session::read_only`.
#[verifier::external_body]
fn session_read_only(session: &Session) -> (r: bool)
    ensures
        r == session_facts(*session).read_only,
{
    session.read_only()
}

/// `icechunk::session::Session::has_uncommitted_changes`.
#[verifier::external_body]
fn session_has_changes(session: &Session) -> (r: bool)
    ensures
        r == session_facts(*session).has_changes,
{
    session.has_uncommitted_changes()
}

/// Tell what session one has, so that one that came back from bytes can be held
/// against the one that they were made from.
pub fn session_info(session: &Session) -> (r: SessionInfo)
    ensures
        r@ == session_facts(*session),
{
    SessionInfo {
        snapshot: session_snapshot(session),
        branch: session_branch(session),
        read_only: session_read_only(session),
        has_changes: session_has_changes(session),
    }
}

/// The session that bytes hold in serialised form, as `Session::from_bytes`
/// reads them; none where they hold none. A session names the types of its
/// storage and of its credential source; those that can be read are the ones
/// linked into the program. The storage of icechunk on S3 is not among them: the
/// features `s3` and `object-store-s3` of icechunk are off, since they need the
/// client libraries of AWS.
pub uninterp spec fn session_document(bytes: Seq<u8>) -> Option<SessionFacts>;

/// `icechunk::session::Session::from_bytes`, which reads the msgpack form of a
/// session. Claimed: whether it succeeds, and what session comes back as far as
/// [`SessionFacts`] tell, is a matter of the bytes alone. The storage and the
/// credentials of the session are left unsaid, as is the error.
#[verifier::external_body]
fn session_from_bytes(bytes: &[u8]) -> (r: Result<Session, SessionError>)
    ensures
        match r {
            Ok(session) => session_document(bytes@) == Some(session_facts(session)),
            Err(_) => session_document(bytes@) is None,
        },
{
    Session::from_bytes(bytes)
}

/// Heuristic detector for an on-disk icechunk repository.
///
/// icechunk's local-filesystem layout places a `repo` manifest file at the root
/// and a `snapshots/` directory beside it. Their joint presence is a strong
/// signal: vanilla Zarr v3 stores produce neither. The two arguments say
/// whether `<root>/repo` is a file and whether `<root>/snapshots` is a
/// directory.
pub fn looks_like_icechunk_repo(repo_is_file: bool, snapshots_is_dir: bool) -> (r: bool)
    ensures
        r == (repo_is_file && snapshots_is_dir),
{
    repo_is_file && snapshots_is_dir
}

/// The message for bytes that do not hold a session, from their number and the
/// text of the error.
pub fn broken_session_message(len: usize, err: &str) -> (r: String)
    ensures
        r@ == "icechunk: failed to reconstruct Session from bytes ("@ + text::decimal(len as nat)
            + " bytes): "@ + err@,
{
    let mut m: String = "icechunk: failed to reconstruct Session from bytes (".to_owned();
    m.append(text::decimal_text(len as u64).as_str());
    m.append(" bytes): ");
    m.append(err);
    m
}

/// Rehydrate a session from the msgpack bytes that `PySession.as_bytes()` gives.
///
/// Bytes that hold no session are refused with a message that names their
/// number. So are those of a session whose storage is on S3, as
/// [`session_document`] says.
pub fn store_from_session_bytes(bytes: &[u8]) -> (r: Result<Session, RustytreeError>)
    ensures
        match r {
            Ok(session) => session_document(bytes@) == Some(session_facts(session)),
            Err(e) => {
                &&& session_document(bytes@) is None
                &&& e matches RustytreeError::Other(m)
                &&& text::starts_with(
                    m@,
                    "icechunk: failed to reconstruct Session from bytes ("@ + text::decimal(
                        bytes@.len(),
                    ) + " bytes): "@,
                )
            },
        },
{
    match session_from_bytes(bytes) {
        Ok(session) => Ok(session),
        Err(err) => {
            let detail: String = session_error_text(&err);
            proof {
                text::lemma_prefix_of_join(
                    "icechunk: failed to reconstruct Session from bytes ("@ + text::decimal(
                        bytes@.len(),
                    ) + " bytes): "@,
                    detail@,
                );
            }
            Err(RustytreeError::Other(broken_session_message(bytes.len(), detail.as_str())))
        },
    }
}

/// Rehydrate a session from its msgpack bytes and keep the session error of
/// bytes that hold none.
pub fn bundle_from_session_bytes(bytes: &[u8]) -> (r: Result<Session, RustytreeError>)
    ensures
        match r {
            Ok(session) => session_document(bytes@) == Some(session_facts(session)),
            Err(e) => session_document(bytes@) is None && e is IcechunkSession,
        },
{
    match session_from_bytes(bytes) {
        Ok(session) => Ok(session),
        Err(err) => Err(RustytreeError::from(err)),
    }
}

// ---------------------------------------------------------------------------
// Laws
// ---------------------------------------------------------------------------

/// The view of a session's facts keeps each of them.
pub proof fn law_session_keeps_its_facts(info: SessionInfo, name: String)
    ensures
        info@.snapshot == info.snapshot@,
        info.branch == Some(name) ==> info@.branch == Some(name@),
        info.branch is None ==> info@.branch is None,
        info@.read_only == info.read_only,
        info@.has_changes == info.has_changes,
{
}

} // verus!
