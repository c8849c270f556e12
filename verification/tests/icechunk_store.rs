use icechunk::repository::VersionInfo;
use icechunk::session::Session;
use icechunk::storage::new_in_memory_storage;
use icechunk::Repository;
use rustytree::error::RustytreeError;
use rustytree::icechunk_store::{
    broken_session_message, bundle_from_session_bytes, looks_like_icechunk_repo, session_info,
    store_from_session_bytes,
};
use rustytree::store::{build_store_from_spec, ReopenSpec};
use std::collections::HashMap;
use std::path::Path;

/// A read-only session, and one on a branch with a change that is not committed.
fn sessions() -> [Session; 2] {
    let runtime = tokio::runtime::Builder::new_multi_thread().enable_all().build().expect("runtime");
    runtime.block_on(async {
        let storage = new_in_memory_storage().await.expect("storage");
        let repo =
            Repository::create(None, storage, HashMap::new(), None, true).await.expect("repository");
        let version = VersionInfo::BranchTipRef("main".to_string());
        let reading = repo.readonly_session(&version).await.expect("session");
        let mut writing = repo.writable_session("main").await.expect("session");
        let root = icechunk::format::Path::new("/").expect("path");
        writing.add_group(root, Default::default()).await.expect("group");
        [reading, writing]
    })
}

#[test]
fn rejects_missing_path() {
    let path = Path::new("/this/path/does/not/exist/rustytree");
    assert!(!looks_like_icechunk_repo(
        path.join("repo").is_file(),
        path.join("snapshots").is_dir()
    ));
}

#[test]
fn a_repository_has_both_file_and_directory() {
    assert!(looks_like_icechunk_repo(true, true));
    assert!(!looks_like_icechunk_repo(false, true));
    assert!(!looks_like_icechunk_repo(true, false));
    assert!(!looks_like_icechunk_repo(false, false));
}

#[test]
fn store_from_session_bytes_rejects_garbage() {
    let result = store_from_session_bytes(b"not msgpack");
    assert!(matches!(result, Err(RustytreeError::Other(_))));
}

#[test]
fn build_store_from_spec_rejects_garbage_session_bytes() {
    let spec = ReopenSpec::IcechunkSession {
        bytes: b"not a real icechunk session".to_vec(),
    };
    match build_store_from_spec(&spec) {
        Err(RustytreeError::IcechunkSession(_)) => {}
        Err(other) => panic!("expected IcechunkSession error, got {other:?}"),
        Ok(_) => panic!("expected error for garbage session bytes"),
    }
}

#[test]
fn the_refusal_of_bytes_names_their_number() {
    let err = store_from_session_bytes(b"not msgpack").err().expect("refused");
    let msg = err.message();
    let start = "icechunk: failed to reconstruct Session from bytes (11 bytes): ";
    assert!(msg.starts_with(start), "{msg}");
    assert!(msg.len() > start.len());
    assert_eq!(
        broken_session_message(0, "why"),
        "icechunk: failed to reconstruct Session from bytes (0 bytes): why"
    );
}

#[test]
fn the_bytes_of_a_session_make_that_session() {
    let [reading, writing] = sessions();
    assert!(reading.read_only() && !writing.read_only());
    assert!(writing.has_uncommitted_changes());
    for session in [reading, writing] {
        let info = session_info(&session);
        assert_eq!(info.snapshot, session.snapshot_id().0);
        assert_eq!(info.branch.as_deref(), session.branch());
        assert_eq!(info.read_only, session.read_only());
        assert_eq!(info.has_changes, session.has_uncommitted_changes());
        let bytes = session.as_bytes().expect("bytes");
        let spec = ReopenSpec::IcechunkSession { bytes: bytes.clone() };
        for again in [
            store_from_session_bytes(&bytes).expect("session"),
            bundle_from_session_bytes(&bytes).expect("session"),
            build_store_from_spec(&spec).expect("session"),
        ] {
            let again = session_info(&again);
            assert_eq!(again.snapshot, info.snapshot);
            assert_eq!(again.branch, info.branch);
            assert_eq!(again.read_only, info.read_only);
            assert_eq!(again.has_changes, info.has_changes);
        }
        assert!(bundle_from_session_bytes(&bytes[1..]).is_err());
    }
}
