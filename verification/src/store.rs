//! From a path or URL, and options, to what has to be opened.
//!
//! Local paths are told apart into icechunk repositories and vanilla Zarr v3
//! directories. `s3://` URLs are vanilla Zarr v3; their storage options are
//! checked here and turned into [`S3Setting`]s.

use crate::error::{FailureKind, RustytreeError};
use crate::icechunk_store;
use crate::text;
use crate::url;
use crate::url::{StoreSpec, StoreSpecModel};
use icechunk::session::Session;
use vstd::prelude::*;
use vstd::string::*;

verus! {

// ---------------------------------------------------------------------------
// Reopening a store in another process
// ---------------------------------------------------------------------------

/// A recipe for reopening a store on a fresh process, which array handles carry
/// so that they survive being pickled.
#[derive(Clone)]
pub enum ReopenSpec {
    /// The msgpack bytes from `PySession.as_bytes()`.
    IcechunkSession { bytes: Vec<u8> },
}

/// Rebuild the session that a [`ReopenSpec`] describes. The initial open and
/// the reopen on a worker both come through here.
pub fn build_store_from_spec(spec: &ReopenSpec) -> (r: Result<Session, RustytreeError>)
    ensures
        match (r, *spec) {
            (Ok(session), ReopenSpec::IcechunkSession { bytes }) => {
                icechunk_store::session_document(bytes@) == Some(
                    icechunk_store::session_facts(session),
                )
            },
            (Err(e), ReopenSpec::IcechunkSession { bytes }) => {
                &&& icechunk_store::session_document(bytes@) is None
                &&& e is IcechunkSession
            },
        },
{
    match spec {
        ReopenSpec::IcechunkSession { bytes } => icechunk_store::bundle_from_session_bytes(
            bytes.as_slice(),
        ),
    }
}

// ---------------------------------------------------------------------------
// Local stores
// ---------------------------------------------------------------------------

/// What a local directory is opened as.
#[derive(Debug, Clone)]
pub enum LocalStore {
    /// An icechunk repository, at the tip of a branch.
    Icechunk { branch: String },
    /// A vanilla Zarr v3 directory. Branches mean nothing there.
    Vanilla,
}

/// How to open a local directory, given whether `<root>/repo` is a file and
/// whether `<root>/snapshots` is a directory. An icechunk repository is opened
/// at `branch`, or at `main` where none is given.
pub fn local_store(repo_is_file: bool, snapshots_is_dir: bool, branch: Option<&str>) -> (r:
    LocalStore)
    ensures
        match r {
            LocalStore::Icechunk { branch: b } => repo_is_file && snapshots_is_dir && b@ == (
            match branch {
                Some(given) => given@,
                None => "main"@,
            }),
            LocalStore::Vanilla => !(repo_is_file && snapshots_is_dir),
        },
        r matches LocalStore::Icechunk { branch: b } ==> b@ == given_or(branch, "main"@),
{
    if icechunk_store::looks_like_icechunk_repo(repo_is_file, snapshots_is_dir) {
        let name: &str = match branch {
            Some(given) => given,
            None => "main",
        };
        LocalStore::Icechunk { branch: name.to_owned() }
    } else {
        LocalStore::Vanilla
    }
}

// ---------------------------------------------------------------------------
// S3
// ---------------------------------------------------------------------------

/// The URL of a bucket and prefix.
pub open spec fn s3_url_of(bucket: Seq<char>, prefix: Seq<char>) -> Seq<char> {
    if prefix.len() == 0 {
        "s3://"@ + bucket
    } else {
        "s3://"@ + bucket + "/"@ + prefix
    }
}

/// The URL that names both a bucket and a prefix within it.
pub fn s3_url(bucket: &str, prefix: &str) -> (r: String)
    ensures
        r@ == s3_url_of(bucket@, prefix@),
{
    let mut url: String = text::joined("s3://", bucket);
    if !prefix.is_empty() {
        url.append("/");
        url.append(prefix);
    }
    url
}

/// One setting of an S3 client.
#[derive(Debug, Clone)]
pub enum S3Setting {
    Region(String),
    Endpoint(String),
    AccessKeyId(String),
    SecretAccessKey(String),
    SessionToken(String),
    AllowHttp(bool),
    SkipSignature(bool),
}

/// An [`S3Setting`] with its text.
pub enum S3SettingModel {
    Region(Seq<char>),
    Endpoint(Seq<char>),
    AccessKeyId(Seq<char>),
    SecretAccessKey(Seq<char>),
    SessionToken(Seq<char>),
    AllowHttp(bool),
    SkipSignature(bool),
}

impl View for S3Setting {
    type V = S3SettingModel;

    open spec fn view(&self) -> S3SettingModel {
        match *self {
            S3Setting::Region(s) => S3SettingModel::Region(s@),
            S3Setting::Endpoint(s) => S3SettingModel::Endpoint(s@),
            S3Setting::AccessKeyId(s) => S3SettingModel::AccessKeyId(s@),
            S3Setting::SecretAccessKey(s) => S3SettingModel::SecretAccessKey(s@),
            S3Setting::SessionToken(s) => S3SettingModel::SessionToken(s@),
            S3Setting::AllowHttp(b) => S3SettingModel::AllowHttp(b),
            S3Setting::SkipSignature(b) => S3SettingModel::SkipSignature(b),
        }
    }
}

/// The truth value that a text stands for, if it stands for one.
pub open spec fn truth_of(value: Seq<char>) -> Option<bool> {
    if value == "true"@ || value == "True"@ || value == "1"@ || value == "yes"@ {
        Some(true)
    } else if value == "false"@ || value == "False"@ || value == "0"@ || value == "no"@ {
        Some(false)
    } else {
        None
    }
}

/// The message for a value that should be a truth value and is not.
pub open spec fn not_a_truth_value(key: Seq<char>, value: Seq<char>) -> Seq<char> {
    "s3 storage option `"@ + key + "` expects a boolean, got "@ + text::debug_form(value)
}

/// What one storage option sets, or the message with which it is refused.
/// `anon` is another spelling of `skip_signature`.
pub open spec fn s3_setting_of(key: Seq<char>, value: Seq<char>) -> Result<
    S3SettingModel,
    Seq<char>,
> {
    if key == "region"@ {
        Ok(S3SettingModel::Region(value))
    } else if key == "endpoint"@ {
        Ok(S3SettingModel::Endpoint(value))
    } else if key == "access_key_id"@ {
        Ok(S3SettingModel::AccessKeyId(value))
    } else if key == "secret_access_key"@ {
        Ok(S3SettingModel::SecretAccessKey(value))
    } else if key == "session_token"@ {
        Ok(S3SettingModel::SessionToken(value))
    } else if key == "allow_http"@ {
        match truth_of(value) {
            Some(b) => Ok(S3SettingModel::AllowHttp(b)),
            None => Err(not_a_truth_value(key, value)),
        }
    } else if key == "skip_signature"@ || key == "anon"@ {
        match truth_of(value) {
            Some(b) => Ok(S3SettingModel::SkipSignature(b)),
            None => Err(not_a_truth_value(key, value)),
        }
    } else {
        Err("unknown s3 storage option: `"@ + key + "`"@)
    }
}

/// The truth value of an option.
fn bool_option(key: &str, value: &str) -> (r: Result<bool, RustytreeError>)
    ensures
        match r {
            Ok(b) => truth_of(value@) == Some(b),
            Err(RustytreeError::InvalidInput(m)) => truth_of(value@) is None && m@
                == not_a_truth_value(key@, value@),
            Err(_) => false,
        },
{
    if text::same_text(value, "true") || text::same_text(value, "True") || text::same_text(
        value,
        "1",
    ) || text::same_text(value, "yes") {
        return Ok(true);
    }
    if text::same_text(value, "false") || text::same_text(value, "False") || text::same_text(
        value,
        "0",
    ) || text::same_text(value, "no") {
        return Ok(false);
    }
    let mut m: String = text::joined("s3 storage option `", key);
    m.append("` expects a boolean, got ");
    m.append(text::debug_text(value).as_str());
    Err(RustytreeError::InvalidInput(m))
}

/// Reads one fsspec/xarray-style S3 option. Unknown keys are refused, so typos
/// surface immediately rather than silently disabling auth.
pub fn apply_s3_option(key: &str, value: &str) -> (r: Result<S3Setting, RustytreeError>)
    ensures
        match r {
            Ok(s) => s3_setting_of(key@, value@) == Ok::<S3SettingModel, Seq<char>>(s@),
            Err(RustytreeError::InvalidInput(m)) => s3_setting_of(key@, value@) == Err::<
                S3SettingModel,
                Seq<char>,
            >(m@),
            Err(_) => false,
        },
{
    if text::same_text(key, "region") {
        Ok(S3Setting::Region(value.to_owned()))
    } else if text::same_text(key, "endpoint") {
        Ok(S3Setting::Endpoint(value.to_owned()))
    } else if text::same_text(key, "access_key_id") {
        Ok(S3Setting::AccessKeyId(value.to_owned()))
    } else if text::same_text(key, "secret_access_key") {
        Ok(S3Setting::SecretAccessKey(value.to_owned()))
    } else if text::same_text(key, "session_token") {
        Ok(S3Setting::SessionToken(value.to_owned()))
    } else if text::same_text(key, "allow_http") {
        match bool_option(key, value) {
            Ok(b) => Ok(S3Setting::AllowHttp(b)),
            Err(e) => Err(e),
        }
    } else if text::same_text(key, "skip_signature") || text::same_text(key, "anon") {
        match bool_option(key, value) {
            Ok(b) => Ok(S3Setting::SkipSignature(b)),
            Err(e) => Err(e),
        }
    } else {
        let mut m: String = text::joined("unknown s3 storage option: `", key);
        m.append("`");
        Err(RustytreeError::InvalidInput(m))
    }
}

/// Reads the options in the order in which they come, up to the first that is
/// refused. Each setting overrides what the environment gives, and a later one
/// an earlier one.
pub fn s3_settings(options: &Vec<(String, String)>) -> (r: Result<Vec<S3Setting>, RustytreeError>)
    ensures
        match r {
            Ok(settings) => are_settings_of(settings@, options@),
            Err(RustytreeError::InvalidInput(m)) => exists|i: int|
                first_refused(options@, i) && s3_setting_of(
                    (#[trigger] options@[i]).0@,
                    options@[i].1@,
                ) == Err::<S3SettingModel, Seq<char>>(m@),
            Err(_) => false,
        },
{
    let mut out: Vec<S3Setting> = Vec::new();
    let mut i: usize = 0;
    while i < options.len()
        invariant
            i <= options.len(),
            out@.len() == i,
            forall|j: int|
                0 <= j < i ==> s3_setting_of((#[trigger] options@[j]).0@, options@[j].1@) == Ok::<
                    S3SettingModel,
                    Seq<char>,
                >(out@[j]@),
        decreases options.len() - i,
    {
        match apply_s3_option(options[i].0.as_str(), options[i].1.as_str()) {
            Ok(setting) => {
                out.push(setting);
            },
            Err(e) => {
                assert(first_refused(options@, i as int));
                return Err(e);
            },
        }
        i += 1;
    }
    Ok(out)
}

/// Option `i` is the first that is refused.
pub open spec fn first_refused(options: Seq<(String, String)>, i: int) -> bool {
    &&& 0 <= i < options.len()
    &&& s3_setting_of(options[i].0@, options[i].1@) is Err
    &&& forall|j: int|
        0 <= j < i ==> s3_setting_of((#[trigger] options[j]).0@, options[j].1@) is Ok
}

// ---------------------------------------------------------------------------
// What to open
// ---------------------------------------------------------------------------

/// A store to open and the group in it to start at.
#[derive(Debug, Clone)]
pub struct OpenPlan {
    pub store: StoreSpec,
    /// The settings of the client, for a store on S3.
    pub settings: Vec<S3Setting>,
    /// The path of the group.
    pub group_path: String,
}

/// The options are those of `settings`, one for one.
pub open spec fn are_settings_of(
    settings: Seq<S3Setting>,
    options: Seq<(String, String)>,
) -> bool {
    settings.len() == options.len() && forall|i: int|
        0 <= i < options.len() ==> s3_setting_of((#[trigger] options[i]).0@, options[i].1@) == Ok::<
            S3SettingModel,
            Seq<char>,
        >(settings[i]@)
}

/// The text that was given, or what stands for one that was not.
pub open spec fn given_or(given: Option<&str>, otherwise: Seq<char>) -> Seq<char> {
    match given {
        Some(s) => s@,
        None => otherwise,
    }
}

/// What opening `path` takes: the store that it names, with the settings that
/// the options make where it is on S3, and the group, which is the root unless
/// one is given. Options of a local path are passed over.
pub fn plan_open(path: &str, group: Option<&str>, options: &Vec<(String, String)>) -> (r: Result<
    OpenPlan,
    RustytreeError,
>)
    ensures
        match r {
            Ok(plan) => {
                &&& url::store_spec_of(path@) == Ok::<StoreSpecModel, Seq<char>>(plan.store@)
                &&& plan.store is S3 ==> are_settings_of(plan.settings@, options@)
                &&& plan.store is Local ==> plan.settings@.len() == 0
                &&& plan.group_path@ == (match group {
                    Some(given) => given@,
                    None => "/"@,
                })
                &&& plan.group_path@ == given_or(group, "/"@)
            },
            Err(e) => {
                &&& e matches RustytreeError::InvalidInput(m)
                &&& match url::store_spec_of(path@) {
                    Err(reason) => m@ == reason,
                    Ok(StoreSpecModel::Local(_)) => false,
                    Ok(StoreSpecModel::S3 { .. }) => exists|i: int|
                        first_refused(options@, i) && s3_setting_of(
                            (#[trigger] options@[i]).0@,
                            options@[i].1@,
                        ) == Err::<S3SettingModel, Seq<char>>(m@),
                }
            },
        },
{
    let store: StoreSpec = match url::parse_store_spec(path) {
        Ok(store) => store,
        Err(e) => {
            return Err(e);
        },
    };
    let settings: Vec<S3Setting> = match &store {
        StoreSpec::Local(_) => Vec::new(),
        StoreSpec::S3 { .. } => match s3_settings(options) {
            Ok(settings) => settings,
            Err(e) => {
                return Err(e);
            },
        },
    };
    let group_path: &str = match group {
        Some(given) => given,
        None => "/",
    };
    Ok(OpenPlan { store, settings, group_path: group_path.to_owned() })
}

/// What failed when a store was opened.
#[derive(Debug, Clone, Copy, PartialEq, Eq, Structural)]
pub enum OpenStep {
    /// The directory of an icechunk repository.
    IcechunkStorage,
    /// An icechunk repository.
    IcechunkRepository,
    /// A branch of an icechunk repository.
    IcechunkBranch,
    /// A client for S3.
    S3Client,
    /// A directory.
    LocalDirectory,
}

/// The message for a store at `place` that could not be opened.
pub open spec fn open_failure(
    step: OpenStep,
    place: Seq<char>,
    branch: Seq<char>,
    err: Seq<char>,
) -> Seq<char> {
    match step {
        OpenStep::IcechunkStorage => "icechunk: failed to open local-filesystem storage at "@
            + place + ": "@ + err,
        OpenStep::IcechunkRepository => "icechunk: failed to open repository at "@ + place + ": "@
            + err,
        OpenStep::IcechunkBranch => "icechunk: failed to open readonly session on branch "@ + branch
            + " at "@ + place + ": "@ + err,
        OpenStep::S3Client => "failed to build S3 store for "@ + place + ": "@ + err,
        OpenStep::LocalDirectory => "failed to open local filesystem at "@ + place + ": "@ + err,
    }
}

/// The error for a store at `place` that could not be opened.
pub fn open_error(step: OpenStep, kind: FailureKind, place: &str, branch: &str, err: &str) -> (r:
    RustytreeError)
    ensures
        crate::error::is_failure(r, kind, place@, open_failure(step, place@, branch@, err@)),
{
    let mut m: String = match step {
        OpenStep::IcechunkStorage => {
            "icechunk: failed to open local-filesystem storage at ".to_owned()
        },
        OpenStep::IcechunkRepository => "icechunk: failed to open repository at ".to_owned(),
        OpenStep::IcechunkBranch => {
            let mut start: String =
                "icechunk: failed to open readonly session on branch ".to_owned();
            start.append(branch);
            start.append(" at ");
            start
        },
        OpenStep::S3Client => "failed to build S3 store for ".to_owned(),
        OpenStep::LocalDirectory => "failed to open local filesystem at ".to_owned(),
    };
    m.append(place);
    m.append(": ");
    m.append(err);
    crate::error::failure(kind, place, m)
}

/// The error for an array that could not be opened again from the state that its
/// handle was pickled to.
pub fn reopen_error(path: &str, err: &str) -> (r: RustytreeError)
    ensures
        r matches RustytreeError::Other(m) && m@ == "rustytree: failed to reopen array "@
            + text::debug_form(path@) + " on worker: "@ + err@,
{
    let mut m: String = "rustytree: failed to reopen array ".to_owned();
    m.append(text::debug_text(path).as_str());
    m.append(" on worker: ");
    m.append(err);
    RustytreeError::Other(m)
}

// ---------------------------------------------------------------------------
// Laws
// ---------------------------------------------------------------------------

/// `key` is the name of an S3 option.
pub open spec fn is_s3_option(key: Seq<char>) -> bool {
    ||| key == "region"@
    ||| key == "endpoint"@
    ||| key == "access_key_id"@
    ||| key == "secret_access_key"@
    ||| key == "session_token"@
    ||| key == "allow_http"@
    ||| key == "skip_signature"@
    ||| key == "anon"@
}

/// Unknown options are refused by name, so that a misspelt one is not passed
/// over.
pub proof fn law_unknown_option_is_refused(key: Seq<char>, value: Seq<char>)
    requires
        !is_s3_option(key),
    ensures
        s3_setting_of(key, value) == Err::<S3SettingModel, Seq<char>>(
            "unknown s3 storage option: `"@ + key + "`"@,
        ),
{
}

/// `anon` does what `skip_signature` does.
pub proof fn law_anon_is_skip_signature(value: Seq<char>)
    requires
        truth_of(value) is Some,
    ensures
        s3_setting_of("anon"@, value) == s3_setting_of("skip_signature"@, value),
        s3_setting_of("anon"@, value) == Ok::<S3SettingModel, Seq<char>>(
            S3SettingModel::SkipSignature(truth_of(value)->0),
        ),
{
    reveal_strlit("anon");
    reveal_strlit("skip_signature");
    reveal_strlit("region");
    reveal_strlit("endpoint");
    reveal_strlit("access_key_id");
    reveal_strlit("secret_access_key");
    reveal_strlit("session_token");
    reveal_strlit("allow_http");
    assert("skip_signature"@[0] == 's' && "skip_signature"@[1] == 'k');
    assert("secret_access_key"@[1] == 'e');
    assert("session_token"@[1] == 'e');
    assert("anon"@.len() == 4);
}

/// Options that are all known and well-formed are taken, and any other is not.
pub proof fn law_options_are_taken_or_refused(options: Seq<(String, String)>, i: int)
    requires
        0 <= i < options.len(),
        s3_setting_of(options[i].0@, options[i].1@) is Err,
    ensures
        exists|j: int| j <= i && #[trigger] first_refused(options, j),
    decreases i,
{
    if exists|k: int| 0 <= k < i && s3_setting_of((#[trigger] options[k]).0@, options[k].1@) is Err {
        let k = choose|k: int|
            0 <= k < i && s3_setting_of((#[trigger] options[k]).0@, options[k].1@) is Err;
        law_options_are_taken_or_refused(options, k);
    } else {
        assert(first_refused(options, i));
    }
}

/// A truth value is spelt in one of four ways, and nothing else is one.
pub proof fn law_truth_values_have_four_spellings(value: Seq<char>)
    ensures
        truth_of("true"@) == Some(true),
        truth_of("True"@) == Some(true),
        truth_of("1"@) == Some(true),
        truth_of("yes"@) == Some(true),
        truth_of("false"@) == Some(false),
        truth_of("False"@) == Some(false),
        truth_of("0"@) == Some(false),
        truth_of("no"@) == Some(false),
        value != "true"@ && value != "True"@ && value != "1"@ && value != "yes"@ && value
            != "false"@ && value != "False"@ && value != "0"@ && value != "no"@ ==> truth_of(
            value,
        ) is None,
{
    reveal_strlit("true");
    reveal_strlit("True");
    reveal_strlit("1");
    reveal_strlit("yes");
    reveal_strlit("false");
    reveal_strlit("False");
    reveal_strlit("0");
    reveal_strlit("no");
    assert("true"@.len() == 4 && "True"@.len() == 4 && "1"@.len() == 1 && "yes"@.len() == 3);
    assert("false"@.len() == 5 && "False"@.len() == 5 && "0"@.len() == 1 && "no"@.len() == 2);
    assert("1"@[0] == '1' && "0"@[0] == '0');
}

/// Each option sets what it is named for, to the value that it was given.
pub proof fn law_option_sets_what_it_names(value: Seq<char>)
    ensures
        s3_setting_of("region"@, value) == Ok::<S3SettingModel, Seq<char>>(
            S3SettingModel::Region(value),
        ),
        s3_setting_of("endpoint"@, value) == Ok::<S3SettingModel, Seq<char>>(
            S3SettingModel::Endpoint(value),
        ),
        s3_setting_of("access_key_id"@, value) == Ok::<S3SettingModel, Seq<char>>(
            S3SettingModel::AccessKeyId(value),
        ),
        s3_setting_of("secret_access_key"@, value) == Ok::<S3SettingModel, Seq<char>>(
            S3SettingModel::SecretAccessKey(value),
        ),
        s3_setting_of("session_token"@, value) == Ok::<S3SettingModel, Seq<char>>(
            S3SettingModel::SessionToken(value),
        ),
{
    lemma_option_names_differ();
}

/// The options that are switches take truth values and refuse anything else, by
/// the name of the option and with the value.
pub proof fn law_switch_takes_truth_values(value: Seq<char>)
    ensures
        s3_setting_of("allow_http"@, value) == match truth_of(value) {
            Some(b) => Ok::<S3SettingModel, Seq<char>>(S3SettingModel::AllowHttp(b)),
            None => Err(
                "s3 storage option `"@ + "allow_http"@ + "` expects a boolean, got "@
                    + text::debug_form(value),
            ),
        },
        s3_setting_of("skip_signature"@, value) == match truth_of(value) {
            Some(b) => Ok::<S3SettingModel, Seq<char>>(S3SettingModel::SkipSignature(b)),
            None => Err(
                "s3 storage option `"@ + "skip_signature"@ + "` expects a boolean, got "@
                    + text::debug_form(value),
            ),
        },
        s3_setting_of("anon"@, value) == match truth_of(value) {
            Some(b) => Ok::<S3SettingModel, Seq<char>>(S3SettingModel::SkipSignature(b)),
            None => Err(
                "s3 storage option `"@ + "anon"@ + "` expects a boolean, got "@ + text::debug_form(
                    value,
                ),
            ),
        },
{
    lemma_option_names_differ();
}

/// The names of the options are told apart by their lengths, and by a character
/// where two are equally long.
proof fn lemma_option_names_differ()
    ensures
        "region"@.len() == 6,
        "endpoint"@.len() == 8,
        "access_key_id"@.len() == 13,
        "session_token"@.len() == 13,
        "access_key_id"@ != "session_token"@,
        "secret_access_key"@.len() == 17,
        "allow_http"@.len() == 10,
        "skip_signature"@.len() == 14,
        "anon"@.len() == 4,
{
    reveal_strlit("region");
    reveal_strlit("endpoint");
    reveal_strlit("access_key_id");
    reveal_strlit("secret_access_key");
    reveal_strlit("session_token");
    reveal_strlit("allow_http");
    reveal_strlit("skip_signature");
    reveal_strlit("anon");
    assert("access_key_id"@[0] == 'a');
    assert("session_token"@[0] == 's');
}

/// The settings are those of the options, one for one and in their order. Before
/// the first option that is refused stand only options that are taken.
pub proof fn law_settings_follow_the_options(
    settings: Seq<S3Setting>,
    options: Seq<(String, String)>,
    i: int,
)
    ensures
        are_settings_of(settings, options) ==> settings.len() == options.len(),
        are_settings_of(settings, options) && 0 <= i < options.len() ==> s3_setting_of(
            options[i].0@,
            options[i].1@,
        ) == Ok::<S3SettingModel, Seq<char>>(settings[i]@),
        first_refused(options, i) ==> 0 <= i < options.len() && s3_setting_of(
            options[i].0@,
            options[i].1@,
        ) is Err && forall|j: int|
            0 <= j < i ==> s3_setting_of((#[trigger] options[j]).0@, options[j].1@) is Ok,
{
    if are_settings_of(settings, options) && 0 <= i < options.len() {
        let o = options[i];
        assert(s3_setting_of(o.0@, o.1@) == Ok::<S3SettingModel, Seq<char>>(settings[i]@));
    }
}

/// A URL names its bucket and, where there is one, its prefix.
pub proof fn law_url_names_bucket_and_prefix(bucket: Seq<char>, prefix: Seq<char>)
    ensures
        s3_url_of(bucket, Seq::<char>::empty()) == "s3://"@ + bucket,
        prefix.len() > 0 ==> s3_url_of(bucket, prefix) == s3_url_of(bucket, Seq::<char>::empty())
            + "/"@ + prefix,
{
}

/// The message for a store that could not be opened ends with the cause and names
/// the place, and the branch where one was asked for.
pub proof fn law_failed_open_tells_place_and_cause(
    step: OpenStep,
    place: Seq<char>,
    branch: Seq<char>,
    err: Seq<char>,
)
    ensures
        text::ends_with(open_failure(step, place, branch, err), place + ": "@ + err),
        step == OpenStep::IcechunkBranch ==> text::contains_text(
            open_failure(step, place, branch, err),
            branch,
        ),
{
    let m = open_failure(step, place, branch, err);
    let tail = place + ": "@ + err;
    assert(m.skip(m.len() - tail.len()) =~= tail);
    if step == OpenStep::IcechunkBranch {
        let head = "icechunk: failed to open readonly session on branch "@;
        assert(m.subrange(head.len() as int, head.len() as int + branch.len()) =~= branch);
        assert(text::occurs_at(m, branch, head.len() as int));
    }
}

/// The view of a setting keeps what it sets and its value.
pub proof fn law_setting_keeps_its_value(s: String, b: bool)
    ensures
        S3Setting::Region(s)@ == S3SettingModel::Region(s@),
        S3Setting::Endpoint(s)@ == S3SettingModel::Endpoint(s@),
        S3Setting::AccessKeyId(s)@ == S3SettingModel::AccessKeyId(s@),
        S3Setting::SecretAccessKey(s)@ == S3SettingModel::SecretAccessKey(s@),
        S3Setting::SessionToken(s)@ == S3SettingModel::SessionToken(s@),
        S3Setting::AllowHttp(b)@ == S3SettingModel::AllowHttp(b),
        S3Setting::SkipSignature(b)@ == S3SettingModel::SkipSignature(b),
{
}

/// Messages for one step differ only in the branch, the place and the cause, which
/// stand in them as they are: what is around them is the same for all.
pub proof fn law_open_messages_have_one_form(step: OpenStep) -> (around: (
    Seq<char>,
    Seq<char>,
    Seq<char>,
))
    ensures
        forall|place: Seq<char>, branch: Seq<char>, err: Seq<char>| #[trigger]
            open_failure(step, place, branch, err) == if step == OpenStep::IcechunkBranch {
                around.0 + branch + around.1 + place + around.2 + err
            } else {
                around.0 + place + around.2 + err
            },
{
    let first = match step {
        OpenStep::IcechunkStorage => "icechunk: failed to open local-filesystem storage at "@,
        OpenStep::IcechunkRepository => "icechunk: failed to open repository at "@,
        OpenStep::IcechunkBranch => "icechunk: failed to open readonly session on branch "@,
        OpenStep::S3Client => "failed to build S3 store for "@,
        OpenStep::LocalDirectory => "failed to open local filesystem at "@,
    };
    (first, " at "@, ": "@)
}

/// A group or branch that was given is taken as it is.
pub proof fn law_given_names_are_taken(given: &str, otherwise: Seq<char>)
    ensures
        given_or(Some(given), otherwise) == given@,
        given_or(None, otherwise) == otherwise,
{
}

} // verus!
