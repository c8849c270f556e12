//! Parser for the `path` argument to `open_datatree`.
//!
//! Maps a string into a [`StoreSpec`] describing where to read from:
//! local-filesystem paths (`file://...` or bare) and S3 URLs (`s3://...`).

use crate::error::RustytreeError;
use crate::store;
use crate::text;
use vstd::prelude::*;
use vstd::string::*;

verus! {

/// Where to read a Zarr v3 store from.
#[derive(Debug, Clone, PartialEq, Eq)]
pub enum StoreSpec {
    /// A path on the local filesystem (icechunk or vanilla, told apart there).
    Local(String),
    /// S3 bucket and prefix, a vanilla Zarr v3 store.
    S3 {
        /// S3 bucket name.
        bucket: String,
        /// Object-key prefix (no leading slash, no trailing slash).
        prefix: String,
    },
}

/// A [`StoreSpec`] with its texts.
pub enum StoreSpecModel {
    Local(Seq<char>),
    S3 { bucket: Seq<char>, prefix: Seq<char> },
}

impl View for StoreSpec {
    type V = StoreSpecModel;

    open spec fn view(&self) -> StoreSpecModel {
        match *self {
            StoreSpec::Local(path) => StoreSpecModel::Local(path@),
            StoreSpec::S3 { bucket, prefix } => StoreSpecModel::S3 {
                bucket: bucket@,
                prefix: prefix@,
            },
        }
    }
}

/// `s` without the slashes at its two ends.
pub open spec fn without_outer_slashes(s: Seq<char>) -> Seq<char> {
    text::trim_end(text::trim_start(s, '/'), '/')
}

/// What stands before the first `://`; all of `s` if there is none.
pub open spec fn scheme_of(s: Seq<char>) -> Seq<char>
    decreases s.len(),
{
    if s.len() == 0 || text::starts_with(s, "://"@) {
        Seq::<char>::empty()
    } else {
        seq![s[0]] + scheme_of(s.skip(1))
    }
}

/// Bucket and prefix of what follows `s3://`.
pub open spec fn bucket_and_prefix(rest: Seq<char>) -> (Seq<char>, Seq<char>) {
    let bucket = text::until(rest, '/');
    if bucket.len() == rest.len() {
        (bucket, Seq::<char>::empty())
    } else {
        (bucket, without_outer_slashes(rest.skip(bucket.len() as int + 1)))
    }
}

/// What an input means, or the message with which it is refused.
pub open spec fn store_spec_of(input: Seq<char>) -> Result<StoreSpecModel, Seq<char>> {
    if text::starts_with(input, "file://"@) {
        Ok(StoreSpecModel::Local(input.skip("file://"@.len() as int)))
    } else if text::starts_with(input, "s3://"@) {
        let (bucket, prefix) = bucket_and_prefix(input.skip("s3://"@.len() as int));
        if bucket.len() == 0 {
            Err("s3 URL is missing a bucket name: "@ + input)
        } else {
            Ok(StoreSpecModel::S3 { bucket, prefix })
        }
    } else if text::contains_text(input, "://"@) {
        Err(
            "unsupported URL scheme `"@ + scheme_of(input) + "://` in "@ + input
                + "; rustytree currently supports `file://` and `s3://` only"@,
        )
    } else {
        Ok(StoreSpecModel::Local(input))
    }
}

/// The scheme ends at the first `://`.
proof fn lemma_scheme(s: Seq<char>, i: int)
    requires
        text::first_at(s, "://"@, i),
    ensures
        scheme_of(s) == s.take(i),
    decreases i,
{
    let mark = "://"@;
    if i == 0 {
        assert(s.take(mark.len() as int) =~= s.subrange(0, mark.len() as int));
        assert(s.take(0) =~= Seq::<char>::empty());
    } else {
        let rest = s.skip(1);
        assert(!text::occurs_at(s, mark, 0));
        assert(s.take(mark.len() as int) =~= s.subrange(0, mark.len() as int));
        assert(rest.subrange(i - 1, i - 1 + mark.len()) =~= s.subrange(i, i + mark.len()));
        assert forall|j: int| 0 <= j < i - 1 implies !#[trigger] text::occurs_at(rest, mark, j) by {
            assert(!text::occurs_at(s, mark, j + 1));
            if text::occurs_at(rest, mark, j) {
                assert(rest.subrange(j, j + mark.len()) =~= s.subrange(j + 1, j + 1 + mark.len()));
            }
        }
        lemma_scheme(rest, i - 1);
        reveal_strlit("://");
        assert(s.take(i) =~= seq![s[0]] + rest.take(i - 1));
    }
}

/// What follows `prefix` in `s`, if `s` begins with it.
fn after_prefix(s: &str, prefix: &str) -> (r: Option<String>)
    ensures
        match r {
            Some(rest) => text::starts_with(s@, prefix@) && rest@ == s@.skip(prefix@.len() as int),
            None => !text::starts_with(s@, prefix@),
        },
{
    let cs: Vec<char> = text::chars_of(s);
    let ps: Vec<char> = text::chars_of(prefix);
    proof {
        if ps@.len() <= cs@.len() {
            assert(cs@.take(ps@.len() as int) =~= cs@.subrange(0, ps@.len() as int));
            assert(s@.skip(ps@.len() as int) =~= s@.subrange(ps@.len() as int, s@.len() as int));
        }
    }
    if text::stands_at(&cs, &ps, 0) {
        Some(s.substring_char(ps.len(), cs.len()).to_owned())
    } else {
        None
    }
}

/// Parse the `path` argument into a [`StoreSpec`].
///
/// Supported inputs:
/// - bare paths: `/abs/path`, `relative/path`
/// - `file://` URLs: `file:///abs/path`
/// - `s3://` URLs: `s3://bucket`, `s3://bucket/prefix/store.zarr`
///
/// Other schemes are refused.
pub fn parse_store_spec(input: &str) -> (r: Result<StoreSpec, RustytreeError>)
    ensures
        match r {
            Ok(spec) => store_spec_of(input@) == Ok::<StoreSpecModel, Seq<char>>(spec@),
            Err(RustytreeError::InvalidInput(m)) => store_spec_of(input@) == Err::<
                StoreSpecModel,
                Seq<char>,
            >(m@),
            Err(_) => false,
        },
{
    match after_prefix(input, "file://") {
        Some(rest) => {
            return Ok(StoreSpec::Local(rest));
        },
        None => {},
    }
    match after_prefix(input, "s3://") {
        Some(rest) => {
            let bucket: String = text::text_until(rest.as_str(), '/');
            let bucket_len: usize = text::chars_of(bucket.as_str()).len();
            let rest_len: usize = text::chars_of(rest.as_str()).len();
            proof {
                text::lemma_until_is_prefix(rest@, '/');
            }
            let prefix: String = if bucket_len == rest_len {
                String::new()
            } else {
                assert(rest@.skip(bucket@.len() as int + 1) =~= rest@.subrange(
                    bucket@.len() as int + 1,
                    rest@.len() as int,
                ));
                text::trimmed(rest.as_str().substring_char(bucket_len + 1, rest_len), '/')
            };
            if bucket_len == 0 {
                return Err(
                    RustytreeError::InvalidInput(
                        text::joined("s3 URL is missing a bucket name: ", input),
                    ),
                );
            }
            return Ok(StoreSpec::S3 { bucket, prefix });
        },
        None => {},
    }
    let cs: Vec<char> = text::chars_of(input);
    let mark: Vec<char> = text::chars_of("://");
    match text::find_between(&cs, &mark, 0, cs.len()) {
        Some(i) => {
            proof {
                lemma_scheme(input@, i as int);
                assert(text::occurs_at(input@, "://"@, i as int));
                assert(input@.take(i as int) =~= input@.subrange(0, i as int));
            }
            let mut m: String = "unsupported URL scheme `".to_owned();
            m.append(input.substring_char(0, i));
            m.append("://` in ");
            m.append(input);
            m.append("; rustytree currently supports `file://` and `s3://` only");
            Err(RustytreeError::InvalidInput(m))
        },
        None => {
            proof {
                assert forall|i: int| !#[trigger] text::occurs_at(input@, "://"@, i) by {
                    if text::occurs_at(input@, "://"@, i) {
                        assert(0 <= i);
                    }
                }
            }
            Ok(StoreSpec::Local(input.to_owned()))
        },
    }
}

// ---------------------------------------------------------------------------
// Laws
// ---------------------------------------------------------------------------

/// No slash stands at either end of `s`.
pub open spec fn has_no_outer_slash(s: Seq<char>) -> bool {
    s.len() > 0 ==> s[0] != '/' && s.last() != '/'
}

/// Trimming leaves no slash at either end, and a text without one as it is.
proof fn lemma_trimmed(s: Seq<char>)
    ensures
        has_no_outer_slash(without_outer_slashes(s)),
        has_no_outer_slash(s) ==> without_outer_slashes(s) == s,
    decreases s.len(),
{
    let start = text::trim_start(s, '/');
    lemma_trimmed_start(s);
    lemma_trimmed_end(start);
}

proof fn lemma_trimmed_start(s: Seq<char>)
    ensures
        text::trim_start(s, '/').len() > 0 ==> text::trim_start(s, '/')[0] != '/',
    decreases s.len(),
{
    if s.len() > 0 && s[0] == '/' {
        lemma_trimmed_start(s.skip(1));
    }
}

proof fn lemma_trimmed_end(s: Seq<char>)
    ensures
        text::trim_end(s, '/').len() <= s.len(),
        text::trim_end(s, '/') == s.take(text::trim_end(s, '/').len() as int),
        text::trim_end(s, '/').len() > 0 ==> text::trim_end(s, '/').last() != '/',
    decreases s.len(),
{
    if s.len() > 0 && s.last() == '/' {
        lemma_trimmed_end(s.drop_last());
        let k = text::trim_end(s, '/').len() as int;
        assert(s.drop_last().take(k) =~= s.take(k));
    } else {
        assert(s.take(s.len() as int) =~= s);
    }
}

/// The URL of a bucket and a prefix means that bucket and that prefix.
pub proof fn law_s3_url_is_read_back(bucket: Seq<char>, prefix: Seq<char>)
    requires
        bucket.len() > 0,
        !bucket.contains('/'),
        has_no_outer_slash(prefix),
    ensures
        store_spec_of(store::s3_url_of(bucket, prefix)) == Ok::<StoreSpecModel, Seq<char>>(
            StoreSpecModel::S3 { bucket, prefix },
        ),
{
    let url = store::s3_url_of(bucket, prefix);
    let head = "s3://"@;
    reveal_strlit("s3://");
    reveal_strlit("file://");
    reveal_strlit("/");
    assert(url[0] == 's');
    assert(!text::starts_with(url, "file://"@)) by {
        if text::starts_with(url, "file://"@) {
            assert(url.take("file://"@.len() as int)[0] == url[0]);
        }
    }
    assert(url.take(head.len() as int) =~= head);
    let rest = url.skip(head.len() as int);
    if prefix.len() == 0 {
        assert(rest =~= bucket);
        assert forall|j: int| 0 <= j < bucket.len() implies rest[j] != '/' by {
            assert(bucket.contains(bucket[j]));
        }
        text::lemma_until(rest, '/', bucket.len() as int);
        assert(rest.take(bucket.len() as int) =~= bucket);
        assert(prefix =~= Seq::<char>::empty());
    } else {
        assert(rest =~= bucket + "/"@ + prefix);
        assert forall|j: int| 0 <= j < bucket.len() implies rest[j] != '/' by {
            assert(rest[j] == bucket[j]);
            assert(bucket.contains(bucket[j]));
        }
        assert(rest[bucket.len() as int] == '/');
        text::lemma_until(rest, '/', bucket.len() as int);
        assert(rest.take(bucket.len() as int) =~= bucket);
        assert(rest.skip(bucket.len() as int + 1) =~= prefix);
        lemma_trimmed(prefix);
    }
}

/// A bucket has a name without slashes, and a prefix no slash at either end.
pub proof fn law_bucket_and_prefix_are_clean(input: Seq<char>)
    ensures
        store_spec_of(input) matches Ok(StoreSpecModel::S3 { bucket, prefix }) ==> bucket.len() > 0
            && !bucket.contains('/') && has_no_outer_slash(prefix),
{
    let rest = input.skip("s3://"@.len() as int);
    text::lemma_until_is_prefix(rest, '/');
    lemma_trimmed(rest.skip(text::until(rest, '/').len() as int + 1));
}

/// A `file://` URL means the path in it.
pub proof fn law_file_url_is_its_path(path: Seq<char>)
    ensures
        store_spec_of("file://"@ + path) == Ok::<StoreSpecModel, Seq<char>>(
            StoreSpecModel::Local(path),
        ),
{
    text::lemma_prefix_of_join("file://"@, path);
}

/// What has no `://` in it is a path.
pub proof fn law_text_without_scheme_is_a_path(input: Seq<char>)
    requires
        !text::contains_text(input, "://"@),
    ensures
        store_spec_of(input) == Ok::<StoreSpecModel, Seq<char>>(StoreSpecModel::Local(input)),
{
    reveal_strlit("://");
    reveal_strlit("s3://");
    reveal_strlit("file://");
    if text::starts_with(input, "file://"@) {
        let head = input.take("file://"@.len() as int);
        assert(input.subrange(4, 7) =~= "://"@) by {
            assert(head[4] == input[4] && head[5] == input[5] && head[6] == input[6]);
        }
        assert(text::occurs_at(input, "://"@, 4));
    }
    if text::starts_with(input, "s3://"@) {
        let head = input.take("s3://"@.len() as int);
        assert(input.subrange(2, 5) =~= "://"@) by {
            assert(head[2] == input[2] && head[3] == input[3] && head[4] == input[4]);
        }
        assert(text::occurs_at(input, "://"@, 2));
    }
}

/// Only `file://` and `s3://` URLs are taken.
pub proof fn law_other_schemes_are_refused(input: Seq<char>)
    requires
        text::contains_text(input, "://"@),
        !text::starts_with(input, "file://"@),
        !text::starts_with(input, "s3://"@),
    ensures
        store_spec_of(input) is Err,
{
}

/// That many slashes.
pub open spec fn slashes(n: nat) -> Seq<char> {
    Seq::new(n, |i: int| '/')
}

/// An `s3://` URL means the bucket before its first slash and the prefix after
/// it; slashes around the prefix count for nothing.
pub proof fn law_s3_url_means_its_bucket_and_prefix(
    bucket: Seq<char>,
    before: nat,
    prefix: Seq<char>,
    after: nat,
)
    requires
        bucket.len() > 0,
        !bucket.contains('/'),
        prefix.len() > 0 ==> prefix[0] != '/' && prefix.last() != '/',
    ensures
        store_spec_of("s3://"@ + bucket) == Ok::<StoreSpecModel, Seq<char>>(
            StoreSpecModel::S3 { bucket, prefix: Seq::empty() },
        ),
        store_spec_of("s3://"@ + bucket + slashes(before + 1) + prefix + slashes(after)) == Ok::<
            StoreSpecModel,
            Seq<char>,
        >(StoreSpecModel::S3 { bucket, prefix }),
{
    let head = "s3://"@;
    let short = head + bucket;
    assert(head + (bucket + Seq::<char>::empty()) =~= short);
    lemma_s3_rest(bucket);
    lemma_not_a_file(bucket);
    assert forall|j: int| 0 <= j < bucket.len() implies bucket[j] != '/' by {
        assert(bucket.contains(bucket[j]));
    }
    text::lemma_until(bucket, '/', bucket.len() as int);
    assert(bucket.take(bucket.len() as int) =~= bucket);
    let tail = slashes(before + 1) + prefix + slashes(after);
    let rest = bucket + tail;
    let long = head + bucket + slashes(before + 1) + prefix + slashes(after);
    assert(long =~= head + rest);
    lemma_s3_rest(rest);
    lemma_not_a_file(rest);
    assert forall|j: int| 0 <= j < bucket.len() implies rest[j] != '/' by {
        assert(rest[j] == bucket[j]);
    }
    assert(rest[bucket.len() as int] == '/');
    text::lemma_until(rest, '/', bucket.len() as int);
    assert(rest.take(bucket.len() as int) =~= bucket);
    let inner = rest.skip(bucket.len() as int + 1);
    assert(inner =~= slashes(before) + prefix + slashes(after));
    if prefix.len() == 0 {
        text::lemma_trim_start(inner, '/', inner.len() as int);
        assert(inner.skip(inner.len() as int) =~= Seq::<char>::empty());
        assert(without_outer_slashes(inner) =~= prefix);
    } else {
        assert(inner[before as int] == prefix[0]);
        text::lemma_trim_start(inner, '/', before as int);
        let kept = inner.skip(before as int);
        assert(kept =~= prefix + slashes(after));
        assert(kept[prefix.len() - 1] == prefix.last());
        text::lemma_trim_end(kept, '/', prefix.len() as int);
        assert(kept.take(prefix.len() as int) =~= prefix);
    }
}

proof fn lemma_s3_rest(rest: Seq<char>)
    ensures
        text::starts_with("s3://"@ + rest, "s3://"@),
        ("s3://"@ + rest).skip("s3://"@.len() as int) == rest,
{
    text::lemma_prefix_of_join("s3://"@, rest);
}

proof fn lemma_not_a_file(rest: Seq<char>)
    ensures
        !text::starts_with("s3://"@ + rest, "file://"@),
{
    let url = "s3://"@ + rest;
    reveal_strlit("s3://");
    reveal_strlit("file://");
    assert(url[0] == 's');
    if text::starts_with(url, "file://"@) {
        assert(url.take("file://"@.len() as int)[0] == url[0]);
    }
}

/// An `s3://` URL without a bucket is refused, with the URL in the message.
pub proof fn law_s3_url_needs_a_bucket(rest: Seq<char>)
    requires
        rest.len() == 0 || rest[0] == '/',
    ensures
        store_spec_of("s3://"@ + rest) == Err::<StoreSpecModel, Seq<char>>(
            "s3 URL is missing a bucket name: "@ + ("s3://"@ + rest),
        ),
{
    lemma_s3_rest(rest);
    lemma_not_a_file(rest);
    text::lemma_until(rest, '/', 0);
    assert(rest.take(0) =~= Seq::<char>::empty());
}

/// A URL of another scheme is refused, and the message names the scheme, which is
/// what stands before the first `://`.
pub proof fn law_refused_scheme_is_named(scheme: Seq<char>, rest: Seq<char>)
    requires
        scheme != "file"@,
        scheme != "s3"@,
        forall|i: int|
            0 <= i < scheme.len() ==> !#[trigger] text::occurs_at(
                scheme + "://"@ + rest,
                "://"@,
                i,
            ),
    ensures
        store_spec_of(scheme + "://"@ + rest) == Err::<StoreSpecModel, Seq<char>>(
            "unsupported URL scheme `"@ + scheme + "://` in "@ + (scheme + "://"@ + rest)
                + "; rustytree currently supports `file://` and `s3://` only"@,
        ),
{
    let mark = "://"@;
    let input = scheme + mark + rest;
    reveal_strlit("://");
    reveal_strlit("s3://");
    reveal_strlit("file://");
    reveal_strlit("s3");
    reveal_strlit("file");
    text::law_parts_are_found(scheme, mark, rest);
    lemma_scheme(input, scheme.len() as int);
    assert(input.take(scheme.len() as int) =~= scheme);
    if text::starts_with(input, "file://"@) {
        let head = input.take(7);
        assert(head == "file://"@);
        assert(head[0] == input[0] && head[1] == input[1] && head[2] == input[2] && head[3]
            == input[3] && head[4] == input[4] && head[5] == input[5] && head[6] == input[6]);
        assert(input.subrange(4, 7) =~= mark);
        assert(text::occurs_at(input, mark, 4));
        assert(scheme.len() <= 4);
        lemma_mark_stands_alone(input, scheme.len() as int, 4);
        assert(scheme =~= "file"@);
    }
    if text::starts_with(input, "s3://"@) {
        let head = input.take(5);
        assert(head == "s3://"@);
        assert(head[0] == input[0] && head[1] == input[1] && head[2] == input[2] && head[3]
            == input[3] && head[4] == input[4]);
        assert(input.subrange(2, 5) =~= mark);
        assert(text::occurs_at(input, mark, 2));
        assert(scheme.len() <= 2);
        lemma_mark_stands_alone(input, scheme.len() as int, 2);
        assert(scheme =~= "s3"@);
    }
}

/// Before the `://` of `file://` and `s3://` stands none.
proof fn lemma_mark_stands_alone(input: Seq<char>, i: int, at: int)
    requires
        text::occurs_at(input, "://"@, i),
        text::occurs_at(input, "://"@, at),
        i <= at <= 4,
        forall|k: int| 0 <= k < at ==> input[k] != ':',
    ensures
        i == at,
{
    reveal_strlit("://");
    assert(input.subrange(i, i + 3)[0] == input[i]);
    assert("://"@[0] == ':');
}

/// The view of a store keeps its path, or its bucket and prefix.
pub proof fn law_store_keeps_its_texts(path: String, bucket: String, prefix: String)
    ensures
        StoreSpec::Local(path)@ == StoreSpecModel::Local(path@),
        (StoreSpec::S3 { bucket, prefix })@ == (StoreSpecModel::S3 {
            bucket: bucket@,
            prefix: prefix@,
        }),
{
}

} // verus!
