//! Metadata walk over the groups of a Zarr v3 hierarchy.
//!
//! Two walks lead to the same result, one [`NodeData`] per group. The snapshot
//! walk ([`crate::snapshot`]) assembles it from the node list of an icechunk
//! snapshot. The generic walk opens one group at a time, and what it finds is
//! put together here. Values of small self-named coordinates are read ahead in
//! either case; which ones, and where they go, is settled here too.

use crate::array::ReadError;
use crate::attrs;
use crate::error::{FailureKind, RustytreeError};
use crate::glob;
use crate::glob::GlobPredicate;
use crate::node;
use crate::node::{NodeData, VarMeta};
use crate::text;
use crate::zarr::ArrayFacts;
use serde_json::Value;
use vstd::prelude::*;
use vstd::string::*;

verus! {

// ---------------------------------------------------------------------------
// Paths
// ---------------------------------------------------------------------------

/// A path without the slashes at its end; the root where nothing else is left.
pub open spec fn normalized(path: Seq<char>) -> Seq<char> {
    let kept = text::trim_end(path, '/');
    if kept.len() == 0 {
        seq!['/']
    } else {
        kept
    }
}

/// The path of the group that a node is in. The root is in itself, and so is
/// what has no slash before its name.
pub open spec fn parent(path: Seq<char>) -> Seq<char> {
    match text::before_last(path, '/') {
        Some(before) => if before.len() == 0 {
            seq!['/']
        } else {
            before
        },
        None => seq!['/'],
    }
}

/// The text of the root path.
fn root_text() -> (r: String)
    ensures
        r@ == seq!['/'],
{
    proof {
        reveal_strlit("/");
        assert("/"@ =~= seq!['/']);
    }
    "/".to_owned()
}

/// Strip the trailing slashes from a non-root path, so that two equivalent
/// shapes (`/foo` and `/foo/`) compare equal. Empty input is treated as root.
pub fn normalize_path(path: &str) -> (r: String)
    ensures
        r@ == normalized(path@),
{
    let cs: Vec<char> = text::chars_of(path);
    let mut k: usize = cs.len();
    while k > 0 && cs[k - 1] == '/'
        invariant
            cs@ == path@,
            k <= cs.len(),
            forall|j: int| k <= j < cs.len() ==> path@[j] == '/',
        decreases k,
    {
        k -= 1;
    }
    proof {
        text::lemma_trim_end(path@, '/', k as int);
        assert(path@.subrange(0, k as int) =~= path@.take(k as int));
    }
    if k == 0 {
        return root_text();
    }
    path.substring_char(0, k).to_owned()
}

/// The parent directory of an absolute Zarr path. The root's parent is the root
/// itself.
pub fn parent_of(path: &str) -> (r: String)
    ensures
        r@ == parent(path@),
{
    match text::split_last(path, '/').0 {
        Some(before) => {
            if before.as_str().is_empty() {
                root_text()
            } else {
                before
            }
        },
        None => root_text(),
    }
}

// ---------------------------------------------------------------------------
// The generic walk
// ---------------------------------------------------------------------------

/// The compiled pattern, where there is one, lets the walk pass at `path`.
pub open spec fn visits(pattern: Option<Option<Seq<Seq<char>>>>, path: Seq<char>) -> bool {
    match pattern {
        Some(segments) => glob::may_match_below(segments, path),
        None => true,
    }
}

/// What a pattern was compiled to.
pub open spec fn compiled_view(pattern: Option<&GlobPredicate>) -> Option<Option<Seq<Seq<char>>>> {
    match pattern {
        Some(p) => Some(p@),
        None => None,
    }
}

/// Whether the walk goes on at the group at `path`.
pub fn visits_group(pattern: Option<&GlobPredicate>, path: &str) -> (r: bool)
    ensures
        r == visits(compiled_view(pattern), path@),
{
    match pattern {
        Some(p) => p.could_descendant_match(path),
        None => true,
    }
}

/// A group with the groups below it, as a store has them.
pub struct GroupTree {
    pub path: Seq<char>,
    pub children: Seq<GroupTree>,
}

/// The paths that a walk down the tree comes to: each group before those in it,
/// and groups side by side in their order. It turns back where the pattern
/// tells that no match can follow.
pub open spec fn preorder(tree: GroupTree, pattern: Option<Option<Seq<Seq<char>>>>) -> Seq<
    Seq<char>,
>
    decreases tree,
{
    if visits(pattern, tree.path) {
        seq![tree.path] + preorder_of_all(tree.children, pattern)
    } else {
        Seq::<Seq<char>>::empty()
    }
}

/// The paths that walks down the trees come to, one tree after another.
pub open spec fn preorder_of_all(
    trees: Seq<GroupTree>,
    pattern: Option<Option<Seq<Seq<char>>>>,
) -> Seq<Seq<char>>
    decreases trees,
{
    if trees.len() == 0 {
        Seq::<Seq<char>>::empty()
    } else {
        preorder_of_all(trees.drop_last(), pattern) + preorder(trees.last(), pattern)
    }
}

/// The lists one after another.
pub open spec fn concatenated(lists: Seq<Vec<String>>) -> Seq<Seq<char>>
    decreases lists.len(),
{
    if lists.len() == 0 {
        Seq::<Seq<char>>::empty()
    } else {
        concatenated(lists.drop_last()) + text::texts(lists.last()@)
    }
}

/// The paths found at a group and below it, from what was found at each of the
/// groups in it: the group comes first, so that parents come before children.
pub fn in_preorder(path: String, found: Vec<Vec<String>>) -> (r: Vec<String>)
    ensures
        text::texts(r@) == seq![path@] + concatenated(found@),
{
    let ghost root = path@;
    let mut out: Vec<String> = Vec::new();
    out.push(path);
    let mut i: usize = 0;
    proof {
        assert(found@.take(0) =~= Seq::<Vec<String>>::empty());
        assert(text::texts(out@) =~= seq![root] + concatenated(found@.take(0)));
    }
    while i < found.len()
        invariant
            i <= found.len(),
            text::texts(out@) == seq![root] + concatenated(found@.take(i as int)),
        decreases found.len() - i,
    {
        let ghost before = out@;
        let mut k: usize = 0;
        proof {
            assert(text::texts(found@[i as int]@.take(0)) =~= Seq::<Seq<char>>::empty());
            assert(text::texts(before) + Seq::<Seq<char>>::empty() =~= text::texts(before));
        }
        while k < found[i].len()
            invariant
                i < found.len(),
                k <= found@[i as int]@.len(),
                text::texts(out@) == text::texts(before) + text::texts(
                    found@[i as int]@.take(k as int),
                ),
            decreases found@[i as int]@.len() - k,
        {
            let ghost so_far = out@;
            out.push(found[i][k].clone());
            proof {
                let list = found@[i as int]@;
                assert(list.take(k + 1) =~= list.take(k as int).push(list[k as int]));
                assert(text::texts(list.take(k + 1)) =~= text::texts(list.take(k as int)).push(
                    list[k as int]@,
                ));
                assert(text::texts(out@) =~= text::texts(so_far).push(list[k as int]@));
                assert(text::texts(out@) =~= text::texts(before) + text::texts(list.take(k + 1)));
            }
            k += 1;
        }
        proof {
            let list = found@[i as int]@;
            assert(list.take(list.len() as int) =~= list);
            assert(found@.take(i + 1).drop_last() =~= found@.take(i as int));
            assert(found@.take(i + 1).last() == found@[i as int]);
            assert(text::texts(out@) =~= seq![root] + concatenated(found@.take(i + 1)));
        }
        i += 1;
    }
    proof {
        assert(found@.take(found@.len() as int) =~= found@);
    }
    out
}

/// The node for a group that was opened, from its attributes and arrays.
pub fn group_node<E>(
    path: &str,
    attributes: &Vec<(String, Value)>,
    vars: Vec<VarMeta<E>>,
) -> (r: NodeData<E>)
    ensures
        r.path@ == path@,
        attrs::is_attr_map_of(r.attrs@, attrs::entries_model(attributes@)),
        r.vars == vars,
{
    NodeData { path: path.to_owned(), attrs: attrs::clone_attrs(attributes), vars }
}

/// How many groups may be opened at once: 32 unless the caller sets a number,
/// and always one at least.
pub open spec fn permits_of(max_concurrency: Option<usize>) -> int {
    match max_concurrency {
        Some(n) => if n == 0 {
            1
        } else {
            n as int
        },
        None => 32,
    }
}

/// How many groups may be opened at once.
pub fn permits(max_concurrency: Option<usize>) -> (r: usize)
    ensures
        r == permits_of(max_concurrency),
{
    match max_concurrency {
        Some(n) => {
            if n == 0 {
                1
            } else {
                n
            }
        },
        None => 32,
    }
}

/// What a walk was doing when a store failed it.
#[derive(Debug, Clone, Copy, PartialEq, Eq, Structural)]
pub enum WalkStep {
    /// Opening a group to read its metadata.
    OpenGroup,
    /// Listing the arrays of a group.
    ListArrays,
    /// Opening a group to find the groups in it.
    DiscoverGroup,
    /// Listing the groups of a group.
    ListGroups,
    /// Opening an array.
    OpenArray,
    /// Asking a session for its nodes.
    ListNodes,
    /// Reading the nodes of a session.
    EnumerateNodes,
    /// Waiting for arrays to be built.
    JoinArrayBuild,
}

/// The message for a walk that failed at `path`.
pub open spec fn step_failure(step: WalkStep, path: Seq<char>, err: Seq<char>) -> Seq<char> {
    match step {
        WalkStep::OpenGroup => "failed to open group "@ + path + ": "@ + err,
        WalkStep::ListArrays => "failed to list arrays in "@ + path + ": "@ + err,
        WalkStep::DiscoverGroup => "failed to open group "@ + path + " during walk: "@ + err,
        WalkStep::ListGroups => "failed to list child groups in "@ + path + ": "@ + err,
        WalkStep::OpenArray => "failed to open array "@ + path + ": "@ + err,
        WalkStep::ListNodes => "icechunk: list_nodes("@ + path + ") failed: "@ + err,
        WalkStep::EnumerateNodes => "icechunk: snapshot enumeration failed"@ + ": "@ + err,
        WalkStep::JoinArrayBuild => "icechunk: array build join failed"@ + ": "@ + err,
    }
}

/// The error for a walk that a store failed at `path`.
pub fn walk_error(step: WalkStep, kind: FailureKind, path: &str, err: &str) -> (r: RustytreeError)
    ensures
        crate::error::is_failure(r, kind, path@, step_failure(step, path@, err@)),
{
    let mut m: String = match step {
        WalkStep::OpenGroup => text::joined("failed to open group ", path),
        WalkStep::ListArrays => text::joined("failed to list arrays in ", path),
        WalkStep::DiscoverGroup => text::joined("failed to open group ", path),
        WalkStep::ListGroups => text::joined("failed to list child groups in ", path),
        WalkStep::OpenArray => text::joined("failed to open array ", path),
        WalkStep::ListNodes => text::joined("icechunk: list_nodes(", path),
        WalkStep::EnumerateNodes => "icechunk: snapshot enumeration failed".to_owned(),
        WalkStep::JoinArrayBuild => "icechunk: array build join failed".to_owned(),
    };
    match step {
        WalkStep::DiscoverGroup => m.append(" during walk: "),
        WalkStep::ListNodes => m.append(") failed: "),
        _ => m.append(": "),
    }
    m.append(err);
    crate::error::failure(kind, path, m)
}

/// Passes the nodes of a walk on where the group that was asked for is among
/// them, and refuses them by the name of the group where it is not.
pub fn require_group<E>(nodes: Vec<NodeData<E>>, group: &str) -> (r: Result<
    Vec<NodeData<E>>,
    RustytreeError,
>)
    ensures
        match r {
            Ok(v) => v == nodes && node::has_node(nodes@, normalized(group@)),
            Err(e) => {
                &&& !node::has_node(nodes@, normalized(group@))
                &&& e matches RustytreeError::NotFound(m)
                &&& m@ == group@
            },
        },
{
    let wanted: String = normalize_path(group);
    let mut i: usize = 0;
    while i < nodes.len()
        invariant
            wanted@ == normalized(group@),
            i <= nodes.len(),
            forall|j: int| 0 <= j < i ==> (#[trigger] nodes@[j]).path@ != wanted@,
        decreases nodes.len() - i,
    {
        if text::same_text(nodes[i].path.as_str(), wanted.as_str()) {
            assert(nodes@[i as int].path@ == normalized(group@));
            return Ok(nodes);
        }
        i += 1;
    }
    Err(RustytreeError::NotFound(group.to_owned()))
}

// ---------------------------------------------------------------------------
// Values read ahead
// ---------------------------------------------------------------------------

/// Cap on the number of elements read ahead of use: larger coordinates stay
/// lazy.
pub const EAGER_FETCH_MAX_ELEMENTS: u64 = 1_048_576;

/// The values of `var` are read ahead of use: it is a coordinate along the axis
/// of its own name, and has no more elements than the cap.
pub open spec fn is_read_ahead<E>(var: VarMeta<E>) -> bool {
    &&& crate::array::product(var.shape@) <= EAGER_FETCH_MAX_ELEMENTS
    &&& text::texts(var.dims@) == seq![var.name@]
}

/// Decide whether the values of a variable are read during the walk rather than
/// when they are asked for.
///
/// They are for one-dimensional coordinates named like their axis: whoever opens
/// the tree builds an index from these for every group, and reads them for it.
/// A variable with more than [`EAGER_FETCH_MAX_ELEMENTS`] elements is left.
pub fn should_eager_fetch<E>(var: &VarMeta<E>) -> (r: bool)
    ensures
        r == is_read_ahead(*var),
{
    if crate::array::element_count(var.shape.as_slice(), EAGER_FETCH_MAX_ELEMENTS).is_none() {
        return false;
    }
    if var.dims.len() != 1 {
        assert(text::texts(var.dims@).len() != 1);
        return false;
    }
    let same: bool = text::same_text(var.dims[0].as_str(), var.name.as_str());
    proof {
        assert(text::texts(var.dims@)[0] == var.dims@[0]@);
        if same {
            assert(text::texts(var.dims@) =~= seq![var.name@]);
        }
    }
    same
}

/// Variable `v` of node `n` is there.
pub open spec fn has_var<E>(nodes: Seq<NodeData<E>>, n: int, v: int) -> bool {
    0 <= n < nodes.len() && 0 <= v < nodes[n].vars@.len()
}

/// The first pair comes before the second: by node, and in one node by variable.
pub open spec fn pair_lt(a: (usize, usize), b: (usize, usize)) -> bool {
    a.0 < b.0 || a.0 == b.0 && a.1 < b.1
}

/// Variable `v` of node `n` is among the pairs.
pub open spec fn has_pair(pairs: Seq<(usize, usize)>, n: int, v: int) -> bool {
    exists|i: int|
        0 <= i < pairs.len() && (#[trigger] pairs[i]).0 == n && pairs[i].1 == v
}

/// `pairs` are the variables of nodes before `n`, and of node `n` those before
/// `v`, whose values are read ahead, in their order.
pub open spec fn are_read_ahead_until<E>(
    pairs: Seq<(usize, usize)>,
    nodes: Seq<NodeData<E>>,
    n: int,
    v: int,
) -> bool {
    &&& forall|i: int|
        0 <= i < pairs.len() ==> {
            let at = #[trigger] pairs[i];
            has_var(nodes, at.0 as int, at.1 as int) && is_read_ahead(
                nodes[at.0 as int].vars@[at.1 as int],
            ) && (at.0 < n || at.0 == n && at.1 < v)
        }
    &&& forall|i: int, j: int|
        0 <= i < j < pairs.len() ==> pair_lt(#[trigger] pairs[i], #[trigger] pairs[j])
    &&& forall|m: int, u: int|
        has_var(nodes, m, u) && is_read_ahead(#[trigger] nodes[m].vars@[u]) && (m < n || m == n
            && u < v) ==> has_pair(pairs, m, u)
}

/// `pairs` are the variables whose values are read ahead, in the order of the
/// nodes and of the variables in each.
pub open spec fn are_read_ahead<E>(pairs: Seq<(usize, usize)>, nodes: Seq<NodeData<E>>) -> bool {
    are_read_ahead_until(pairs, nodes, nodes.len() as int, 0)
}

/// The variables whose values are read ahead: the places of their nodes, and
/// their places there.
pub fn eager_plan<E>(nodes: &Vec<NodeData<E>>) -> (r: Vec<(usize, usize)>)
    ensures
        are_read_ahead(r@, nodes@),
{
    let mut out: Vec<(usize, usize)> = Vec::new();
    let mut n: usize = 0;
    while n < nodes.len()
        invariant
            n <= nodes.len(),
            are_read_ahead_until(out@, nodes@, n as int, 0),
        decreases nodes.len() - n,
    {
        let mut v: usize = 0;
        while v < nodes[n].vars.len()
            invariant
                n < nodes.len(),
                v <= nodes@[n as int].vars@.len(),
                are_read_ahead_until(out@, nodes@, n as int, v as int),
            decreases nodes@[n as int].vars@.len() - v,
        {
            let ghost before = out@;
            if should_eager_fetch(&nodes[n].vars[v]) {
                out.push((n, v));
                proof {
                    assert forall|m: int, u: int|
                        has_var(nodes@, m, u) && is_read_ahead(#[trigger] nodes@[m].vars@[u]) && (m
                            < n || m == n && u < v + 1) implies has_pair(out@, m, u) by {
                        if m == n && u == v {
                            assert(out@[before.len() as int] == (n, v));
                        } else {
                            assert(has_pair(before, m, u));
                            let i = choose|i: int|
                                0 <= i < before.len() && (#[trigger] before[i]).0 == m
                                    && before[i].1 == u;
                            assert(out@[i] == before[i]);
                        }
                    }
                }
            }
            v += 1;
        }
        n += 1;
    }
    out
}

/// The values of variable `v` of node `n` after the results, from what they were
/// before: the last result for it that has values, where there is one.
pub open spec fn eager_after<E>(
    results: Seq<(usize, usize, Option<E>)>,
    n: int,
    v: int,
    before: Option<E>,
) -> Option<E>
    decreases results.len(),
{
    if results.len() == 0 {
        before
    } else {
        let last = results.last();
        if last.0 == n && last.1 == v && last.2 is Some {
            last.2
        } else {
            eager_after(results.drop_last(), n, v, before)
        }
    }
}

/// The two variables differ at most in the values read ahead.
pub open spec fn same_but_eager<E>(a: VarMeta<E>, b: VarMeta<E>) -> bool {
    &&& a.name == b.name
    &&& a.dims == b.dims
    &&& a.dtype == b.dtype
    &&& a.shape == b.shape
    &&& a.attrs == b.attrs
    &&& a.array == b.array
}

/// `after` is `before` with the values that the results have.
pub open spec fn has_results<E>(
    after: Seq<NodeData<E>>,
    before: Seq<NodeData<E>>,
    results: Seq<(usize, usize, Option<E>)>,
) -> bool {
    &&& after.len() == before.len()
    &&& forall|n: int|
        0 <= n < after.len() ==> {
            &&& (#[trigger] after[n]).path == before[n].path
            &&& after[n].attrs == before[n].attrs
            &&& after[n].vars@.len() == before[n].vars@.len()
        }
    &&& forall|n: int, v: int|
        has_var(before, n, v) ==> {
            &&& same_but_eager(#[trigger] after[n].vars@[v], before[n].vars@[v])
            &&& after[n].vars@[v].eager == eager_after(results, n, v, before[n].vars@[v].eager)
        }
}

/// Puts the values that were read into their variables. A variable whose values
/// could not be read stays as it is.
pub fn eager_apply<E>(nodes: &mut Vec<NodeData<E>>, results: Vec<(usize, usize, Option<E>)>)
    requires
        forall|i: int|
            0 <= i < results@.len() ==> has_var(
                old(nodes)@,
                (#[trigger] results@[i]).0 as int,
                results@[i].1 as int,
            ),
    ensures
        has_results(final(nodes)@, old(nodes)@, results@),
{
    let ghost all = results@;
    let ghost start = nodes@;
    let mut left: Vec<(usize, usize, Option<E>)> = results;
    let ghost mut d: int = 0;
    proof {
        assert(all.skip(0) =~= all);
        assert(all.take(0) =~= Seq::<(usize, usize, Option<E>)>::empty());
    }
    while left.len() > 0
        invariant
            0 <= d <= all.len(),
            left@ == all.skip(d),
            forall|i: int|
                0 <= i < all.len() ==> has_var(
                    start,
                    (#[trigger] all[i]).0 as int,
                    all[i].1 as int,
                ),
            has_results(nodes@, start, all.take(d)),
        decreases left.len(),
    {
        let (n, v, values) = left.remove(0);
        let ghost before = nodes@;
        let ghost values_read = values;
        proof {
            assert(all.skip(d)[0] == all[d]);
            assert(all.skip(d).remove(0) =~= all.skip(d + 1));
            assert(has_var(start, all[d].0 as int, all[d].1 as int));
        }
        if values.is_some() {
            nodes[n].vars[v].eager = values;
        }
        proof {
            let more = all.take(d + 1);
            assert(more.drop_last() =~= all.take(d));
            assert(more.last() == all[d]);
            d = d + 1;
        }
    }
    proof {
        assert(all.skip(d).len() == all.len() - d);
        assert(all.take(d) =~= all);
    }
}

/// What a read ahead of use came to: values; nothing, for elements of a kind
/// that is not read, so that the variable stays lazy; or a failure, which fails
/// the walk.
pub fn read_ahead_outcome<E>(read: Result<E, ReadError>) -> (r: Result<Option<E>, RustytreeError>)
    ensures
        match read {
            Ok(e) => r == Ok::<Option<E>, RustytreeError>(Some(e)),
            Err(ReadError::Unsupported(_)) => r == Ok::<Option<E>, RustytreeError>(None),
            Err(ReadError::Index(cause)) => r matches Err(RustytreeError::Other(m)) && m@
                == "eager fetch failed: "@ + cause@,
            Err(ReadError::Value(cause)) => r matches Err(RustytreeError::Other(m)) && m@
                == "eager fetch failed: "@ + cause@,
        },
{
    match read {
        Ok(e) => Ok(Some(e)),
        Err(ReadError::Unsupported(_)) => Ok(None),
        Err(ReadError::Index(cause)) | Err(ReadError::Value(cause)) => Err(
            RustytreeError::Other(text::joined("eager fetch failed: ", cause.as_str())),
        ),
    }
}

// ---------------------------------------------------------------------------
// Laws
// ---------------------------------------------------------------------------

/// Where the slashes at the end of a path begin.
proof fn lemma_end_of_names(path: Seq<char>) -> (k: int)
    ensures
        0 <= k <= path.len(),
        forall|j: int| k <= j < path.len() ==> path[j] == '/',
        k == 0 || path[k - 1] != '/',
        text::trim_end(path, '/') == path.take(k),
    decreases path.len(),
{
    if path.len() == 0 {
        assert(path.take(0) =~= path);
        0
    } else if path.last() == '/' {
        let init = path.drop_last();
        let k = lemma_end_of_names(init);
        assert forall|j: int| k <= j < path.len() implies path[j] == '/' by {
            if j < init.len() {
                assert(init[j] == path[j]);
            }
        }
        if k > 0 {
            assert(path[k - 1] == init[k - 1]);
        }
        assert(path.take(k) =~= init.take(k));
        k
    } else {
        assert(path[path.len() - 1] != '/');
        assert(path.take(path.len() as int) =~= path);
        path.len() as int
    }
}

/// A slash at the end of a path makes no difference.
pub proof fn law_trailing_slash_makes_no_difference(path: Seq<char>)
    ensures
        normalized(path.push('/')) == normalized(path),
{
    assert(path.push('/').drop_last() =~= path);
}

/// A normalized path is the root or ends with no slash.
pub proof fn law_normalized_ends_with_a_name(path: Seq<char>)
    ensures
        normalized(path).len() > 0,
        normalized(path) == seq!['/'] || normalized(path).last() != '/',
{
    let k = lemma_end_of_names(path);
}

/// Normalizing twice is normalizing once.
pub proof fn law_normalizing_twice_is_once(path: Seq<char>)
    ensures
        normalized(normalized(path)) == normalized(path),
{
    let k = lemma_end_of_names(path);
    let root = seq!['/'];
    assert(root.drop_last() =~= Seq::<char>::empty());
    assert(text::trim_end(root.drop_last(), '/') =~= Seq::<char>::empty());
}

/// What is in a group has that group for its parent.
pub proof fn law_parent_of_a_member(group: Seq<char>, name: Seq<char>)
    requires
        !name.contains('/'),
    ensures
        group.len() > 0 ==> parent(group.push('/') + name) == group,
        parent(seq!['/'] + name) == seq!['/'],
        text::after_last(group.push('/') + name, '/') == name,
{
    let path = group.push('/') + name;
    assert forall|j: int| group.len() + 1 <= j < path.len() implies path[j] != '/' by {
        assert(path[j] == name[j - group.len() - 1]);
    }
    text::lemma_last(path, '/', group.len() as int + 1);
    assert(path.take(group.len() as int) =~= group);
    assert(path.skip(group.len() as int + 1) =~= name);
    let top = seq!['/'] + name;
    assert forall|j: int| 1 <= j < top.len() implies top[j] != '/' by {
        assert(top[j] == name[j - 1]);
    }
    text::lemma_last(top, '/', 1);
    assert(top.take(0) =~= Seq::<char>::empty());
}

/// `path` is the path of the tree or of a group below.
pub open spec fn is_in(path: Seq<char>, tree: GroupTree) -> bool
    decreases tree,
{
    path == tree.path || is_in_some(path, tree.children)
}

/// `path` is in one of the trees.
pub open spec fn is_in_some(path: Seq<char>, trees: Seq<GroupTree>) -> bool
    decreases trees,
{
    trees.len() > 0 && (is_in(path, trees.last()) || is_in_some(path, trees.drop_last()))
}

/// The paths of groups lie below those of the groups that they are in.
pub open spec fn is_well_placed(tree: GroupTree) -> bool
    decreases tree,
{
    are_well_placed(tree.children, tree.path)
}

/// The paths of the trees, and of the groups in them, lie below `top`.
pub open spec fn are_well_placed(trees: Seq<GroupTree>, top: Seq<char>) -> bool
    decreases trees,
{
    trees.len() > 0 ==> glob::at_or_below(trees.last().path, top) && is_well_placed(trees.last())
        && are_well_placed(trees.drop_last(), top)
}

/// Without a pattern, or with one that nothing can be pruned by, the walk comes
/// to every group of the tree, and to nothing else.
pub proof fn law_walk_comes_to_every_group(
    tree: GroupTree,
    pattern: Option<Option<Seq<Seq<char>>>>,
    path: Seq<char>,
)
    requires
        pattern matches Some(segments) ==> segments is None,
    ensures
        preorder(tree, pattern).contains(path) <==> is_in(path, tree),
    decreases tree,
{
    let below = preorder_of_all(tree.children, pattern);
    let all = preorder(tree, pattern);
    lemma_walk_comes_to_all(tree.children, pattern, path);
    if path == tree.path {
        assert(all[0] == path);
    }
    if below.contains(path) {
        let i = below.index_of(path);
        assert(all[i + 1] == path);
    }
    if all.contains(path) && path != tree.path {
        let i = all.index_of(path);
        assert(below[i - 1] == path);
    }
}

proof fn lemma_walk_comes_to_all(
    trees: Seq<GroupTree>,
    pattern: Option<Option<Seq<Seq<char>>>>,
    path: Seq<char>,
)
    requires
        pattern matches Some(segments) ==> segments is None,
    ensures
        preorder_of_all(trees, pattern).contains(path) <==> is_in_some(path, trees),
    decreases trees,
{
    if trees.len() > 0 {
        law_walk_comes_to_every_group(trees.last(), pattern, path);
        lemma_walk_comes_to_all(trees.drop_last(), pattern, path);
        lemma_contains_join(
            preorder_of_all(trees.drop_last(), pattern),
            preorder(trees.last(), pattern),
            path,
        );
    }
}

/// What two lists one after another contain.
proof fn lemma_contains_join(a: Seq<Seq<char>>, b: Seq<Seq<char>>, path: Seq<char>)
    ensures
        (a + b).contains(path) <==> a.contains(path) || b.contains(path),
{
    let all = a + b;
    if a.contains(path) {
        let i = a.index_of(path);
        assert(all[i] == path);
    }
    if b.contains(path) {
        let i = b.index_of(path);
        assert(all[a.len() + i] == path);
    }
    if all.contains(path) {
        let i = all.index_of(path);
        if i < a.len() {
            assert(a[i] == path);
        } else {
            assert(b[i - a.len()] == path);
        }
    }
}

/// What is in a tree lies at its path or below.
proof fn lemma_in_is_below(path: Seq<char>, tree: GroupTree)
    requires
        is_in(path, tree),
        is_well_placed(tree),
    ensures
        glob::at_or_below(path, tree.path),
    decreases tree,
{
    if path == tree.path {
        assert(text::components(path).take(text::components(path).len() as int)
            =~= text::components(path));
    } else {
        lemma_in_some_is_below(path, tree.children, tree.path);
    }
}

proof fn lemma_in_some_is_below(path: Seq<char>, trees: Seq<GroupTree>, top: Seq<char>)
    requires
        is_in_some(path, trees),
        are_well_placed(trees, top),
    ensures
        glob::at_or_below(path, top),
    decreases trees,
{
    if is_in(path, trees.last()) {
        lemma_in_is_below(path, trees.last());
        let names = text::components(path);
        let mid = text::components(trees.last().path);
        let short = text::components(top);
        assert(names.take(short.len() as int) =~= names.take(mid.len() as int).take(
            short.len() as int,
        ));
    } else {
        lemma_in_some_is_below(path, trees.drop_last(), top);
    }
}

/// Pruning loses no group that matches: the pruned walk comes to every group of
/// the tree whose path the pattern matches.
pub proof fn law_pruned_walk_comes_to_every_match(
    tree: GroupTree,
    pattern: Seq<char>,
    path: Seq<char>,
)
    requires
        is_well_placed(tree),
        is_in(path, tree),
        glob::can_prune(pattern),
        glob::path_matches(text::components(pattern), path),
    ensures
        preorder(tree, Some(glob::compiled(pattern))).contains(path),
    decreases tree,
{
    let compiled = Some(glob::compiled(pattern));
    lemma_in_is_below(path, tree);
    glob::law_no_match_is_pruned(pattern, tree.path, path);
    let below = preorder_of_all(tree.children, compiled);
    let all = preorder(tree, compiled);
    if path == tree.path {
        assert(all[0] == path);
    } else {
        lemma_pruned_walks_come_to_match(tree.children, tree.path, pattern, path);
        let i = below.index_of(path);
        assert(all[i + 1] == path);
    }
}

proof fn lemma_pruned_walks_come_to_match(
    trees: Seq<GroupTree>,
    top: Seq<char>,
    pattern: Seq<char>,
    path: Seq<char>,
)
    requires
        are_well_placed(trees, top),
        is_in_some(path, trees),
        glob::can_prune(pattern),
        glob::path_matches(text::components(pattern), path),
    ensures
        preorder_of_all(trees, Some(glob::compiled(pattern))).contains(path),
    decreases trees,
{
    let compiled = Some(glob::compiled(pattern));
    lemma_contains_join(
        preorder_of_all(trees.drop_last(), compiled),
        preorder(trees.last(), compiled),
        path,
    );
    if is_in(path, trees.last()) {
        law_pruned_walk_comes_to_every_match(trees.last(), pattern, path);
    } else {
        lemma_pruned_walks_come_to_match(trees.drop_last(), top, pattern, path);
    }
}

/// A group comes before everything below it: where the walk goes on at a tree,
/// its path comes first, and what the walk finds in each of its groups stands
/// together after it, from place `at` on.
pub proof fn law_parents_come_before_children(
    tree: GroupTree,
    pattern: Option<Option<Seq<Seq<char>>>>,
    child: int,
) -> (at: int)
    requires
        visits(pattern, tree.path),
        0 <= child < tree.children.len(),
    ensures
        preorder(tree, pattern)[0] == tree.path,
        1 <= at,
        at + preorder(tree.children[child], pattern).len() <= preorder(tree, pattern).len(),
        preorder(tree, pattern).subrange(
            at,
            at + preorder(tree.children[child], pattern).len(),
        ) == preorder(tree.children[child], pattern),
{
    let at = lemma_child_stands_together(tree.children, pattern, child);
    let below = preorder_of_all(tree.children, pattern);
    let part = preorder(tree.children[child], pattern);
    assert(preorder(tree, pattern).subrange(at + 1, at + 1 + part.len()) =~= below.subrange(
        at,
        at + part.len(),
    ));
    at + 1
}

proof fn lemma_child_stands_together(
    trees: Seq<GroupTree>,
    pattern: Option<Option<Seq<Seq<char>>>>,
    child: int,
) -> (at: int)
    requires
        0 <= child < trees.len(),
    ensures
        0 <= at,
        at + preorder(trees[child], pattern).len() <= preorder_of_all(trees, pattern).len(),
        preorder_of_all(trees, pattern).subrange(at, at + preorder(trees[child], pattern).len())
            == preorder(trees[child], pattern),
    decreases trees.len(),
{
    let init = trees.drop_last();
    let before = preorder_of_all(init, pattern);
    let all = preorder_of_all(trees, pattern);
    let part = preorder(trees[child], pattern);
    if child == trees.len() - 1 {
        assert(all.subrange(before.len() as int, before.len() as int + part.len()) =~= part);
        before.len() as int
    } else {
        assert(init[child] == trees[child]);
        let at = lemma_child_stands_together(init, pattern, child);
        assert(all.subrange(at, at + part.len()) =~= before.subrange(at, at + part.len()));
        at
    }
}

/// What the walk puts together at a group is its preorder, where it goes on
/// there and what was found at each of the groups in it is theirs.
pub proof fn law_found_lists_make_the_preorder(
    tree: GroupTree,
    pattern: Option<Option<Seq<Seq<char>>>>,
    found: Seq<Vec<String>>,
)
    requires
        visits(pattern, tree.path),
        found.len() == tree.children.len(),
        forall|i: int|
            0 <= i < found.len() ==> text::texts((#[trigger] found[i])@) == preorder(
                tree.children[i],
                pattern,
            ),
    ensures
        seq![tree.path] + concatenated(found) == preorder(tree, pattern),
{
    lemma_found_lists(tree.children, pattern, found);
}

proof fn lemma_found_lists(
    trees: Seq<GroupTree>,
    pattern: Option<Option<Seq<Seq<char>>>>,
    found: Seq<Vec<String>>,
)
    requires
        found.len() == trees.len(),
        forall|i: int|
            0 <= i < found.len() ==> text::texts((#[trigger] found[i])@) == preorder(
                trees[i],
                pattern,
            ),
    ensures
        concatenated(found) == preorder_of_all(trees, pattern),
    decreases found.len(),
{
    if found.len() > 0 {
        assert forall|i: int| 0 <= i < found.drop_last().len() implies text::texts(
            (#[trigger] found.drop_last()[i])@,
        ) == preorder(trees.drop_last()[i], pattern) by {
            assert(found.drop_last()[i] == found[i]);
        }
        lemma_found_lists(trees.drop_last(), pattern, found.drop_last());
        assert(text::texts(found.last()@) == preorder(trees.last(), pattern));
    }
}

/// Values go only to variables that a result names.
pub proof fn law_others_stay_as_they_were<E>(
    results: Seq<(usize, usize, Option<E>)>,
    n: int,
    v: int,
    before: Option<E>,
)
    requires
        forall|i: int|
            0 <= i < results.len() ==> (#[trigger] results[i]).0 != n || results[i].1 != v
                || results[i].2 is None,
    ensures
        eager_after(results, n, v, before) == before,
    decreases results.len(),
{
    if results.len() > 0 {
        let last = results.last();
        assert(results[results.len() - 1] == last);
        assert forall|i: int| 0 <= i < results.drop_last().len() implies (
        #[trigger] results.drop_last()[i]).0 != n || results.drop_last()[i].1 != v
            || results.drop_last()[i].2 is None by {
            assert(results.drop_last()[i] == results[i]);
        }
        law_others_stay_as_they_were(results.drop_last(), n, v, before);
    }
}

/// Where one result names a variable, its values are that result's.
pub proof fn law_values_reach_their_variable<E>(
    results: Seq<(usize, usize, Option<E>)>,
    i: int,
    before: Option<E>,
)
    requires
        0 <= i < results.len(),
        results[i].2 is Some,
        forall|j: int|
            i < j < results.len() ==> (#[trigger] results[j]).0 != results[i].0 || results[j].1
                != results[i].1,
    ensures
        eager_after(results, results[i].0 as int, results[i].1 as int, before) == results[i].2,
    decreases results.len(),
{
    if i < results.len() - 1 {
        assert(results[results.len() - 1] == results.last());
        assert(results.drop_last()[i] == results[i]);
        law_values_reach_their_variable(results.drop_last(), i, before);
    }
}

/// What a store has for a group: its attributes, and the paths and metadata of
/// the arrays in it.
pub struct GroupFacts {
    pub attrs: Seq<(Seq<char>, attrs::JsonModel)>,
    pub arrays: Seq<(Seq<char>, ArrayFacts)>,
}

/// `shown` is what the group at `path` is shown as, with no values read.
pub open spec fn is_group_node<E>(shown: NodeData<E>, path: Seq<char>, facts: GroupFacts) -> bool {
    &&& shown.path@ == path
    &&& attrs::is_attr_map_of(shown.attrs@, facts.attrs)
    &&& shown.vars@.len() == facts.arrays.len()
    &&& forall|k: int|
        0 <= k < shown.vars@.len() ==> node::is_var_of(
            #[trigger] shown.vars@[k],
            facts.arrays[k].0,
            facts.arrays[k].1,
        )
}

/// `out` is what a walk down the tree shows of a store: a node for each group
/// that it comes to, in the order in which it comes to them.
pub open spec fn is_walk_down<E>(
    out: Seq<NodeData<E>>,
    tree: GroupTree,
    pattern: Option<Option<Seq<Seq<char>>>>,
    store: spec_fn(Seq<char>) -> GroupFacts,
) -> bool {
    &&& out.len() == preorder(tree, pattern).len()
    &&& forall|j: int|
        0 <= j < out.len() ==> is_group_node(
            #[trigger] out[j],
            preorder(tree, pattern)[j],
            store(preorder(tree, pattern)[j]),
        )
}

/// A walk always has a permit to go on with, so it does not stand still: none
/// asked for is as one, and nothing said is as 32.
pub proof fn law_there_is_always_a_permit(max_concurrency: Option<usize>)
    ensures
        permits_of(max_concurrency) >= 1,
        permits_of(Some(0)) == permits_of(Some(1)),
        permits_of(None) == permits_of(Some(32)),
{
}

/// How many groups are opened at once makes no difference to a walk down a
/// store: with any two limits both walks have a permit to go on with, and they
/// show the same nodes in the same order, with the group that they start at
/// first.
pub proof fn law_walk_does_not_depend_on_permits<E, F>(
    first: Option<usize>,
    second: Option<usize>,
    a: Seq<NodeData<E>>,
    b: Seq<NodeData<F>>,
    tree: GroupTree,
    pattern: Option<Option<Seq<Seq<char>>>>,
    store: spec_fn(Seq<char>) -> GroupFacts,
)
    requires
        is_walk_down(a, tree, pattern, store),
        is_walk_down(b, tree, pattern, store),
    ensures
        permits_of(first) >= 1 && permits_of(second) >= 1,
        node::lists_alike(a, b),
        visits(pattern, tree.path) ==> a.len() > 0 && a[0].path@ == tree.path,
{
    let paths = preorder(tree, pattern);
    assert forall|j: int| 0 <= j < a.len() implies node::nodes_alike(#[trigger] a[j], b[j]) by {
        let facts = store(paths[j]);
        assert(is_group_node(a[j], paths[j], facts));
        assert(is_group_node(b[j], paths[j], facts));
        assert(attrs::is_attr_map_of(a[j].attrs@, facts.attrs));
        assert forall|k: int| 0 <= k < a[j].vars@.len() implies node::vars_alike(
            #[trigger] a[j].vars@[k],
            b[j].vars@[k],
        ) by {
            assert(node::is_var_of(b[j].vars@[k], facts.arrays[k].0, facts.arrays[k].1));
            node::law_metadata_settle_the_variable(
                a[j].vars@[k],
                b[j].vars@[k],
                facts.arrays[k].0,
                facts.arrays[k].1,
            );
        }
    }
    if visits(pattern, tree.path) {
        assert(paths[0] == tree.path);
        assert(is_group_node(a[0], paths[0], store(paths[0])));
    }
}

/// A path that ends with a name is its own normal form, and the empty path means
/// the root. With [`law_trailing_slash_makes_no_difference`] this settles the
/// normal form of every path.
pub proof fn law_named_path_stays_as_it_is(path: Seq<char>)
    ensures
        path.len() > 0 && path.last() != '/' ==> normalized(path) == path,
        normalized(Seq::<char>::empty()) == seq!['/'],
{
}

/// What has no slash in its path is in the root, and so is the root.
pub proof fn law_lone_name_is_in_the_root(path: Seq<char>)
    requires
        !path.contains('/'),
    ensures
        parent(path) == seq!['/'],
        parent(seq!['/']) == seq!['/'],
{
    assert forall|j: int| 0 <= j < path.len() implies path[j] != '/' by {
        assert(path.contains(path[j]));
    }
    text::lemma_last(path, '/', 0);
    let root = seq!['/'];
    text::lemma_last(root, '/', 1);
    assert(root.take(0) =~= Seq::<char>::empty());
}

/// Without a pattern the walk goes on everywhere; with one it goes on where the
/// pattern lets it pass.
pub proof fn law_pattern_decides_where_the_walk_goes(
    pattern: &GlobPredicate,
    segments: Option<Seq<Seq<char>>>,
    path: Seq<char>,
)
    ensures
        visits(compiled_view(None), path),
        visits(None, path),
        visits(compiled_view(Some(pattern)), path) == glob::may_match_below(pattern@, path),
        visits(Some(segments), path) == glob::may_match_below(segments, path),
{
}

/// A walk comes to a group, then to everything in the groups in it, one after
/// another, and to nothing where it does not pass.
pub proof fn law_walk_goes_down_group_by_group(
    path: Seq<char>,
    first: Seq<GroupTree>,
    second: Seq<GroupTree>,
    child: GroupTree,
    pattern: Option<Option<Seq<Seq<char>>>>,
)
    ensures
        !visits(pattern, path) ==> preorder(
            (GroupTree { path, children: first }),
            pattern,
        ).len() == 0,
        visits(pattern, path) ==> {
            &&& preorder((GroupTree { path, children: Seq::empty() }), pattern) == seq![path]
            &&& preorder((GroupTree { path, children: seq![child] }), pattern) == seq![path]
                + preorder(child, pattern)
            &&& preorder((GroupTree { path, children: first + second }), pattern) == preorder(
                (GroupTree { path, children: first }),
                pattern,
            ) + preorder((GroupTree { path, children: second }), pattern).skip(1)
        },
{
    let none = Seq::<GroupTree>::empty();
    let lone = seq![child];
    assert(preorder_of_all(none, pattern) =~= Seq::<Seq<char>>::empty());
    assert(lone.drop_last() =~= none);
    assert(lone.last() == child);
    assert(preorder_of_all(lone, pattern) =~= preorder(child, pattern));
    lemma_walks_one_after_another(first, second, pattern);
    if visits(pattern, path) {
        assert(preorder((GroupTree { path, children: none }), pattern) =~= seq![path]);
        let before = preorder((GroupTree { path, children: first }), pattern);
        let after = preorder((GroupTree { path, children: second }), pattern);
        assert(after.skip(1) =~= preorder_of_all(second, pattern));
        assert(preorder((GroupTree { path, children: first + second }), pattern) =~= before
            + after.skip(1));
    }
}

proof fn lemma_walks_one_after_another(
    first: Seq<GroupTree>,
    second: Seq<GroupTree>,
    pattern: Option<Option<Seq<Seq<char>>>>,
)
    ensures
        preorder_of_all(first + second, pattern) == preorder_of_all(first, pattern)
            + preorder_of_all(second, pattern),
    decreases second.len(),
{
    if second.len() == 0 {
        assert(first + second =~= first);
        assert(preorder_of_all(first, pattern) + preorder_of_all(second, pattern)
            =~= preorder_of_all(first, pattern));
    } else {
        assert((first + second).drop_last() =~= first + second.drop_last());
        assert((first + second).last() == second.last());
        lemma_walks_one_after_another(first, second.drop_last(), pattern);
        assert(preorder_of_all(first + second, pattern) =~= preorder_of_all(first, pattern)
            + preorder_of_all(second, pattern));
    }
}

/// Lists are put one after another, each in its order.
pub proof fn law_lists_follow_each_other(
    first: Seq<Vec<String>>,
    second: Seq<Vec<String>>,
    list: Vec<String>,
)
    ensures
        concatenated(Seq::<Vec<String>>::empty()).len() == 0,
        concatenated(seq![list]) == text::texts(list@),
        concatenated(first + second) == concatenated(first) + concatenated(second),
    decreases second.len(),
{
    let lone = seq![list];
    assert(lone.drop_last() =~= Seq::<Vec<String>>::empty());
    assert(concatenated(lone.drop_last()) =~= Seq::<Seq<char>>::empty());
    assert(concatenated(lone) =~= text::texts(list@));
    if second.len() == 0 {
        assert(first + second =~= first);
        assert(concatenated(first) + concatenated(second) =~= concatenated(first));
    } else {
        assert((first + second).drop_last() =~= first + second.drop_last());
        law_lists_follow_each_other(first, second.drop_last(), list);
        assert(concatenated(first + second) =~= concatenated(first) + concatenated(second));
    }
}

/// The caller's number of permits is taken, and none as one; without a number
/// there are 32.
pub proof fn law_caller_sets_the_permits(n: usize)
    ensures
        n > 0 ==> permits_of(Some(n)) == n,
        permits_of(Some(0)) == 1,
        permits_of(None) == 32,
{
}

/// The values of a variable are read ahead exactly when it has one axis, is named
/// like it and has at most 1048576 elements.
pub proof fn law_small_coordinates_are_read_ahead<E>(var: VarMeta<E>)
    ensures
        is_read_ahead(var) ==> var.dims@.len() == 1 && var.dims@[0]@ == var.name@,
        is_read_ahead(var) ==> crate::array::product(var.shape@) <= 1_048_576,
        var.dims@.len() == 1 && var.dims@[0]@ == var.name@ && crate::array::product(var.shape@)
            <= 1_048_576 ==> is_read_ahead(var),
        var.shape@.len() == 1 && var.dims@.len() == 1 && var.dims@[0]@ == var.name@ ==> (
        is_read_ahead(var) <==> var.shape@[0] <= 1_048_576),
{
    let names = text::texts(var.dims@);
    if is_read_ahead(var) {
        assert(names.len() == 1);
        assert(names[0] == var.dims@[0]@);
    }
    if var.dims@.len() == 1 && var.dims@[0]@ == var.name@ {
        assert(names[0] == var.dims@[0]@);
        assert(names =~= seq![var.name@]);
    }
    if var.shape@.len() == 1 {
        let n = var.shape@[0];
        crate::array::law_elements_are_counted_by_axis(var.shape@, var.shape@, n);
        assert(var.shape@ =~= seq![n]);
    }
}

/// The variables to read ahead are all that qualify, each once, in the order of
/// the nodes and of the variables in each.
pub proof fn law_every_coordinate_is_read_ahead_once<E>(
    pairs: Seq<(usize, usize)>,
    nodes: Seq<NodeData<E>>,
    n: int,
    v: int,
)
    requires
        are_read_ahead(pairs, nodes),
        0 <= n < nodes.len(),
        0 <= v < nodes[n].vars@.len(),
    ensures
        is_read_ahead(nodes[n].vars@[v]) <==> exists|i: int|
            0 <= i < pairs.len() && (#[trigger] pairs[i]).0 == n && pairs[i].1 == v,
        forall|i: int|
            0 <= i < pairs.len() ==> (#[trigger] pairs[i]).0 < nodes.len() && pairs[i].1
                < nodes[pairs[i].0 as int].vars@.len(),
        forall|i: int, j: int|
            0 <= i < j < pairs.len() ==> (#[trigger] pairs[i]).0 < (#[trigger] pairs[j]).0
                || pairs[i].0 == pairs[j].0 && pairs[i].1 < pairs[j].1,
{
    assert(has_var(nodes, n, v));
    let var = nodes[n].vars@[v];
    if is_read_ahead(var) {
        assert(has_pair(pairs, n, v));
    }
    if exists|i: int| 0 <= i < pairs.len() && (#[trigger] pairs[i]).0 == n && pairs[i].1 == v {
        let i = choose|i: int|
            0 <= i < pairs.len() && (#[trigger] pairs[i]).0 == n && pairs[i].1 == v;
        assert(is_read_ahead(nodes[pairs[i].0 as int].vars@[pairs[i].1 as int]));
    }
    assert forall|i: int, j: int| 0 <= i < j < pairs.len() implies (#[trigger] pairs[i]).0 < (
    #[trigger] pairs[j]).0 || pairs[i].0 == pairs[j].0 && pairs[i].1 < pairs[j].1 by {
        assert(pair_lt(pairs[i], pairs[j]));
    }
}

/// The last values that came for a variable are its values; a later result
/// without any takes nothing away.
pub proof fn law_last_values_stay<E>(
    results: Seq<(usize, usize, Option<E>)>,
    i: int,
    before: Option<E>,
)
    requires
        0 <= i < results.len(),
        results[i].2 is Some,
        forall|j: int|
            i < j < results.len() ==> (#[trigger] results[j]).0 != results[i].0 || results[j].1
                != results[i].1 || results[j].2 is None,
    ensures
        eager_after(results, results[i].0 as int, results[i].1 as int, before) == results[i].2,
    decreases results.len(),
{
    if i < results.len() - 1 {
        assert(results[results.len() - 1] == results.last());
        assert(results.drop_last()[i] == results[i]);
        law_last_values_stay(results.drop_last(), i, before);
    }
}

/// Values read ahead change nothing but the values: nodes and variables stay, with
/// their names, axes, data types, shapes, attributes and arrays.
pub proof fn law_values_change_nothing_else<E>(
    after: Seq<NodeData<E>>,
    before: Seq<NodeData<E>>,
    results: Seq<(usize, usize, Option<E>)>,
    n: int,
    v: int,
)
    requires
        has_results(after, before, results),
        0 <= n < before.len(),
        0 <= v < before[n].vars@.len(),
    ensures
        after.len() == before.len(),
        after[n].path == before[n].path,
        after[n].attrs == before[n].attrs,
        after[n].vars@.len() == before[n].vars@.len(),
        after[n].vars@[v].name == before[n].vars@[v].name,
        after[n].vars@[v].dims == before[n].vars@[v].dims,
        after[n].vars@[v].dtype == before[n].vars@[v].dtype,
        after[n].vars@[v].shape == before[n].vars@[v].shape,
        after[n].vars@[v].attrs == before[n].vars@[v].attrs,
        after[n].vars@[v].array == before[n].vars@[v].array,
        after[n].vars@[v].eager == eager_after(results, n, v, before[n].vars@[v].eager),
{
    assert(has_var(before, n, v));
    assert(same_but_eager(after[n].vars@[v], before[n].vars@[v]));
}

/// The message of a failed walk ends with what the store said, and names the path
/// unless the step was at none.
pub proof fn law_failed_walk_tells_place_and_cause(
    step: WalkStep,
    path: Seq<char>,
    err: Seq<char>,
)
    ensures
        text::ends_with(step_failure(step, path, err), err),
        step != WalkStep::EnumerateNodes && step != WalkStep::JoinArrayBuild
            ==> text::contains_text(step_failure(step, path, err), path),
{
    let m = step_failure(step, path, err);
    assert(m.skip(m.len() - err.len()) =~= err);
    let head = match step {
        WalkStep::OpenGroup => "failed to open group "@,
        WalkStep::ListArrays => "failed to list arrays in "@,
        WalkStep::DiscoverGroup => "failed to open group "@,
        WalkStep::ListGroups => "failed to list child groups in "@,
        WalkStep::OpenArray => "failed to open array "@,
        WalkStep::ListNodes => "icechunk: list_nodes("@,
        _ => Seq::<char>::empty(),
    };
    if step != WalkStep::EnumerateNodes && step != WalkStep::JoinArrayBuild {
        assert(m.subrange(head.len() as int, head.len() as int + path.len()) =~= path);
        assert(text::occurs_at(m, path, head.len() as int));
    }
}

/// Messages for one step differ only in the path and the cause, which stand in
/// them as they are: what is around them is the same for all.
pub proof fn law_walk_messages_have_one_form(step: WalkStep) -> (around: (Seq<char>, Seq<char>))
    ensures
        forall|path: Seq<char>, err: Seq<char>| #[trigger]
            step_failure(step, path, err) == if step == WalkStep::EnumerateNodes || step
                == WalkStep::JoinArrayBuild {
                around.0 + around.1 + err
            } else {
                around.0 + path + around.1 + err
            },
{
    match step {
        WalkStep::OpenGroup => ("failed to open group "@, ": "@),
        WalkStep::ListArrays => ("failed to list arrays in "@, ": "@),
        WalkStep::DiscoverGroup => ("failed to open group "@, " during walk: "@),
        WalkStep::ListGroups => ("failed to list child groups in "@, ": "@),
        WalkStep::OpenArray => ("failed to open array "@, ": "@),
        WalkStep::ListNodes => ("icechunk: list_nodes("@, ") failed: "@),
        WalkStep::EnumerateNodes => ("icechunk: snapshot enumeration failed"@, ": "@),
        WalkStep::JoinArrayBuild => ("icechunk: array build join failed"@, ": "@),
    }
}

} // verus!
