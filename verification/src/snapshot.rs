//! The walk of an icechunk snapshot.
//!
//! An icechunk session lists every group and array below a path from its
//! snapshot, which is in memory, each with its `zarr.json` document. The walk
//! makes [`NodeData`] of that list without I/O: it chooses the nodes to show,
//! reads the documents of the groups, builds the arrays group by group and puts
//! them into their groups.

use crate::attrs;
use crate::attrs::AttrMap;
use crate::error::RustytreeError;
use crate::glob;
use crate::glob::GlobPredicate;
use crate::node;
use crate::node::{NodeData, VarMeta};
use crate::ordered;
use crate::text;
use crate::walk;
use crate::zarr;
use crate::zarr::{DocumentFailure, DocumentFault, Unfit};
use icechunk::format::Path as IcePath;
use serde_json::Value;
use vstd::prelude::*;
use vstd::string::*;

verus! {

// ---------------------------------------------------------------------------
// The path that a walk starts at
// ---------------------------------------------------------------------------

/// A path in an icechunk hierarchy.
#[verifier::external_type_specification]
#[verifier::external_body]
pub struct ExIcePath(icechunk::format::Path);

/// The text of an icechunk path.
pub uninterp spec fn ice_path_text(path: IcePath) -> Seq<char>;

/// Why a text is no icechunk path, where it is none: it does not begin with a
/// slash, or one of its names is `..`.
pub open spec fn ice_path_complaint(path: Seq<char>) -> Option<Seq<char>> {
    if path.len() == 0 || path[0] != '/' {
        Some("path must start with a `/` character"@)
    } else if text::components(path).contains(".."@) {
        Some("path must be cannonic, cannot include \".\" or \"..\""@)
    } else {
        None
    }
}

/// `icechunk::format::Path::new`. Claimed: a text is refused, with the given
/// message, if and only if it is not absolute or has the name `..` in it; a name
/// `.` is passed over. What is accepted keeps its text.
#[verifier::external_body]
fn ice_path(path: &str) -> (r: Result<IcePath, String>)
    ensures
        match r {
            Ok(p) => ice_path_complaint(path@) is None && ice_path_text(p) == path@,
            Err(m) => ice_path_complaint(path@) == Some(m@),
        },
{
    IcePath::new(path).map_err(|e| e.to_string())
}

/// The icechunk path that a snapshot walk starts at.
pub fn snapshot_root(root_path: &str) -> (r: Result<IcePath, RustytreeError>)
    ensures
        match r {
            Ok(p) => ice_path_complaint(root_path@) is None && ice_path_text(p) == root_path@,
            Err(e) => {
                &&& ice_path_complaint(root_path@) matches Some(reason)
                &&& e matches RustytreeError::InvalidInput(m)
                &&& m@ == "icechunk: invalid root path "@ + text::debug_form(root_path@) + ": "@
                    + reason
            },
        },
{
    match ice_path(root_path) {
        Ok(p) => Ok(p),
        Err(reason) => {
            let mut m: String = "icechunk: invalid root path ".to_owned();
            m.append(text::debug_text(root_path).as_str());
            m.append(": ");
            m.append(reason.as_str());
            Err(RustytreeError::InvalidInput(m))
        },
    }
}

// ---------------------------------------------------------------------------
// The nodes of a snapshot
// ---------------------------------------------------------------------------

/// What a node of a snapshot is.
#[derive(Debug, Clone, Copy, PartialEq, Eq, Structural)]
pub enum NodeKind {
    Group,
    Array,
}

/// A node of an icechunk snapshot.
pub struct SnapshotNode {
    /// Absolute path of the node.
    pub path: String,
    /// Whether it is a group or an array.
    pub kind: NodeKind,
    /// Its `zarr.json` document.
    pub user_data: Vec<u8>,
}

/// Which nodes of a snapshot a walk shows.
pub struct Selection {
    /// The path that the walk starts at.
    pub root: Seq<char>,
    /// Whether groups below the root are shown.
    pub recursive: bool,
    /// The compiled pattern that prunes the walk, where there is one.
    pub pattern: Option<Option<Seq<Seq<char>>>>,
}

/// The selection that a walk's arguments make.
pub open spec fn selection(
    root: Seq<char>,
    recursive: bool,
    pattern: Option<&GlobPredicate>,
) -> Selection {
    Selection { root, recursive, pattern: walk::compiled_view(pattern) }
}

/// The walk shows the group `node`.
pub open spec fn shows_group(sel: Selection, node: SnapshotNode) -> bool {
    &&& node.kind == NodeKind::Group
    &&& sel.recursive || node.path@ == walk::normalized(sel.root)
    &&& walk::visits(sel.pattern, node.path@)
}

/// The walk shows the array `node`.
pub open spec fn shows_array(sel: Selection, node: SnapshotNode) -> bool {
    &&& node.kind == NodeKind::Array
    &&& sel.recursive || walk::parent(node.path@) == walk::normalized(sel.root)
    &&& walk::visits(sel.pattern, walk::parent(node.path@))
}

/// The attributes in a group's document. Root and implicit groups have an empty
/// one, and no attributes.
pub open spec fn group_attrs_of(document: Seq<u8>) -> Result<
    Seq<(Seq<char>, attrs::JsonModel)>,
    Seq<char>,
> {
    if document.len() == 0 {
        Ok(Seq::empty())
    } else {
        zarr::group_document(document)
    }
}

/// The message for a group whose document cannot be read.
pub open spec fn group_failure(path: Seq<char>, err: Seq<char>) -> Seq<char> {
    "icechunk: failed to parse group zarr.json at "@ + path + ": "@ + err
}

/// The message for an array whose document makes no array.
pub open spec fn array_failure(path: Seq<char>, failure: DocumentFailure) -> Seq<char> {
    match failure {
        DocumentFailure::Parse(err) => "icechunk: failed to parse array zarr.json at "@ + path
            + ": "@ + err@,
        DocumentFailure::Unfit(what) => refused_array(path) + unfit_text(what),
        DocumentFailure::Refused(err) => refused_array(path) + err@,
    }
}

/// What is said of metadata that `zarrs` cannot be given.
pub open spec fn unfit_text(what: Unfit) -> Seq<char> {
    match what {
        Unfit::Sizes => "declared sizes are past what this machine can count"@,
        Unfit::Fill => "the fill value does not fit its data type"@,
        Unfit::Order => "column-major order without an axis"@,
    }
}

/// How the message begins for an array that is refused.
pub open spec fn refused_array(path: Seq<char>) -> Seq<char> {
    "icechunk: failed to construct Array from snapshot for "@ + path + ": "@
}

/// `m` is a message for an array with that fault in its document. What `zarrs`
/// says of metadata that it refuses comes at the end.
pub open spec fn tells_of_fault(m: Seq<char>, path: Seq<char>, fault: DocumentFault) -> bool {
    match fault {
        DocumentFault::Parse(err) => m == "icechunk: failed to parse array zarr.json at "@ + path
            + ": "@ + err,
        DocumentFault::Unfit(what) => m == refused_array(path) + unfit_text(what),
        DocumentFault::Refused => text::starts_with(m, refused_array(path)),
    }
}

/// The message for an array at `path` whose document makes no array.
pub fn array_failure_message(path: &str, failure: &DocumentFailure) -> (r: String)
    ensures
        r@ == array_failure(path@, *failure),
{
    let mut m: String = match failure {
        DocumentFailure::Parse(_) => "icechunk: failed to parse array zarr.json at ".to_owned(),
        _ => "icechunk: failed to construct Array from snapshot for ".to_owned(),
    };
    m.append(path);
    m.append(": ");
    match failure {
        DocumentFailure::Parse(err) => m.append(err.as_str()),
        DocumentFailure::Unfit(Unfit::Sizes) => m.append(
            "declared sizes are past what this machine can count",
        ),
        DocumentFailure::Unfit(Unfit::Fill) => m.append(
            "the fill value does not fit its data type",
        ),
        DocumentFailure::Unfit(Unfit::Order) => m.append(
            "column-major order without an axis",
        ),
        DocumentFailure::Refused(err) => m.append(err.as_str()),
    }
    m
}

/// The message for arrays in a group that is not shown.
pub open spec fn orphan_failure(group: Seq<char>) -> Seq<char> {
    "icechunk: arrays under "@ + group + " have no parent group"@
}

/// Parse a group's `zarr.json` and take its attributes in the order of their
/// names.
pub fn parse_group_attrs(user_data: &[u8], path: &str) -> (r: Result<AttrMap, RustytreeError>)
    ensures
        match r {
            Ok(found) => group_attrs_of(user_data@) matches Ok(doc) && attrs::is_attr_map_of(
                found@,
                doc,
            ),
            Err(e) => {
                &&& group_attrs_of(user_data@) matches Err(err)
                &&& e matches RustytreeError::Other(m)
                &&& m@ == group_failure(path@, err)
            },
        },
{
    if user_data.len() == 0 {
        let none: Vec<(String, Value)> = Vec::new();
        proof {
            assert(attrs::entries_model(none@) =~= Seq::empty());
        }
        return Ok(attrs::clone_attrs(&none));
    }
    match zarr::group_attributes(user_data) {
        Ok(entries) => Ok(attrs::clone_attrs(&entries)),
        Err(err) => {
            let mut m: String = "icechunk: failed to parse group zarr.json at ".to_owned();
            m.append(path);
            m.append(": ");
            m.append(err.as_str());
            Err(RustytreeError::Other(m))
        },
    }
}

/// Build a variable from the array node of a snapshot, without I/O.
pub fn build_var_meta_from_snapshot<E>(snap: &SnapshotNode) -> (r: Result<
    VarMeta<E>,
    RustytreeError,
>)
    ensures
        match r {
            Ok(var) => {
                &&& zarr::array_document(snap.path@, snap.user_data@) matches Ok(facts)
                &&& node::is_var_of(var, snap.path@, facts)
                &&& var.dims@.len() == var.shape@.len()
            },
            Err(e) => {
                &&& zarr::array_document(snap.path@, snap.user_data@) matches Err(fault)
                &&& e matches RustytreeError::Other(m)
                &&& tells_of_fault(m@, snap.path@, fault)
            },
        },
{
    match zarr::array_from_document(snap.path.as_str(), snap.user_data.as_slice()) {
        Ok(array) => {
            let var: VarMeta<E> = node::var_meta(array, snap.path.as_str());
            proof {
                assert(text::texts(var.dims@).len() == var.dims@.len());
            }
            Ok(var)
        },
        Err(failure) => {
            let m: String = array_failure_message(snap.path.as_str(), &failure);
            proof {
                if let DocumentFailure::Refused(err) = failure {
                    text::lemma_prefix_of_join(refused_array(snap.path@), err@);
                }
            }
            Err(RustytreeError::Other(m))
        },
    }
}

// ---------------------------------------------------------------------------
// The plan of a snapshot walk
// ---------------------------------------------------------------------------

/// The groups and arrays that a snapshot walk shows.
pub struct SnapshotPlan {
    /// Group paths with their attributes, in the order of the paths.
    pub groups: Vec<(String, AttrMap)>,
    /// For each group with arrays its path and the places of its arrays in the
    /// node list, in the order of the paths.
    pub batches: Vec<(String, Vec<usize>)>,
}

/// Node `i` is the last group shown under its path.
pub open spec fn is_last_group(nodes: Seq<SnapshotNode>, sel: Selection, i: int) -> bool {
    &&& 0 <= i < nodes.len()
    &&& shows_group(sel, nodes[i])
    &&& forall|k: int|
        i < k < nodes.len() && shows_group(sel, #[trigger] nodes[k]) ==> nodes[k].path@
            != nodes[i].path@
}

/// The group at `path` has these attributes, from node `i`.
pub open spec fn has_attrs_from(
    path: Seq<char>,
    found: Seq<(String, attrs::AttrValue)>,
    nodes: Seq<SnapshotNode>,
    sel: Selection,
    i: int,
) -> bool {
    &&& is_last_group(nodes, sel, i)
    &&& nodes[i].path@ == path
    &&& group_attrs_of(nodes[i].user_data@) matches Ok(doc)
    &&& attrs::is_attr_map_of(found, doc)
}

/// The group at `path` is shown and has these attributes.
pub open spec fn is_shown_group(
    path: Seq<char>,
    found: Seq<(String, attrs::AttrValue)>,
    nodes: Seq<SnapshotNode>,
    sel: Selection,
) -> bool {
    exists|i: int| #[trigger] has_attrs_from(path, found, nodes, sel, i)
}

/// `groups` are the groups that the walk shows, each once, in the order of
/// their paths.
pub open spec fn are_groups_of(
    groups: Seq<(String, AttrMap)>,
    nodes: Seq<SnapshotNode>,
    sel: Selection,
) -> bool {
    &&& ordered::ascending(groups)
    &&& forall|j: int|
        0 <= j < groups.len() ==> is_shown_group(
            (#[trigger] groups[j]).0@,
            groups[j].1@,
            nodes,
            sel,
        )
    &&& forall|i: int|
        0 <= i < nodes.len() && shows_group(sel, #[trigger] nodes[i]) ==> ordered::has_name(
            groups,
            nodes[i].path@,
        )
}

/// The places of the arrays that the walk shows in the group at `path`.
pub open spec fn arrays_in(nodes: Seq<SnapshotNode>, sel: Selection, path: Seq<char>) -> Seq<usize>
    decreases nodes.len(),
{
    if nodes.len() == 0 {
        Seq::<usize>::empty()
    } else {
        let rest = arrays_in(nodes.drop_last(), sel, path);
        if shows_array(sel, nodes.last()) && walk::parent(nodes.last().path@) == path {
            rest.push((nodes.len() - 1) as usize)
        } else {
            rest
        }
    }
}

/// `batches` are the places of the arrays that the walk shows, by group, in the
/// order of the group paths.
pub open spec fn are_batches_of(
    batches: Seq<(String, Vec<usize>)>,
    nodes: Seq<SnapshotNode>,
    sel: Selection,
) -> bool {
    &&& ordered::ascending(batches)
    &&& forall|path: Seq<char>| #[trigger]
        ordered::listed(batches, path) == arrays_in(nodes, sel, path)
    &&& forall|path: Seq<char>| #[trigger]
        ordered::has_name(batches, path) ==> arrays_in(nodes, sel, path).len() > 0
}

/// Node `i` is a group that is shown and whose document cannot be read.
pub open spec fn group_fails(nodes: Seq<SnapshotNode>, sel: Selection, i: int) -> bool {
    0 <= i < nodes.len() && shows_group(sel, nodes[i]) && group_attrs_of(
        nodes[i].user_data@,
    ) is Err
}

/// Node `i` is the first group that fails.
pub open spec fn is_first_group_failure(nodes: Seq<SnapshotNode>, sel: Selection, i: int) -> bool {
    group_fails(nodes, sel, i) && forall|k: int| 0 <= k < i ==> !#[trigger] group_fails(
        nodes,
        sel,
        k,
    )
}

/// The message for the group that node `i` is.
pub open spec fn is_group_message(nodes: Seq<SnapshotNode>, i: int, m: Seq<char>) -> bool {
    group_attrs_of(nodes[i].user_data@) matches Err(err) && m == group_failure(
        nodes[i].path@,
        err,
    )
}

/// A node that is no shown group leaves the groups as they are.
proof fn lemma_groups_kept(
    groups: Seq<(String, AttrMap)>,
    seen: Seq<SnapshotNode>,
    sel: Selection,
    snap: SnapshotNode,
)
    requires
        are_groups_of(groups, seen, sel),
        !shows_group(sel, snap),
    ensures
        are_groups_of(groups, seen.push(snap), sel),
{
    let more = seen.push(snap);
    assert forall|j: int| 0 <= j < groups.len() implies is_shown_group(
        (#[trigger] groups[j]).0@,
        groups[j].1@,
        more,
        sel,
    ) by {
        let i = choose|i: int| #[trigger]
            has_attrs_from(groups[j].0@, groups[j].1@, seen, sel, i);
        lemma_origin_kept(groups[j].0@, groups[j].1@, seen, sel, snap, i);
    }
    assert forall|i: int|
        0 <= i < more.len() && shows_group(sel, #[trigger] more[i]) implies ordered::has_name(
        groups,
        more[i].path@,
    ) by {
        assert(more[i] == seen[i]);
    }
}

/// The node that a group's attributes come from stays the one, unless the next
/// node is shown as a group under the same path.
proof fn lemma_origin_kept(
    path: Seq<char>,
    found: Seq<(String, attrs::AttrValue)>,
    seen: Seq<SnapshotNode>,
    sel: Selection,
    snap: SnapshotNode,
    i: int,
)
    requires
        has_attrs_from(path, found, seen, sel, i),
        !shows_group(sel, snap) || snap.path@ != path,
    ensures
        has_attrs_from(path, found, seen.push(snap), sel, i),
{
    let more = seen.push(snap);
    assert forall|k: int| i < k < more.len() && shows_group(sel, #[trigger] more[k]) implies more[k].path@
        != more[i].path@ by {
        if k < seen.len() {
            assert(more[k] == seen[k]);
        }
    }
}

/// A shown group takes its place among the groups.
proof fn lemma_group_added(
    before: Seq<(String, AttrMap)>,
    after: Seq<(String, AttrMap)>,
    seen: Seq<SnapshotNode>,
    sel: Selection,
    snap: SnapshotNode,
    found: AttrMap,
    at: int,
)
    requires
        are_groups_of(before, seen, sel),
        shows_group(sel, snap),
        group_attrs_of(snap.user_data@) matches Ok(doc) && attrs::is_attr_map_of(found@, doc),
        ordered::ascending(after),
        ordered::put_at(before, after, snap.path@, found, at),
    ensures
        are_groups_of(after, seen.push(snap), sel),
{
    let more = seen.push(snap);
    let path = snap.path@;
    assert forall|j: int| 0 <= j < after.len() implies is_shown_group(
        (#[trigger] after[j]).0@,
        after[j].1@,
        more,
        sel,
    ) by {
        if j == at {
            assert(has_attrs_from(after[j].0@, after[j].1@, more, sel, seen.len() as int));
        } else {
            let k = if ordered::has_name(before, path) || j < at {
                j
            } else {
                j - 1
            };
            assert(after[j] == before[k]);
            if after[j].0@ == path {
                ordered::lemma_names_differ(after, j, at);
            }
            assert(is_shown_group(before[k].0@, before[k].1@, seen, sel));
            let i = choose|i: int| #[trigger]
                has_attrs_from(before[k].0@, before[k].1@, seen, sel, i);
            lemma_origin_kept(before[k].0@, before[k].1@, seen, sel, snap, i);
        }
    }
    assert forall|i: int|
        0 <= i < more.len() && shows_group(sel, #[trigger] more[i]) implies ordered::has_name(
        after,
        more[i].path@,
    ) by {
        if i == seen.len() {
            assert(after[at].0@ == more[i].path@);
        } else {
            assert(more[i] == seen[i]);
            let j = ordered::name_at(before, seen[i].path@);
            if ordered::has_name(before, path) {
                assert(after[j].0@ == before[j].0@);
            } else if j < at {
                assert(after[j] == before[j]);
            } else {
                assert(after[j + 1] == before[j]);
            }
        }
    }
}

/// Choose what a snapshot walk from `root_path` shows, and read the documents of
/// the groups.
///
/// Without `recursive` that is the root group and the arrays directly in it.
/// With a pattern, groups where no match can be found at or below them are left
/// out, and so are their arrays.
pub fn plan_snapshot(
    nodes: &Vec<SnapshotNode>,
    root_path: &str,
    recursive: bool,
    pattern: Option<&GlobPredicate>,
) -> (r: Result<SnapshotPlan, RustytreeError>)
    ensures
        match r {
            Ok(plan) => {
                let sel = selection(root_path@, recursive, pattern);
                &&& forall|i: int| !#[trigger] group_fails(nodes@, sel, i)
                &&& are_groups_of(plan.groups@, nodes@, sel)
                &&& are_batches_of(plan.batches@, nodes@, sel)
            },
            Err(e) => {
                let sel = selection(root_path@, recursive, pattern);
                &&& e matches RustytreeError::Other(m)
                &&& exists|i: int| #[trigger]
                    is_first_group_failure(nodes@, sel, i) && is_group_message(nodes@, i, m@)
            },
        },
{
    let ghost sel = selection(root_path@, recursive, pattern);
    let root: String = walk::normalize_path(root_path);
    let mut groups: Vec<(String, AttrMap)> = Vec::new();
    let mut batches: Vec<(String, Vec<usize>)> = Vec::new();
    let mut i: usize = 0;
    proof {
        assert(nodes@.take(0) =~= Seq::<SnapshotNode>::empty());
    }
    while i < nodes.len()
        invariant
            sel == selection(root_path@, recursive, pattern),
            root@ == walk::normalized(root_path@),
            i <= nodes.len(),
            forall|k: int| 0 <= k < i ==> !#[trigger] group_fails(nodes@, sel, k),
            are_groups_of(groups@, nodes@.take(i as int), sel),
            are_batches_of(batches@, nodes@.take(i as int), sel),
        decreases nodes.len() - i,
    {
        let ghost seen = nodes@.take(i as int);
        let ghost more = nodes@.take(i + 1);
        let ghost snap = nodes@[i as int];
        proof {
            assert(more =~= seen.push(snap));
            assert(more.drop_last() =~= seen);
        }
        match nodes[i].kind {
            NodeKind::Group => {
                let path: &str = nodes[i].path.as_str();
                let at_root: bool = text::same_text(path, root.as_str());
                if (recursive || at_root) && walk::visits_group(pattern, path) {
                    match parse_group_attrs(nodes[i].user_data.as_slice(), path) {
                        Ok(found) => {
                            let ghost before = groups@;
                            let ghost new_attrs = found;
                            let at: usize = ordered::put(
                                &mut groups,
                                nodes[i].path.clone(),
                                found,
                            );
                            proof {
                                lemma_group_added(
                                    before,
                                    groups@,
                                    seen,
                                    sel,
                                    snap,
                                    new_attrs,
                                    at as int,
                                );
                            }
                        },
                        Err(e) => {
                            assert(is_first_group_failure(nodes@, sel, i as int));
                            return Err(e);
                        },
                    }
                } else {
                    proof {
                        lemma_groups_kept(groups@, seen, sel, snap);
                    }
                }
            },
            NodeKind::Array => {
                proof {
                    lemma_groups_kept(groups@, seen, sel, snap);
                }
                let group: String = walk::parent_of(nodes[i].path.as_str());
                let at_root: bool = text::same_text(group.as_str(), root.as_str());
                if (recursive || at_root) && walk::visits_group(pattern, group.as_str()) {
                    ordered::add_under(&mut batches, group, i);
                }
            },
        }
        i += 1;
    }
    proof {
        assert(nodes@.take(nodes@.len() as int) =~= nodes@);
    }
    Ok(SnapshotPlan { groups, batches })
}

// ---------------------------------------------------------------------------
// The result of a snapshot walk
// ---------------------------------------------------------------------------

/// The array node at that place is shown as `var`.
pub open spec fn is_shown_var<E>(
    var: VarMeta<E>,
    nodes: Seq<SnapshotNode>,
    place: int,
) -> bool {
    &&& zarr::array_document(nodes[place].path@, nodes[place].user_data@) matches Ok(facts)
    &&& node::is_var_of(var, nodes[place].path@, facts)
}

/// `vars` are what the array nodes at the places are shown as.
pub open spec fn are_vars_of<E>(
    vars: Seq<VarMeta<E>>,
    nodes: Seq<SnapshotNode>,
    places: Seq<usize>,
) -> bool {
    &&& vars.len() == places.len()
    &&& forall|k: int|
        0 <= k < vars.len() ==> is_shown_var(#[trigger] vars[k], nodes, places[k] as int)
}

/// The message for the array that node `i` is.
pub open spec fn is_array_message(nodes: Seq<SnapshotNode>, i: int, m: Seq<char>) -> bool {
    zarr::array_document(nodes[i].path@, nodes[i].user_data@) matches Err(fault) && tells_of_fault(
        m,
        nodes[i].path@,
        fault,
    )
}

/// The document of node `i` makes an array.
pub open spec fn makes_array(nodes: Seq<SnapshotNode>, i: int) -> bool {
    zarr::array_document(nodes[i].path@, nodes[i].user_data@) is Ok
}

/// Build the variables of one group. The first array whose document makes no
/// array fails it.
pub fn build_batch<E>(nodes: &Vec<SnapshotNode>, places: &Vec<usize>) -> (r: Result<
    Vec<VarMeta<E>>,
    RustytreeError,
>)
    requires
        forall|k: int| 0 <= k < places@.len() ==> places@[k] < nodes@.len(),
    ensures
        match r {
            Ok(vars) => are_vars_of(vars@, nodes@, places@),
            Err(e) => {
                &&& e matches RustytreeError::Other(m)
                &&& exists|k: int|
                    0 <= k < places@.len() && is_array_message(
                        nodes@,
                        #[trigger] places@[k] as int,
                        m@,
                    ) && forall|l: int|
                        0 <= l < k ==> makes_array(nodes@, #[trigger] places@[l] as int)
            },
        },
{
    let mut vars: Vec<VarMeta<E>> = Vec::new();
    let mut k: usize = 0;
    while k < places.len()
        invariant
            forall|l: int| 0 <= l < places@.len() ==> places@[l] < nodes@.len(),
            k <= places.len(),
            are_vars_of(vars@, nodes@, places@.take(k as int)),
        decreases places.len() - k,
    {
        let ghost before = vars@;
        match build_var_meta_from_snapshot(&nodes[places[k]]) {
            Ok(var) => {
                vars.push(var);
                proof {
                    assert forall|l: int| 0 <= l < vars@.len() implies is_shown_var(
                        #[trigger] vars@[l],
                        nodes@,
                        places@.take(k + 1)[l] as int,
                    ) by {
                        if l < k {
                            assert(vars@[l] == before[l]);
                            assert(places@.take(k + 1)[l] == places@.take(k as int)[l]);
                        }
                    }
                }
            },
            Err(e) => {
                proof {
                    assert forall|l: int| 0 <= l < k implies makes_array(
                        nodes@,
                        #[trigger] places@[l] as int,
                    ) by {
                        assert(is_shown_var(vars@[l], nodes@, places@.take(k as int)[l] as int));
                    }
                    assert(places@[k as int] < nodes@.len());
                }
                return Err(e);
            },
        }
        k += 1;
    }
    proof {
        assert(places@.take(places@.len() as int) =~= places@);
    }
    Ok(vars)
}

/// Job `b` has variables and its group is not among the groups.
pub open spec fn is_orphan_job<E>(
    groups: Seq<(String, AttrMap)>,
    jobs: Seq<(String, Vec<VarMeta<E>>)>,
    b: int,
) -> bool {
    0 <= b < jobs.len() && jobs[b].1@.len() > 0 && !ordered::has_name(groups, jobs[b].0@)
}

/// `out` are the groups with the variables that the jobs have for them, and no
/// job has variables for another group.
pub open spec fn is_attached<E>(
    out: Seq<NodeData<E>>,
    groups: Seq<(String, AttrMap)>,
    jobs: Seq<(String, Vec<VarMeta<E>>)>,
) -> bool {
    &&& forall|b: int| !#[trigger] is_orphan_job(groups, jobs, b)
    &&& out.len() == groups.len()
    &&& forall|j: int|
        0 <= j < out.len() ==> {
            &&& (#[trigger] out[j]).path@ == groups[j].0@
            &&& out[j].attrs == groups[j].1
            &&& out[j].vars@ == ordered::listed(jobs, groups[j].0@)
        }
}

/// Put the variables that were built for each group into it. Groups without any
/// have none; variables without a group are an error.
pub fn attach_vars<E>(
    groups: Vec<(String, AttrMap)>,
    jobs: Vec<(String, Vec<VarMeta<E>>)>,
) -> (r: Result<Vec<NodeData<E>>, RustytreeError>)
    requires
        ordered::ascending(groups@),
        ordered::ascending(jobs@),
    ensures
        match r {
            Ok(out) => is_attached(out@, groups@, jobs@),
            Err(e) => {
                &&& e matches RustytreeError::Other(m)
                &&& exists|b: int| #[trigger]
                    is_orphan_job(groups@, jobs@, b) && m@ == orphan_failure(jobs@[b].0@)
                        && forall|c: int| 0 <= c < b ==> !#[trigger] is_orphan_job(
                        groups@,
                        jobs@,
                        c,
                    )
            },
        },
{
    let ghost all = jobs@;
    let ghost names = groups@;
    let mut left: Vec<(String, Vec<VarMeta<E>>)> = jobs;
    let mut slots: Vec<Vec<VarMeta<E>>> = Vec::new();
    let mut j: usize = 0;
    while j < groups.len()
        invariant
            j <= groups.len(),
            slots.len() == j,
            forall|l: int| 0 <= l < slots@.len() ==> (#[trigger] slots@[l])@.len() == 0,
        decreases groups.len() - j,
    {
        slots.push(Vec::new());
        j += 1;
    }
    let ghost mut d: int = 0;
    proof {
        assert(all.skip(0) =~= all);
        assert forall|l: int| 0 <= l < slots@.len() implies (#[trigger] slots@[l])@
            == ordered::listed(all.take(0), names[l].0@) by {
            assert(slots@[l]@ =~= Seq::<VarMeta<E>>::empty());
        }
    }
    while left.len() > 0
        invariant
            groups@ == names,
            jobs@ == all,
            ordered::ascending(names),
            ordered::ascending(all),
            0 <= d <= all.len(),
            left@ == all.skip(d),
            slots@.len() == names.len(),
            forall|b: int| 0 <= b < d ==> !#[trigger] is_orphan_job(names, all, b),
            forall|l: int|
                0 <= l < slots@.len() ==> (#[trigger] slots@[l])@ == ordered::listed(
                    all.take(d),
                    names[l].0@,
                ),
        decreases left.len(),
    {
        let (name, vars) = left.remove(0);
        proof {
            assert(all.skip(d)[0] == all[d]);
            assert(all.skip(d).remove(0) =~= all.skip(d + 1));
        }
        let ghost slots_before = slots@;
        let (at, found) = ordered::place(&groups, name.as_str());
        if found {
            slots.set(at, vars);
        } else if vars.len() > 0 {
            let mut m: String = "icechunk: arrays under ".to_owned();
            m.append(name.as_str());
            m.append(" have no parent group");
            assert(is_orphan_job(names, all, d));
            return Err(RustytreeError::Other(m));
        }
        proof {
            let seen = all.take(d);
            let more = all.take(d + 1);
            assert(ordered::ascending(more)) by {
                assert forall|p: int, q: int|
                    #![trigger more[p], more[q]]
                    0 <= p < q < more.len() implies text::text_lt(more[p].0@, more[q].0@) by {
                    assert(more[p] == all[p] && more[q] == all[q]);
                }
            }
            assert forall|l: int| 0 <= l < slots@.len() implies (#[trigger] slots@[l])@
                == ordered::listed(more, names[l].0@) by {
                lemma_listed_next(all, d, names[l].0@);
                if found && l == at {
                } else {
                    if names[l].0@ == name@ {
                        assert(ordered::has_name(names, name@));
                        ordered::lemma_names_differ(names, l, at as int);
                    }
                    assert(slots@[l] == slots_before[l]);
                }
            }
            assert(!is_orphan_job(names, all, d));
            d = d + 1;
        }
    }
    proof {
        assert(d == all.len()) by {
            assert(all.skip(d).len() == all.len() - d);
        }
        assert(all.take(d) =~= all);
    }
    let mut rest: Vec<(String, AttrMap)> = groups;
    let mut out: Vec<NodeData<E>> = Vec::new();
    let ghost filled = slots@;
    proof {
        assert(names.skip(0) =~= names);
        assert(filled.skip(0) =~= filled);
    }
    while rest.len() > 0
        invariant
            out@.len() <= names.len(),
            filled.len() == names.len(),
            rest@ == names.skip(out@.len() as int),
            slots@ == filled.skip(out@.len() as int),
            forall|l: int|
                0 <= l < filled.len() ==> (#[trigger] filled[l])@ == ordered::listed(
                    all,
                    names[l].0@,
                ),
            forall|l: int|
                0 <= l < out@.len() ==> {
                    &&& (#[trigger] out@[l]).path@ == names[l].0@
                    &&& out@[l].attrs == names[l].1
                    &&& out@[l].vars@ == ordered::listed(all, names[l].0@)
                },
        decreases rest.len(),
    {
        let ghost n = out@.len() as int;
        let (path, found) = rest.remove(0);
        let vars: Vec<VarMeta<E>> = slots.remove(0);
        proof {
            assert(names.skip(n)[0] == names[n]);
            assert(names.skip(n).remove(0) =~= names.skip(n + 1));
            assert(filled.skip(n)[0] == filled[n]);
            assert(filled.skip(n).remove(0) =~= filled.skip(n + 1));
        }
        out.push(NodeData { path, attrs: found, vars });
    }
    proof {
        assert(names.skip(out@.len() as int).len() == 0);
    }
    Ok(out)
}

/// What is listed under a name once one more entry is counted.
proof fn lemma_listed_next<T>(all: Seq<(String, Vec<T>)>, d: int, name: Seq<char>)
    requires
        ordered::ascending(all),
        0 <= d < all.len(),
    ensures
        ordered::listed(all.take(d + 1), name) == if all[d].0@ == name {
            all[d].1@
        } else {
            ordered::listed(all.take(d), name)
        },
{
    let seen = all.take(d);
    let more = all.take(d + 1);
    assert forall|p: int, q: int|
        #![trigger more[p], more[q]]
        0 <= p < q < more.len() implies text::text_lt(more[p].0@, more[q].0@) by {
        assert(more[p] == all[p] && more[q] == all[q]);
    }
    assert forall|p: int, q: int|
        #![trigger seen[p], seen[q]]
        0 <= p < q < seen.len() implies text::text_lt(seen[p].0@, seen[q].0@) by {
        assert(seen[p] == all[p] && seen[q] == all[q]);
    }
    if all[d].0@ == name {
        assert(more[d] == all[d]);
        ordered::lemma_name_at(more, d);
    } else if ordered::has_name(seen, name) {
        let k = ordered::name_at(seen, name);
        assert(more[k] == seen[k]);
        ordered::lemma_name_at(more, k);
    } else if ordered::has_name(more, name) {
        let k = ordered::name_at(more, name);
        assert(k < d);
        assert(seen[k] == more[k]);
    }
}

/// `jobs` are the variables built for each batch.
pub open spec fn are_jobs_of<E>(
    jobs: Seq<(String, Vec<VarMeta<E>>)>,
    nodes: Seq<SnapshotNode>,
    batches: Seq<(String, Vec<usize>)>,
) -> bool {
    &&& jobs.len() == batches.len()
    &&& forall|b: int|
        0 <= b < jobs.len() ==> (#[trigger] jobs[b]).0@ == batches[b].0@ && are_vars_of(
            jobs[b].1@,
            nodes,
            batches[b].1@,
        )
}

/// All array nodes at the places make arrays.
pub open spec fn all_make_arrays(nodes: Seq<SnapshotNode>, places: Seq<usize>) -> bool {
    forall|k: int| 0 <= k < places.len() ==> makes_array(nodes, #[trigger] places[k] as int)
}

/// In the order of the batches, and of the places in each, the array node at
/// place `k` of batch `b` is the first whose document makes no array.
pub open spec fn is_batch_failure(
    nodes: Seq<SnapshotNode>,
    batches: Seq<(String, Vec<usize>)>,
    b: int,
    k: int,
) -> bool {
    &&& 0 <= b < batches.len()
    &&& 0 <= k < batches[b].1@.len()
    &&& !makes_array(nodes, batches[b].1@[k] as int)
    &&& all_make_arrays(nodes, batches[b].1@.take(k))
    &&& forall|c: int| 0 <= c < b ==> all_make_arrays(nodes, (#[trigger] batches[c]).1@)
}

/// Build the variables of every batch, one batch after another.
pub fn build_batches<E>(nodes: &Vec<SnapshotNode>, batches: &Vec<(String, Vec<usize>)>) -> (r:
    Result<Vec<(String, Vec<VarMeta<E>>)>, RustytreeError>)
    requires
        forall|b: int, k: int|
            0 <= b < batches@.len() && 0 <= k < batches@[b].1@.len()
                ==> #[trigger] batches@[b].1@[k] < nodes@.len(),
    ensures
        match r {
            Ok(jobs) => are_jobs_of(jobs@, nodes@, batches@),
            Err(e) => {
                &&& e matches RustytreeError::Other(m)
                &&& exists|b: int, k: int| #[trigger]
                    is_batch_failure(nodes@, batches@, b, k) && is_array_message(
                        nodes@,
                        batches@[b].1@[k] as int,
                        m@,
                    )
            },
        },
{
    let mut jobs: Vec<(String, Vec<VarMeta<E>>)> = Vec::new();
    let mut b: usize = 0;
    while b < batches.len()
        invariant
            forall|c: int, k: int|
                0 <= c < batches@.len() && 0 <= k < batches@[c].1@.len()
                    ==> #[trigger] batches@[c].1@[k] < nodes@.len(),
            b <= batches.len(),
            jobs@.len() == b,
            forall|c: int|
                0 <= c < b ==> (#[trigger] jobs@[c]).0@ == batches@[c].0@ && are_vars_of(
                    jobs@[c].1@,
                    nodes@,
                    batches@[c].1@,
                ),
        decreases batches.len() - b,
    {
        let ghost places = batches@[b as int].1@;
        match build_batch(nodes, &batches[b].1) {
            Ok(vars) => {
                jobs.push((batches[b].0.clone(), vars));
            },
            Err(e) => {
                proof {
                    let m = e->Other_0@;
                    let k = choose|k: int|
                        0 <= k < places.len() && is_array_message(
                            nodes@,
                            #[trigger] places[k] as int,
                            m,
                        ) && forall|l: int|
                            0 <= l < k ==> makes_array(nodes@, #[trigger] places[l] as int);
                    assert forall|c: int| 0 <= c < b implies all_make_arrays(
                        nodes@,
                        (#[trigger] batches@[c]).1@,
                    ) by {
                        assert(are_vars_of(jobs@[c].1@, nodes@, batches@[c].1@));
                        assert forall|l: int| 0 <= l < batches@[c].1@.len() implies makes_array(
                            nodes@,
                            #[trigger] batches@[c].1@[l] as int,
                        ) by {
                            assert(is_shown_var(
                                jobs@[c].1@[l],
                                nodes@,
                                batches@[c].1@[l] as int,
                            ));
                        }
                    }
                    assert(all_make_arrays(nodes@, places.take(k))) by {
                        assert forall|l: int| 0 <= l < k implies makes_array(
                            nodes@,
                            #[trigger] places.take(k)[l] as int,
                        ) by {
                            assert(places.take(k)[l] == places[l]);
                        }
                    }
                    assert(is_batch_failure(nodes@, batches@, b as int, k));
                }
                return Err(e);
            },
        }
        b += 1;
    }
    Ok(jobs)
}

/// The paths of the nodes ascend strictly.
pub open spec fn paths_ascend<E>(out: Seq<NodeData<E>>) -> bool {
    forall|i: int, j: int|
        #![trigger out[i], out[j]]
        0 <= i < j < out.len() ==> text::text_lt(out[i].path@, out[j].path@)
}

/// `shown` is a group that the walk shows, with its attributes and with all
/// arrays that the walk shows in it, in the order of the node list.
pub open spec fn is_node_of<E>(
    shown: NodeData<E>,
    nodes: Seq<SnapshotNode>,
    sel: Selection,
) -> bool {
    &&& is_shown_group(shown.path@, shown.attrs@, nodes, sel)
    &&& are_vars_of(shown.vars@, nodes, arrays_in(nodes, sel, shown.path@))
}

/// `out` is what the walk shows of the snapshot: each group once, in the order
/// of the paths, and every array in its group.
pub open spec fn is_walk_of<E>(
    out: Seq<NodeData<E>>,
    nodes: Seq<SnapshotNode>,
    sel: Selection,
) -> bool {
    &&& paths_ascend(out)
    &&& forall|j: int| 0 <= j < out.len() ==> is_node_of(#[trigger] out[j], nodes, sel)
    &&& forall|i: int|
        0 <= i < nodes.len() && shows_group(sel, #[trigger] nodes[i]) ==> node::has_node(
            out,
            nodes[i].path@,
        )
    &&& forall|i: int|
        0 <= i < nodes.len() && shows_array(sel, #[trigger] nodes[i]) ==> node::has_node(
            out,
            walk::parent(nodes[i].path@),
        )
}

/// Node `i` is an array that is shown and whose document makes no array.
pub open spec fn array_fails(nodes: Seq<SnapshotNode>, sel: Selection, i: int) -> bool {
    0 <= i < nodes.len() && shows_array(sel, nodes[i]) && !makes_array(nodes, i)
}

/// Node `i` is an array that is shown, and its group is not.
pub open spec fn is_orphan(nodes: Seq<SnapshotNode>, sel: Selection, i: int) -> bool {
    &&& 0 <= i < nodes.len()
    &&& shows_array(sel, nodes[i])
    &&& forall|k: int|
        0 <= k < nodes.len() && shows_group(sel, #[trigger] nodes[k]) ==> nodes[k].path@ != walk::parent(
            nodes[i].path@,
        )
}

/// By the order of their groups, and in one group by that of the node list,
/// array `i` does not come after array `k`.
pub open spec fn comes_no_later(nodes: Seq<SnapshotNode>, i: int, k: int) -> bool {
    ||| text::text_lt(walk::parent(nodes[i].path@), walk::parent(nodes[k].path@))
    ||| walk::parent(nodes[i].path@) == walk::parent(nodes[k].path@) && i <= k
}

/// Array `i` is the first that fails.
pub open spec fn is_first_array_failure(nodes: Seq<SnapshotNode>, sel: Selection, i: int) -> bool {
    array_fails(nodes, sel, i) && forall|k: int| #[trigger]
        array_fails(nodes, sel, k) ==> comes_no_later(nodes, i, k)
}

/// Array `i` is the first without a group.
pub open spec fn is_first_orphan(nodes: Seq<SnapshotNode>, sel: Selection, i: int) -> bool {
    is_orphan(nodes, sel, i) && forall|k: int| #[trigger]
        is_orphan(nodes, sel, k) ==> comes_no_later(nodes, i, k)
}

/// `m` is the message of a failed walk: of the first group that fails; where
/// none does, of the first array that fails; where none does, of the first
/// group that has arrays and is not shown.
pub open spec fn is_walk_message(nodes: Seq<SnapshotNode>, sel: Selection, m: Seq<char>) -> bool {
    ||| exists|i: int| #[trigger]
        is_first_group_failure(nodes, sel, i) && is_group_message(nodes, i, m)
    ||| {
        &&& forall|i: int| !#[trigger] group_fails(nodes, sel, i)
        &&& exists|i: int| #[trigger]
            is_first_array_failure(nodes, sel, i) && is_array_message(nodes, i, m)
    }
    ||| {
        &&& forall|i: int| !#[trigger] group_fails(nodes, sel, i)
        &&& forall|i: int| !#[trigger] array_fails(nodes, sel, i)
        &&& exists|i: int| #[trigger]
            is_first_orphan(nodes, sel, i) && m == orphan_failure(walk::parent(nodes[i].path@))
    }
}

/// Nothing stands in the way of the walk: the documents of all shown groups can
/// be read, those of all shown arrays make arrays, and the groups of all shown
/// arrays are shown.
pub open spec fn can_walk(nodes: Seq<SnapshotNode>, sel: Selection) -> bool {
    &&& forall|i: int| !#[trigger] group_fails(nodes, sel, i)
    &&& forall|i: int| !#[trigger] array_fails(nodes, sel, i)
    &&& forall|i: int| !#[trigger] is_orphan(nodes, sel, i)
}

/// The group that the walk starts at is among those that it shows.
pub open spec fn shows_root(nodes: Seq<SnapshotNode>, sel: Selection) -> bool {
    exists|i: int|
        0 <= i < nodes.len() && shows_group(sel, #[trigger] nodes[i]) && nodes[i].path@
            == walk::normalized(sel.root)
}

/// The places of the arrays in a group are places of arrays in that group, in
/// the order of the node list.
pub proof fn lemma_arrays_in(nodes: Seq<SnapshotNode>, sel: Selection, path: Seq<char>)
    requires
        nodes.len() <= usize::MAX,
    ensures
        forall|k: int|
            0 <= k < arrays_in(nodes, sel, path).len() ==> {
                let place = #[trigger] arrays_in(nodes, sel, path)[k] as int;
                0 <= place < nodes.len() && shows_array(sel, nodes[place]) && walk::parent(
                    nodes[place].path@,
                ) == path
            },
        forall|k: int, l: int|
            0 <= k < l < arrays_in(nodes, sel, path).len() ==> #[trigger] arrays_in(
                nodes,
                sel,
                path,
            )[k] < #[trigger] arrays_in(nodes, sel, path)[l],
    decreases nodes.len(),
{
    if nodes.len() > 0 {
        let init = nodes.drop_last();
        lemma_arrays_in(init, sel, path);
        let rest = arrays_in(init, sel, path);
        let all = arrays_in(nodes, sel, path);
        assert forall|k: int| 0 <= k < all.len() implies {
            let place = #[trigger] all[k] as int;
            0 <= place < nodes.len() && shows_array(sel, nodes[place]) && walk::parent(nodes[place].path@)
                == path
        } by {
            if k < rest.len() {
                assert(all[k] == rest[k]);
                assert(nodes[rest[k] as int] == init[rest[k] as int]);
            }
        }
        assert forall|k: int, l: int| 0 <= k < l < all.len() implies #[trigger] all[k]
            < #[trigger] all[l] by {
            assert(all[k] == rest[k]);
            if l < rest.len() {
                assert(all[l] == rest[l]);
            }
        }
    }
}

/// Every array that is shown has a place among the arrays of its group.
pub proof fn lemma_array_has_place(
    nodes: Seq<SnapshotNode>,
    sel: Selection,
    i: int,
) -> (k: int)
    requires
        nodes.len() <= usize::MAX,
        0 <= i < nodes.len(),
        shows_array(sel, nodes[i]),
    ensures
        0 <= k < arrays_in(nodes, sel, walk::parent(nodes[i].path@)).len(),
        arrays_in(nodes, sel, walk::parent(nodes[i].path@))[k] == i,
    decreases nodes.len(),
{
    let init = nodes.drop_last();
    if i == nodes.len() - 1 {
        arrays_in(nodes, sel, walk::parent(nodes[i].path@)).len() - 1
    } else {
        assert(init[i] == nodes[i]);
        lemma_array_has_place(init, sel, i)
    }
}

/// The jobs have the names of the batches, in their order.
proof fn lemma_jobs_ascend<E>(
    jobs: Seq<(String, Vec<VarMeta<E>>)>,
    nodes: Seq<SnapshotNode>,
    batches: Seq<(String, Vec<usize>)>,
)
    requires
        ordered::ascending(batches),
        are_jobs_of(jobs, nodes, batches),
    ensures
        ordered::ascending(jobs),
{
    assert forall|i: int, j: int|
        #![trigger jobs[i], jobs[j]]
        0 <= i < j < jobs.len() implies text::text_lt(jobs[i].0@, jobs[j].0@) by {
        assert(text::text_lt(batches[i].0@, batches[j].0@));
    }
}

/// The places in a batch are those of the arrays in its group.
proof fn lemma_batch(
    batches: Seq<(String, Vec<usize>)>,
    nodes: Seq<SnapshotNode>,
    sel: Selection,
    b: int,
)
    requires
        are_batches_of(batches, nodes, sel),
        0 <= b < batches.len(),
    ensures
        batches[b].1@ == arrays_in(nodes, sel, batches[b].0@),
        batches[b].1@.len() > 0,
{
    ordered::lemma_name_at(batches, b);
    assert(ordered::listed(batches, batches[b].0@) == arrays_in(nodes, sel, batches[b].0@));
}

/// The batch that a shown array is in, and its place there.
proof fn lemma_array_has_batch(
    batches: Seq<(String, Vec<usize>)>,
    nodes: Seq<SnapshotNode>,
    sel: Selection,
    i: int,
) -> (at: (int, int))
    requires
        nodes.len() <= usize::MAX,
        are_batches_of(batches, nodes, sel),
        0 <= i < nodes.len(),
        shows_array(sel, nodes[i]),
    ensures
        0 <= at.0 < batches.len(),
        batches[at.0].0@ == walk::parent(nodes[i].path@),
        0 <= at.1 < batches[at.0].1@.len(),
        batches[at.0].1@[at.1] == i,
{
    let path = walk::parent(nodes[i].path@);
    let k = lemma_array_has_place(nodes, sel, i);
    assert(ordered::listed(batches, path) == arrays_in(nodes, sel, path));
    assert(ordered::has_name(batches, path));
    let b = ordered::name_at(batches, path);
    (b, k)
}

/// The pieces make the walk: groups and batches that were planned for a
/// snapshot, variables that were built for the batches in whatever way, and
/// nodes that the variables were attached to are what the walk shows.
pub proof fn law_pieces_make_the_walk<E>(
    groups: Seq<(String, AttrMap)>,
    batches: Seq<(String, Vec<usize>)>,
    jobs: Seq<(String, Vec<VarMeta<E>>)>,
    out: Seq<NodeData<E>>,
    nodes: Seq<SnapshotNode>,
    sel: Selection,
)
    requires
        nodes.len() <= usize::MAX,
        are_groups_of(groups, nodes, sel),
        are_batches_of(batches, nodes, sel),
        are_jobs_of(jobs, nodes, batches),
        is_attached(out, groups, jobs),
    ensures
        is_walk_of(out, nodes, sel),
{
    lemma_jobs_ascend(jobs, nodes, batches);
    assert forall|i: int, j: int|
        #![trigger out[i], out[j]]
        0 <= i < j < out.len() implies text::text_lt(out[i].path@, out[j].path@) by {
        assert(text::text_lt(groups[i].0@, groups[j].0@));
    }
    assert forall|j: int| 0 <= j < out.len() implies is_node_of(#[trigger] out[j], nodes, sel) by {
        let path = groups[j].0@;
        assert(is_shown_group(groups[j].0@, groups[j].1@, nodes, sel));
        assert(ordered::listed(batches, path) == arrays_in(nodes, sel, path));
        if ordered::has_name(batches, path) {
            let b = ordered::name_at(batches, path);
            lemma_batch(batches, nodes, sel, b);
            assert(jobs[b].0@ == path);
            ordered::lemma_name_at(jobs, b);
        } else if ordered::has_name(jobs, path) {
            let b = ordered::name_at(jobs, path);
            assert(batches[b].0@ == path);
        }
    }
    assert forall|i: int|
        0 <= i < nodes.len() && shows_group(sel, #[trigger] nodes[i]) implies node::has_node(
        out,
        nodes[i].path@,
    ) by {
        let j = ordered::name_at(groups, nodes[i].path@);
        assert(out[j].path@ == nodes[i].path@);
    }
    assert forall|i: int|
        0 <= i < nodes.len() && shows_array(sel, #[trigger] nodes[i]) implies node::has_node(
        out,
        walk::parent(nodes[i].path@),
    ) by {
        let (b, k) = lemma_array_has_batch(batches, nodes, sel, i);
        assert(jobs[b].1@.len() > 0);
        assert(!is_orphan_job(groups, jobs, b));
        let j = ordered::name_at(groups, jobs[b].0@);
        assert(out[j].path@ == walk::parent(nodes[i].path@));
    }
}

/// The first failure among the batches is the first array that fails.
proof fn lemma_batch_failure(
    batches: Seq<(String, Vec<usize>)>,
    nodes: Seq<SnapshotNode>,
    sel: Selection,
    b: int,
    k: int,
)
    requires
        nodes.len() <= usize::MAX,
        are_batches_of(batches, nodes, sel),
        is_batch_failure(nodes, batches, b, k),
    ensures
        is_first_array_failure(nodes, sel, batches[b].1@[k] as int),
{
    let i = batches[b].1@[k] as int;
    lemma_batch(batches, nodes, sel, b);
    lemma_arrays_in(nodes, sel, batches[b].0@);
    assert forall|o: int| #[trigger] array_fails(nodes, sel, o) implies comes_no_later(
        nodes,
        i,
        o,
    ) by {
        let (c, l) = lemma_array_has_batch(batches, nodes, sel, o);
        if c < b {
            assert(all_make_arrays(nodes, batches[c].1@));
            assert(makes_array(nodes, batches[c].1@[l] as int));
        } else if c == b {
            if l < k {
                assert(batches[b].1@.take(k)[l] == batches[b].1@[l]);
                assert(makes_array(nodes, batches[b].1@.take(k)[l] as int));
            } else if k < l {
                let places = arrays_in(nodes, sel, batches[b].0@);
                assert(places[k] < places[l]);
            }
        } else {
            assert(text::text_lt(batches[b].0@, batches[c].0@));
        }
    }
}

/// Where every batch was built, no array fails.
proof fn lemma_no_array_fails<E>(
    batches: Seq<(String, Vec<usize>)>,
    jobs: Seq<(String, Vec<VarMeta<E>>)>,
    nodes: Seq<SnapshotNode>,
    sel: Selection,
)
    requires
        nodes.len() <= usize::MAX,
        are_batches_of(batches, nodes, sel),
        are_jobs_of(jobs, nodes, batches),
    ensures
        forall|i: int| !#[trigger] array_fails(nodes, sel, i),
{
    assert forall|i: int| !#[trigger] array_fails(nodes, sel, i) by {
        if array_fails(nodes, sel, i) {
            let (b, k) = lemma_array_has_batch(batches, nodes, sel, i);
            assert(are_vars_of(jobs[b].1@, nodes, batches[b].1@));
            assert(is_shown_var(jobs[b].1@[k], nodes, batches[b].1@[k] as int));
        }
    }
}

/// The first job without a group is that of the first array without one.
proof fn lemma_orphan_job<E>(
    groups: Seq<(String, AttrMap)>,
    batches: Seq<(String, Vec<usize>)>,
    jobs: Seq<(String, Vec<VarMeta<E>>)>,
    nodes: Seq<SnapshotNode>,
    sel: Selection,
    b: int,
)
    requires
        nodes.len() <= usize::MAX,
        are_groups_of(groups, nodes, sel),
        are_batches_of(batches, nodes, sel),
        are_jobs_of(jobs, nodes, batches),
        is_orphan_job(groups, jobs, b),
        forall|c: int| 0 <= c < b ==> !#[trigger] is_orphan_job(groups, jobs, c),
    ensures
        is_first_orphan(nodes, sel, batches[b].1@[0] as int),
        walk::parent(nodes[batches[b].1@[0] as int].path@) == jobs[b].0@,
{
    let i = batches[b].1@[0] as int;
    lemma_batch(batches, nodes, sel, b);
    lemma_arrays_in(nodes, sel, batches[b].0@);
    assert(is_orphan(nodes, sel, i)) by {
        assert forall|k: int|
            0 <= k < nodes.len() && shows_group(
                sel,
                #[trigger] nodes[k],
            ) implies nodes[k].path@ != walk::parent(nodes[i].path@) by {
            assert(ordered::has_name(groups, nodes[k].path@));
        }
    }
    assert forall|o: int| #[trigger] is_orphan(nodes, sel, o) implies comes_no_later(
        nodes,
        i,
        o,
    ) by {
        let (c, l) = lemma_array_has_batch(batches, nodes, sel, o);
        if c < b {
            assert(!is_orphan_job(groups, jobs, c));
            assert(jobs[c].1@.len() > 0);
            let g = ordered::name_at(groups, jobs[c].0@);
            assert(is_shown_group(groups[g].0@, groups[g].1@, nodes, sel));
            let from = choose|from: int| #[trigger]
                has_attrs_from(groups[g].0@, groups[g].1@, nodes, sel, from);
            assert(shows_group(sel, nodes[from]));
        } else if c == b {
            let places = arrays_in(nodes, sel, batches[b].0@);
            if l > 0 {
                assert(places[0] < places[l]);
            }
        } else {
            assert(text::text_lt(batches[b].0@, batches[c].0@));
        }
    }
}

/// What the walk shows leaves no array without its group.
proof fn lemma_no_orphan<E>(out: Seq<NodeData<E>>, nodes: Seq<SnapshotNode>, sel: Selection)
    requires
        is_walk_of(out, nodes, sel),
    ensures
        forall|i: int| !#[trigger] is_orphan(nodes, sel, i),
{
    assert forall|i: int| !#[trigger] is_orphan(nodes, sel, i) by {
        if is_orphan(nodes, sel, i) {
            let path = walk::parent(nodes[i].path@);
            assert(node::has_node(out, path));
            let j = choose|j: int| 0 <= j < out.len() && (#[trigger] out[j]).path@ == path;
            assert(is_node_of(out[j], nodes, sel));
            let from = choose|from: int| #[trigger]
                has_attrs_from(out[j].path@, out[j].attrs@, nodes, sel, from);
            assert(shows_group(sel, nodes[from]));
        }
    }
}

/// The walk of a snapshot, from its node list.
///
/// Every shown group comes out once, in the order of the paths, so that a group
/// comes before the groups in it; its arrays are in it in the order of the node
/// list. Without a pattern the group that the walk starts at has to be there; a
/// pattern may match nothing.
pub fn walk_snapshot<E>(
    nodes: &Vec<SnapshotNode>,
    root_path: &str,
    recursive: bool,
    pattern: Option<&GlobPredicate>,
) -> (r: Result<Vec<NodeData<E>>, RustytreeError>)
    ensures
        r is Ok <==> can_walk(nodes@, selection(root_path@, recursive, pattern)) && (pattern is None
            ==> shows_root(nodes@, selection(root_path@, recursive, pattern))),
        match r {
            Ok(out) => is_walk_of(out@, nodes@, selection(root_path@, recursive, pattern)),
            Err(e) => if can_walk(nodes@, selection(root_path@, recursive, pattern)) {
                e matches RustytreeError::NotFound(m) && m@ == root_path@
            } else {
                &&& e matches RustytreeError::Other(m)
                &&& is_walk_message(nodes@, selection(root_path@, recursive, pattern), m@)
            },
        },
{
    let ghost sel = selection(root_path@, recursive, pattern);
    assert(nodes@.len() <= usize::MAX) by {
        assert(nodes.len() <= usize::MAX);
    }
    let plan: SnapshotPlan = match plan_snapshot(nodes, root_path, recursive, pattern) {
        Ok(plan) => plan,
        Err(e) => {
            return Err(e);
        },
    };
    let ghost groups = plan.groups@;
    let ghost batches = plan.batches@;
    proof {
        assert forall|b: int, k: int|
            0 <= b < batches.len() && 0 <= k
                < batches[b].1@.len() implies #[trigger] batches[b].1@[k] < nodes@.len() by {
            lemma_batch(batches, nodes@, sel, b);
            lemma_arrays_in(nodes@, sel, batches[b].0@);
        }
    }
    let jobs: Vec<(String, Vec<VarMeta<E>>)> = match build_batches(nodes, &plan.batches) {
        Ok(jobs) => jobs,
        Err(e) => {
            proof {
                let m = e->Other_0@;
                let (b, k) = choose|b: int, k: int| #[trigger]
                    is_batch_failure(nodes@, batches, b, k) && is_array_message(
                        nodes@,
                        batches[b].1@[k] as int,
                        m,
                    );
                lemma_batch_failure(batches, nodes@, sel, b, k);
            }
            return Err(e);
        },
    };
    proof {
        lemma_jobs_ascend(jobs@, nodes@, batches);
        lemma_no_array_fails(batches, jobs@, nodes@, sel);
    }
    let ghost built = jobs@;
    match attach_vars(plan.groups, jobs) {
        Ok(out) => {
            proof {
                law_pieces_make_the_walk(groups, batches, built, out@, nodes@, sel);
                lemma_no_orphan(out@, nodes@, sel);
                law_root_comes_out(out@, nodes@, sel);
            }
            match pattern {
                Some(_) => Ok(out),
                None => walk::require_group(out, root_path),
            }
        },
        Err(e) => {
            proof {
                let m = e->Other_0@;
                let b = choose|b: int| #[trigger]
                    is_orphan_job(groups, built, b) && m == orphan_failure(built[b].0@)
                        && forall|c: int| 0 <= c < b ==> !#[trigger] is_orphan_job(
                        groups,
                        built,
                        c,
                    );
                lemma_orphan_job(groups, batches, built, nodes@, sel, b);
            }
            Err(e)
        },
    }
}

// ---------------------------------------------------------------------------
// Laws
// ---------------------------------------------------------------------------

/// A group comes before the groups below it.
pub proof fn law_parents_come_first<E>(out: Seq<NodeData<E>>, i: int, j: int, rest: Seq<char>)
    requires
        paths_ascend(out),
        0 <= i < out.len(),
        0 <= j < out.len(),
        rest.len() > 0,
        out[j].path@ == out[i].path@ + rest,
    ensures
        i < j,
{
    ordered::lemma_prefix_first(out[i].path@, rest);
    if i == j {
        ordered::lemma_lt_irreflexive(out[i].path@);
    } else if j < i {
        ordered::lemma_lt_transitive(out[j].path@, out[i].path@, out[j].path@);
        ordered::lemma_lt_irreflexive(out[j].path@);
    }
}

/// No group comes out twice.
pub proof fn law_each_group_once<E>(out: Seq<NodeData<E>>, i: int, j: int)
    requires
        paths_ascend(out),
        0 <= i < j < out.len(),
    ensures
        out[i].path@ != out[j].path@,
{
    ordered::lemma_lt_irreflexive(out[i].path@);
}

/// A walk has a node for the group that it starts at if and only if it shows that
/// group, so a walk that succeeds without a pattern always has one.
pub proof fn law_root_comes_out<E>(
    out: Seq<NodeData<E>>,
    nodes: Seq<SnapshotNode>,
    sel: Selection,
)
    requires
        is_walk_of(out, nodes, sel),
    ensures
        node::has_node(out, walk::normalized(sel.root)) <==> shows_root(nodes, sel),
{
    let root = walk::normalized(sel.root);
    if node::has_node(out, root) {
        let j = choose|j: int| 0 <= j < out.len() && (#[trigger] out[j]).path@ == root;
        assert(is_node_of(out[j], nodes, sel));
        let from = choose|from: int| #[trigger]
            has_attrs_from(out[j].path@, out[j].attrs@, nodes, sel, from);
        assert(shows_group(sel, nodes[from]));
    }
}

/// A walk that is not recursive shows the group that it starts at and nothing
/// else. Where a pattern prunes that group, it shows nothing.
pub proof fn law_flat_walk_shows_the_root_only<E>(
    out: Seq<NodeData<E>>,
    nodes: Seq<SnapshotNode>,
    sel: Selection,
)
    requires
        is_walk_of(out, nodes, sel),
        !sel.recursive,
    ensures
        out.len() == if shows_root(nodes, sel) {
            1nat
        } else {
            0nat
        },
        out.len() == 1 ==> out[0].path@ == walk::normalized(sel.root),
{
    law_root_comes_out(out, nodes, sel);
    assert forall|j: int| 0 <= j < out.len() implies (#[trigger] out[j]).path@ == walk::normalized(
        sel.root,
    ) by {
        assert(is_node_of(out[j], nodes, sel));
        let from = choose|from: int| #[trigger]
            has_attrs_from(out[j].path@, out[j].attrs@, nodes, sel, from);
        assert(shows_group(sel, nodes[from]));
    }
    if out.len() > 1 {
        law_each_group_once(out, 0, 1);
        assert(out[0].path@ == out[1].path@);
    }
    if out.len() == 1 {
        assert(out[0].path@ == walk::normalized(sel.root));
    }
}

/// Every node of a walk is a group of the snapshot.
pub proof fn law_nothing_is_made_up<E>(
    out: Seq<NodeData<E>>,
    nodes: Seq<SnapshotNode>,
    sel: Selection,
    j: int,
) -> (i: int)
    requires
        is_walk_of(out, nodes, sel),
        0 <= j < out.len(),
    ensures
        0 <= i < nodes.len(),
        nodes[i].kind == NodeKind::Group,
        nodes[i].path@ == out[j].path@,
{
    assert(is_node_of(out[j], nodes, sel));
    choose|from: int| #[trigger]
        has_attrs_from(out[j].path@, out[j].attrs@, nodes, sel, from)
}

/// A recursive walk without a pattern shows every group and every array of the
/// snapshot.
pub proof fn law_full_walk_shows_everything(
    nodes: Seq<SnapshotNode>,
    root: Seq<char>,
    i: int,
)
    requires
        0 <= i < nodes.len(),
    ensures
        ({
            let sel = Selection { root, recursive: true, pattern: None };
            &&& nodes[i].kind == NodeKind::Group ==> shows_group(sel, nodes[i])
            &&& nodes[i].kind == NodeKind::Array ==> shows_array(sel, nodes[i])
        }),
{
}

/// Pruning loses no match: what a walk shows without a pattern it shows with
/// one, if its group lies on the way to a path that the pattern matches, or at
/// it.
pub proof fn law_pruning_keeps_matches(
    node: SnapshotNode,
    sel: Selection,
    pattern: Seq<char>,
    path: Seq<char>,
)
    requires
        sel.pattern is None,
        glob::can_prune(pattern),
        glob::path_matches(text::components(pattern), path),
    ensures
        ({
            let pruned = Selection { pattern: Some(glob::compiled(pattern)), ..sel };
            &&& shows_group(sel, node) && glob::at_or_below(path, node.path@) ==> shows_group(
                pruned,
                node,
            )
            &&& shows_array(sel, node) && glob::at_or_below(path, walk::parent(node.path@))
                ==> shows_array(pruned, node)
        }),
{
    if glob::at_or_below(path, node.path@) {
        glob::law_no_match_is_pruned(pattern, node.path@, path);
    }
    if glob::at_or_below(path, walk::parent(node.path@)) {
        glob::law_no_match_is_pruned(pattern, walk::parent(node.path@), path);
    }
}

/// A pattern only takes away.
pub proof fn law_pruning_adds_nothing(node: SnapshotNode, sel: Selection)
    ensures
        ({
            let full = Selection { pattern: None, ..sel };
            &&& shows_group(sel, node) ==> shows_group(full, node)
            &&& shows_array(sel, node) ==> shows_array(full, node)
        }),
{
}

/// The snapshot settles what a walk shows: two results have the same groups at
/// the same places, with the same attributes and the same arrays in each.
pub proof fn law_snapshot_settles_the_walk<E, F>(
    a: Seq<NodeData<E>>,
    b: Seq<NodeData<F>>,
    nodes: Seq<SnapshotNode>,
    sel: Selection,
)
    requires
        is_walk_of(a, nodes, sel),
        is_walk_of(b, nodes, sel),
    ensures
        node::lists_alike(a, b),
{
    lemma_same_groups(a, b, nodes, sel);
    lemma_same_groups(b, a, nodes, sel);
    lemma_same_order(a, b, a.len() as int);
    lemma_same_order(b, a, b.len() as int);
    assert forall|j: int| 0 <= j < a.len() implies node::nodes_alike(#[trigger] a[j], b[j]) by {
        assert(a[j].path@ == b[j].path@);
        let places = arrays_in(nodes, sel, a[j].path@);
        assert(is_node_of(a[j], nodes, sel));
        assert(is_node_of(b[j], nodes, sel));
        let x = choose|x: int| #[trigger] has_attrs_from(a[j].path@, a[j].attrs@, nodes, sel, x);
        let y = choose|y: int| #[trigger] has_attrs_from(b[j].path@, b[j].attrs@, nodes, sel, y);
        assert(x == y) by {
            if x < y {
                assert(shows_group(sel, nodes[y]));
            } else if y < x {
                assert(shows_group(sel, nodes[x]));
            }
        }
        let doc = group_attrs_of(nodes[x].user_data@)->Ok_0;
        assert(attrs::is_attr_map_of(a[j].attrs@, doc));
        assert(attrs::are_of_one_document(a[j].attrs@, b[j].attrs@));
        assert forall|k: int| 0 <= k < a[j].vars@.len() implies node::vars_alike(
            #[trigger] a[j].vars@[k],
            b[j].vars@[k],
        ) by {
            let place = places[k] as int;
            assert(is_shown_var(a[j].vars@[k], nodes, place));
            assert(is_shown_var(b[j].vars@[k], nodes, place));
            let facts = zarr::array_document(nodes[place].path@, nodes[place].user_data@)->Ok_0;
            node::law_metadata_settle_the_variable(
                a[j].vars@[k],
                b[j].vars@[k],
                nodes[place].path@,
                facts,
            );
        }
    }
}

/// `path` is that of the group `root`, or of something below it.
pub open spec fn is_under(path: Seq<char>, root: Seq<char>) -> bool {
    ||| path == root
    ||| {
        &&& path.len() > root.len()
        &&& text::starts_with(path, root)
        &&& root == seq!['/'] || path[root.len() as int] == '/'
    }
}

/// The group that a walk starts at comes first, where it is shown and every path
/// of the node list is that group's or below it.
pub proof fn law_root_comes_first<E>(
    out: Seq<NodeData<E>>,
    nodes: Seq<SnapshotNode>,
    sel: Selection,
)
    requires
        is_walk_of(out, nodes, sel),
        shows_root(nodes, sel),
        forall|i: int|
            0 <= i < nodes.len() ==> is_under(
                (#[trigger] nodes[i]).path@,
                walk::normalized(sel.root),
            ),
    ensures
        out.len() > 0,
        out[0].path@ == walk::normalized(sel.root),
{
    let root = walk::normalized(sel.root);
    law_root_comes_out(out, nodes, sel);
    let j = choose|j: int| 0 <= j < out.len() && (#[trigger] out[j]).path@ == root;
    let first = out[0].path@;
    assert(is_node_of(out[0], nodes, sel));
    let from = choose|from: int| #[trigger]
        has_attrs_from(out[0].path@, out[0].attrs@, nodes, sel, from);
    assert(is_under(nodes[from].path@, root));
    if first != root {
        assert(text::text_lt(first, root));
        let rest = first.skip(root.len() as int);
        assert(first =~= root + rest);
        ordered::lemma_prefix_first(root, rest);
        ordered::lemma_lt_transitive(root, first, root);
        ordered::lemma_lt_irreflexive(root);
    }
}

/// How many groups are handled at once makes no difference to the walk of a
/// snapshot: with any two limits both walks have a permit to go on with, and
/// they show the same nodes in the same order.
pub proof fn law_walk_does_not_depend_on_permits<E, F>(
    first: Option<usize>,
    second: Option<usize>,
    a: Seq<NodeData<E>>,
    b: Seq<NodeData<F>>,
    nodes: Seq<SnapshotNode>,
    sel: Selection,
)
    requires
        is_walk_of(a, nodes, sel),
        is_walk_of(b, nodes, sel),
    ensures
        walk::permits_of(first) >= 1 && walk::permits_of(second) >= 1,
        node::lists_alike(a, b),
{
    law_snapshot_settles_the_walk(a, b, nodes, sel);
}

/// What one result shows the other shows too.
proof fn lemma_same_groups<E, F>(
    a: Seq<NodeData<E>>,
    b: Seq<NodeData<F>>,
    nodes: Seq<SnapshotNode>,
    sel: Selection,
)
    requires
        is_walk_of(a, nodes, sel),
        is_walk_of(b, nodes, sel),
    ensures
        forall|j: int| 0 <= j < a.len() ==> node::has_node(b, (#[trigger] a[j]).path@),
{
    assert forall|j: int| 0 <= j < a.len() implies node::has_node(b, (#[trigger] a[j]).path@) by {
        assert(is_node_of(a[j], nodes, sel));
        let from = choose|from: int| #[trigger]
            has_attrs_from(a[j].path@, a[j].attrs@, nodes, sel, from);
        assert(shows_group(sel, nodes[from]));
        assert(node::has_node(b, nodes[from].path@));
    }
}

/// Ascending lists that have the same paths have them at the same places.
proof fn lemma_same_order<E, F>(a: Seq<NodeData<E>>, b: Seq<NodeData<F>>, n: int)
    requires
        paths_ascend(a),
        paths_ascend(b),
        forall|j: int| 0 <= j < a.len() ==> node::has_node(b, (#[trigger] a[j]).path@),
        forall|j: int| 0 <= j < b.len() ==> node::has_node(a, (#[trigger] b[j]).path@),
        0 <= n <= a.len(),
    ensures
        n <= b.len(),
        forall|j: int| 0 <= j < n ==> (#[trigger] a[j]).path@ == b[j].path@,
    decreases n,
{
    if n > 0 {
        lemma_same_order(a, b, n - 1);
        let path = a[n - 1].path@;
        assert(node::has_node(b, path));
        let k = choose|k: int| 0 <= k < b.len() && (#[trigger] b[k]).path@ == path;
        if k < n - 1 {
            assert(a[k].path@ == b[k].path@);
            ordered::lemma_lt_irreflexive(path);
            assert(text::text_lt(a[k].path@, a[n - 1].path@));
        } else if k > n - 1 {
            let other = b[n - 1].path@;
            assert(text::text_lt(b[n - 1].path@, b[k].path@));
            assert(node::has_node(a, other));
            let l = choose|l: int| 0 <= l < a.len() && (#[trigger] a[l]).path@ == other;
            if l < n - 1 {
                assert(a[l].path@ == b[l].path@);
                ordered::lemma_lt_irreflexive(other);
                assert(text::text_lt(b[l].path@, b[n - 1].path@));
            } else if l == n - 1 {
                ordered::lemma_lt_irreflexive(path);
            } else {
                assert(text::text_lt(a[n - 1].path@, a[l].path@));
                ordered::lemma_lt_transitive(path, other, path);
                ordered::lemma_lt_irreflexive(path);
            }
        }
    }
}

/// Without a pattern the path alone decides what a walk shows. A recursive walk
/// shows every group and every array; any other shows the group that it starts
/// at and the arrays whose parent is that group, the root among such groups.
pub proof fn law_path_decides_what_is_shown(node: SnapshotNode, root: Seq<char>, recursive: bool)
    ensures
        shows_group(selection(root, recursive, None), node) <==> node.kind == NodeKind::Group && (
        recursive || node.path@ == walk::normalized(root)),
        shows_array(selection(root, recursive, None), node) <==> node.kind == NodeKind::Array && (
        recursive || walk::parent(node.path@) == walk::normalized(root)),
{
}

/// The arrays directly in a group are shown by a walk that starts there and goes
/// no further: those at `group/name`, or at `/name` where the group is the root.
/// Arrays further down are not.
pub proof fn law_flat_walk_shows_the_arrays_of_its_group(
    node: SnapshotNode,
    group: Seq<char>,
    name: Seq<char>,
    below: Seq<char>,
)
    requires
        node.kind == NodeKind::Array,
        !name.contains('/'),
        group.len() > 0,
        group.last() != '/',
    ensures
        node.path@ == seq!['/'] + name ==> shows_array(selection(seq!['/'], false, None), node),
        node.path@ == group.push('/') + name ==> shows_array(selection(group, false, None), node),
        node.path@ == group.push('/') + below.push('/') + name ==> !shows_array(
            selection(group, false, None),
            node,
        ),
{
    walk::law_parent_of_a_member(group, name);
    walk::law_named_path_stays_as_it_is(group);
    walk::law_named_path_stays_as_it_is(seq!['/']);
    walk::law_trailing_slash_makes_no_difference(Seq::<char>::empty());
    assert(Seq::<char>::empty().push('/') =~= seq!['/']);
    let middle = group.push('/') + below;
    walk::law_parent_of_a_member(middle, name);
    assert(middle.push('/') + name =~= group.push('/') + below.push('/') + name);
    assert(middle.len() > group.len());
}

/// A pattern takes away what it does not let pass, and nothing else.
pub proof fn law_pattern_takes_away_what_it_bars(
    node: SnapshotNode,
    sel: Selection,
    segments: Option<Seq<Seq<char>>>,
)
    requires
        sel.pattern == Some(segments),
    ensures
        shows_group(sel, node) <==> shows_group((Selection { pattern: None, ..sel }), node)
            && glob::may_match_below(segments, node.path@),
        shows_array(sel, node) <==> shows_array((Selection { pattern: None, ..sel }), node)
            && glob::may_match_below(segments, walk::parent(node.path@)),
{
}

/// The selection is what the caller asked for.
pub proof fn law_selection_is_what_was_asked_for(
    root: Seq<char>,
    recursive: bool,
    pattern: &GlobPredicate,
)
    ensures
        selection(root, recursive, None) == (Selection { root, recursive, pattern: None }),
        selection(root, recursive, Some(pattern)) == (Selection {
            root,
            recursive,
            pattern: Some(pattern@),
        }),
{
}

/// Every array that is shown comes out once its walk succeeds: in the node of its
/// group, under its own name, as what its document makes.
pub proof fn law_every_shown_array_comes_out<E>(
    out: Seq<NodeData<E>>,
    nodes: Seq<SnapshotNode>,
    sel: Selection,
    i: int,
    group: Seq<char>,
    name: Seq<char>,
) -> (at: (int, int))
    requires
        is_walk_of(out, nodes, sel),
        nodes.len() <= usize::MAX,
        0 <= i < nodes.len(),
        shows_array(sel, nodes[i]),
        nodes[i].path@ == group.push('/') + name,
        !name.contains('/'),
    ensures
        0 <= at.0 < out.len(),
        0 <= at.1 < out[at.0].vars@.len(),
        out[at.0].path@ == if group.len() == 0 {
            seq!['/']
        } else {
            group
        },
        out[at.0].vars@[at.1].name@ == name,
        zarr::array_document(nodes[i].path@, nodes[i].user_data@) matches Ok(facts)
            && node::is_var_of(out[at.0].vars@[at.1], nodes[i].path@, facts),
{
    let path = walk::parent(nodes[i].path@);
    walk::law_parent_of_a_member(group, name);
    if group.len() == 0 {
        assert(group.push('/') =~= seq!['/']);
    }
    assert(node::has_node(out, path));
    let j = choose|j: int| 0 <= j < out.len() && (#[trigger] out[j]).path@ == path;
    assert(is_node_of(out[j], nodes, sel));
    let k = lemma_array_has_place(nodes, sel, i);
    let places = arrays_in(nodes, sel, path);
    assert(are_vars_of(out[j].vars@, nodes, places));
    assert(is_shown_var(out[j].vars@[k], nodes, places[k] as int));
    (j, k)
}

/// Every variable that comes out is an array of the snapshot, in its group; the
/// variables of a group come in the order of the node list.
pub proof fn law_every_variable_is_an_array_of_its_group<E>(
    out: Seq<NodeData<E>>,
    nodes: Seq<SnapshotNode>,
    sel: Selection,
    j: int,
    k: int,
    l: int,
) -> (at: (int, int))
    requires
        is_walk_of(out, nodes, sel),
        nodes.len() <= usize::MAX,
        0 <= j < out.len(),
        0 <= k <= l < out[j].vars@.len(),
    ensures
        0 <= at.0 <= at.1 < nodes.len(),
        k < l ==> at.0 < at.1,
        forall|i: int|
            i == at.0 || i == at.1 ==> (#[trigger] nodes[i]).kind == NodeKind::Array
                && walk::parent(nodes[i].path@) == out[j].path@ && shows_array(sel, nodes[i]),
        zarr::array_document(nodes[at.0].path@, nodes[at.0].user_data@) matches Ok(facts)
            && node::is_var_of(out[j].vars@[k], nodes[at.0].path@, facts),
        zarr::array_document(nodes[at.1].path@, nodes[at.1].user_data@) matches Ok(facts)
            && node::is_var_of(out[j].vars@[l], nodes[at.1].path@, facts),
{
    let path = out[j].path@;
    let places = arrays_in(nodes, sel, path);
    assert(is_node_of(out[j], nodes, sel));
    assert(are_vars_of(out[j].vars@, nodes, places));
    lemma_arrays_in(nodes, sel, path);
    assert(is_shown_var(out[j].vars@[k], nodes, places[k] as int));
    assert(is_shown_var(out[j].vars@[l], nodes, places[l] as int));
    if k < l {
        assert(places[k] < places[l]);
    }
    let a = places[k] as int;
    let b = places[l] as int;
    assert(shows_array(sel, nodes[a]) && shows_array(sel, nodes[b]));
    (a, b)
}

/// A node has the attributes of its group: those of the last group with its path,
/// and none where that has an empty document.
pub proof fn law_node_has_the_attributes_of_its_group<E>(
    out: Seq<NodeData<E>>,
    nodes: Seq<SnapshotNode>,
    sel: Selection,
    j: int,
) -> (i: int)
    requires
        is_walk_of(out, nodes, sel),
        0 <= j < out.len(),
    ensures
        0 <= i < nodes.len(),
        nodes[i].kind == NodeKind::Group,
        nodes[i].path@ == out[j].path@,
        forall|k: int|
            i < k < nodes.len() && (#[trigger] nodes[k]).kind == NodeKind::Group ==> nodes[k].path@
                != out[j].path@,
        nodes[i].user_data@.len() == 0 ==> out[j].attrs@.len() == 0,
        nodes[i].user_data@.len() > 0 ==> (zarr::group_document(nodes[i].user_data@) matches Ok(doc)
            && attrs::is_attr_map_of(out[j].attrs@, doc)),
{
    assert(is_node_of(out[j], nodes, sel));
    let i = choose|i: int| #[trigger]
        has_attrs_from(out[j].path@, out[j].attrs@, nodes, sel, i);
    assert forall|k: int|
        i < k < nodes.len() && (#[trigger] nodes[k]).kind == NodeKind::Group implies nodes[k].path@
        != out[j].path@ by {
        if nodes[k].path@ == out[j].path@ {
            assert(shows_group(sel, nodes[k]));
        }
    }
    if nodes[i].user_data@.len() == 0 {
        let none = Seq::<(Seq<char>, attrs::JsonModel)>::empty();
        assert(attrs::is_attr_map_of(out[j].attrs@, none));
        if out[j].attrs@.len() > 0 {
            attrs::law_document_settles_the_attributes(out[j].attrs@, none, 0);
        }
    }
    i
}

/// The nodes come in the order of their paths, and every group that is shown has
/// one.
pub proof fn law_every_shown_group_comes_out<E>(
    out: Seq<NodeData<E>>,
    nodes: Seq<SnapshotNode>,
    sel: Selection,
    i: int,
)
    requires
        is_walk_of(out, nodes, sel),
        0 <= i < nodes.len(),
        shows_group(sel, nodes[i]),
    ensures
        exists|j: int| 0 <= j < out.len() && (#[trigger] out[j]).path@ == nodes[i].path@,
        forall|j: int, k: int|
            #![trigger out[j], out[k]]
            0 <= j < k < out.len() ==> text::text_lt(out[j].path@, out[k].path@),
{
    assert(node::has_node(out, nodes[i].path@));
}

/// Nothing is amiss in what a walk that succeeds shows: the documents of its groups
/// can be read, those of its arrays make arrays, and every array has its group.
pub proof fn law_walk_overlooks_nothing(nodes: Seq<SnapshotNode>, sel: Selection, i: int)
    requires
        can_walk(nodes, sel),
        0 <= i < nodes.len(),
    ensures
        shows_group(sel, nodes[i]) && nodes[i].user_data@.len() > 0 ==> zarr::group_document(
            nodes[i].user_data@,
        ) is Ok,
        shows_array(sel, nodes[i]) ==> zarr::array_document(
            nodes[i].path@,
            nodes[i].user_data@,
        ) is Ok,
        shows_array(sel, nodes[i]) ==> exists|k: int|
            0 <= k < nodes.len() && shows_group(sel, #[trigger] nodes[k]) && nodes[k].path@
                == walk::parent(nodes[i].path@),
{
    assert(!group_fails(nodes, sel, i));
    assert(!array_fails(nodes, sel, i));
    assert(!is_orphan(nodes, sel, i));
}

/// A walk that finds nothing amiss succeeds.
pub proof fn law_walk_fails_for_a_reason(nodes: Seq<SnapshotNode>, sel: Selection)
    requires
        forall|i: int|
            0 <= i < nodes.len() && shows_group(sel, #[trigger] nodes[i])
                && nodes[i].user_data@.len() > 0 ==> zarr::group_document(
                nodes[i].user_data@,
            ) is Ok,
        forall|i: int|
            0 <= i < nodes.len() && shows_array(sel, #[trigger] nodes[i]) ==> zarr::array_document(
                nodes[i].path@,
                nodes[i].user_data@,
            ) is Ok,
        forall|i: int|
            0 <= i < nodes.len() && shows_array(sel, #[trigger] nodes[i]) ==> exists|k: int|
                0 <= k < nodes.len() && shows_group(sel, #[trigger] nodes[k]) && nodes[k].path@
                    == walk::parent(nodes[i].path@),
    ensures
        can_walk(nodes, sel),
{
    assert forall|i: int| !#[trigger] group_fails(nodes, sel, i) by {
        if group_fails(nodes, sel, i) {
            assert(shows_group(sel, nodes[i]));
        }
    }
    assert forall|i: int| !#[trigger] array_fails(nodes, sel, i) by {
        if array_fails(nodes, sel, i) {
            assert(shows_array(sel, nodes[i]));
        }
    }
    assert forall|i: int| !#[trigger] is_orphan(nodes, sel, i) by {
        if is_orphan(nodes, sel, i) {
            assert(shows_array(sel, nodes[i]));
        }
    }
}

/// Whether the group that a walk starts at is there is a matter of the node list:
/// some group that is shown has its path.
pub proof fn law_start_is_looked_for_by_its_path(
    nodes: Seq<SnapshotNode>,
    root: Seq<char>,
    recursive: bool,
)
    ensures
        shows_root(nodes, selection(root, recursive, None)) <==> exists|i: int|
            0 <= i < nodes.len() && (#[trigger] nodes[i]).kind == NodeKind::Group && nodes[i].path@
                == walk::normalized(root),
{
    let sel = selection(root, recursive, None);
    if exists|i: int|
        0 <= i < nodes.len() && (#[trigger] nodes[i]).kind == NodeKind::Group && nodes[i].path@
            == walk::normalized(root) {
        let i = choose|i: int|
            0 <= i < nodes.len() && (#[trigger] nodes[i]).kind == NodeKind::Group && nodes[i].path@
                == walk::normalized(root);
        assert(shows_group(sel, nodes[i]));
    }
}

/// A walk with groups that cannot be read is failed by the first of them.
pub proof fn law_first_broken_group_fails_the_walk(
    nodes: Seq<SnapshotNode>,
    sel: Selection,
    m: Seq<char>,
    i: int,
    err: Seq<char>,
)
    requires
        is_walk_message(nodes, sel, m),
        0 <= i < nodes.len(),
        shows_group(sel, nodes[i]),
        nodes[i].user_data@.len() > 0,
        zarr::group_document(nodes[i].user_data@) == Err::<
            Seq<(Seq<char>, attrs::JsonModel)>,
            Seq<char>,
        >(err),
        forall|k: int|
            0 <= k < i && shows_group(sel, #[trigger] nodes[k]) && nodes[k].user_data@.len() > 0
                ==> zarr::group_document(nodes[k].user_data@) is Ok,
    ensures
        m == "icechunk: failed to parse group zarr.json at "@ + nodes[i].path@ + ": "@ + err,
{
    assert(group_fails(nodes, sel, i));
    let f = choose|f: int| #[trigger]
        is_first_group_failure(nodes, sel, f) && is_group_message(nodes, f, m);
    assert(f == i) by {
        if f < i {
            assert(nodes[f].user_data@.len() > 0);
        } else if i < f {
            assert(!group_fails(nodes, sel, i));
        }
    }
}

/// Where all groups can be read, the first array whose document makes none fails
/// the walk: the first by the order of the groups, and in one group by that of
/// the node list.
pub proof fn law_first_broken_array_fails_the_walk(
    nodes: Seq<SnapshotNode>,
    sel: Selection,
    m: Seq<char>,
    i: int,
    fault: DocumentFault,
)
    requires
        is_walk_message(nodes, sel, m),
        forall|k: int|
            0 <= k < nodes.len() && shows_group(sel, #[trigger] nodes[k])
                && nodes[k].user_data@.len() > 0 ==> zarr::group_document(
                nodes[k].user_data@,
            ) is Ok,
        0 <= i < nodes.len(),
        shows_array(sel, nodes[i]),
        zarr::array_document(nodes[i].path@, nodes[i].user_data@) == Err::<
            zarr::ArrayFacts,
            DocumentFault,
        >(fault),
        forall|k: int|
            0 <= k < nodes.len() && shows_array(sel, #[trigger] nodes[k]) && zarr::array_document(
                nodes[k].path@,
                nodes[k].user_data@,
            ) is Err ==> text::text_lt(
                walk::parent(nodes[i].path@),
                walk::parent(nodes[k].path@),
            ) || walk::parent(nodes[i].path@) == walk::parent(nodes[k].path@) && i <= k,
    ensures
        tells_of_fault(m, nodes[i].path@, fault),
{
    assert forall|k: int| !#[trigger] group_fails(nodes, sel, k) by {
        if 0 <= k < nodes.len() {
            assert(shows_group(sel, nodes[k]) && nodes[k].user_data@.len() > 0
                ==> zarr::group_document(nodes[k].user_data@) is Ok);
        }
    }
    assert(array_fails(nodes, sel, i));
    let f = choose|f: int| #[trigger]
        is_first_array_failure(nodes, sel, f) && is_array_message(nodes, f, m);
    assert(comes_no_later(nodes, f, i));
    assert(shows_array(sel, nodes[f]));
    let a = walk::parent(nodes[i].path@);
    let b = walk::parent(nodes[f].path@);
    if text::text_lt(a, b) && text::text_lt(b, a) {
        ordered::lemma_lt_transitive(a, b, a);
    }
    ordered::lemma_lt_irreflexive(a);
    assert(f == i);
}

/// Where all groups can be read and all arrays made, the first array whose group
/// is not shown fails the walk, by the name of that group.
pub proof fn law_first_stray_array_fails_the_walk(
    nodes: Seq<SnapshotNode>,
    sel: Selection,
    m: Seq<char>,
    i: int,
)
    requires
        is_walk_message(nodes, sel, m),
        forall|k: int|
            0 <= k < nodes.len() && shows_group(sel, #[trigger] nodes[k])
                && nodes[k].user_data@.len() > 0 ==> zarr::group_document(
                nodes[k].user_data@,
            ) is Ok,
        forall|k: int|
            0 <= k < nodes.len() && shows_array(sel, #[trigger] nodes[k]) ==> zarr::array_document(
                nodes[k].path@,
                nodes[k].user_data@,
            ) is Ok,
        0 <= i < nodes.len(),
        shows_array(sel, nodes[i]),
        forall|g: int|
            0 <= g < nodes.len() && shows_group(sel, #[trigger] nodes[g]) ==> nodes[g].path@
                != walk::parent(nodes[i].path@),
        forall|k: int|
            0 <= k < nodes.len() && shows_array(sel, #[trigger] nodes[k]) && text::text_lt(
                walk::parent(nodes[k].path@),
                walk::parent(nodes[i].path@),
            ) ==> exists|g: int|
                0 <= g < nodes.len() && shows_group(sel, #[trigger] nodes[g]) && nodes[g].path@
                    == walk::parent(nodes[k].path@),
    ensures
        m == "icechunk: arrays under "@ + walk::parent(nodes[i].path@) + " have no parent group"@,
{
    assert forall|k: int| !#[trigger] group_fails(nodes, sel, k) by {
        if group_fails(nodes, sel, k) {
            assert(shows_group(sel, nodes[k]));
        }
    }
    assert forall|k: int| !#[trigger] array_fails(nodes, sel, k) by {
        if array_fails(nodes, sel, k) {
            assert(shows_array(sel, nodes[k]));
        }
    }
    assert(is_orphan(nodes, sel, i));
    let f = choose|f: int| #[trigger]
        is_first_orphan(nodes, sel, f) && m == orphan_failure(walk::parent(nodes[f].path@));
    assert(comes_no_later(nodes, f, i));
    assert(shows_array(sel, nodes[f]));
}

/// The message for a broken array names its path and says what is wrong with its
/// document.
pub proof fn law_message_names_the_array(m: Seq<char>, path: Seq<char>, fault: DocumentFault)
    requires
        tells_of_fault(m, path, fault),
    ensures
        match fault {
            DocumentFault::Parse(err) => m == "icechunk: failed to parse array zarr.json at "@ + path
                + ": "@ + err,
            DocumentFault::Unfit(Unfit::Sizes) => m
                == "icechunk: failed to construct Array from snapshot for "@ + path + ": "@
                + "declared sizes are past what this machine can count"@,
            DocumentFault::Unfit(Unfit::Fill) => m
                == "icechunk: failed to construct Array from snapshot for "@ + path + ": "@
                + "the fill value does not fit its data type"@,
            DocumentFault::Unfit(Unfit::Order) => m
                == "icechunk: failed to construct Array from snapshot for "@ + path + ": "@
                + "column-major order without an axis"@,
            DocumentFault::Refused => text::starts_with(
                m,
                "icechunk: failed to construct Array from snapshot for "@ + path + ": "@,
            ),
        },
{
}

/// The message for a document that makes no array tells of its fault, and ends
/// with what was said of it.
pub proof fn law_failure_message_fits_the_fault(
    path: Seq<char>,
    failure: DocumentFailure,
    fault: DocumentFault,
)
    requires
        zarr::is_failure_for(failure, fault),
    ensures
        tells_of_fault(array_failure(path, failure), path, fault),
        failure matches DocumentFailure::Parse(err) ==> text::ends_with(
            array_failure(path, failure),
            err@,
        ),
        failure matches DocumentFailure::Refused(err) ==> text::ends_with(
            array_failure(path, failure),
            err@,
        ),
{
    match failure {
        DocumentFailure::Parse(err) => {
            text::law_parts_are_found(
                "icechunk: failed to parse array zarr.json at "@ + path + ": "@,
                err@,
                Seq::<char>::empty(),
            );
        },
        DocumentFailure::Refused(err) => {
            text::lemma_prefix_of_join(refused_array(path), err@);
            text::law_parts_are_found(refused_array(path), err@, Seq::<char>::empty());
        },
        _ => {},
    }
}

/// A plan holds what is chosen: every group that is shown is among its groups, and
/// every array that is shown among the arrays of its group.
pub proof fn law_plan_holds_what_is_chosen(
    groups: Seq<(String, AttrMap)>,
    batches: Seq<(String, Vec<usize>)>,
    nodes: Seq<SnapshotNode>,
    sel: Selection,
    i: int,
)
    requires
        nodes.len() <= usize::MAX,
        are_groups_of(groups, nodes, sel),
        are_batches_of(batches, nodes, sel),
        0 <= i < nodes.len(),
    ensures
        shows_group(sel, nodes[i]) ==> exists|j: int|
            0 <= j < groups.len() && (#[trigger] groups[j]).0@ == nodes[i].path@,
        shows_array(sel, nodes[i]) ==> exists|b: int, k: int|
            0 <= b < batches.len() && 0 <= k < batches[b].1@.len() && batches[b].0@ == walk::parent(
                nodes[i].path@,
            ) && #[trigger] batches[b].1@[k] == i,
{
    if shows_group(sel, nodes[i]) {
        assert(ordered::has_name(groups, nodes[i].path@));
    }
    if shows_array(sel, nodes[i]) {
        let (b, k) = lemma_array_has_batch(batches, nodes, sel, i);
        assert(batches[b].1@[k] == i);
    }
}

/// A plan holds nothing else: what is in it under a path is shown and has that
/// path, or is in the group there.
pub proof fn law_plan_holds_nothing_else(
    groups: Seq<(String, AttrMap)>,
    batches: Seq<(String, Vec<usize>)>,
    nodes: Seq<SnapshotNode>,
    sel: Selection,
    b: int,
    k: int,
)
    requires
        nodes.len() <= usize::MAX,
        are_groups_of(groups, nodes, sel),
        are_batches_of(batches, nodes, sel),
    ensures
        0 <= b < groups.len() ==> exists|i: int|
            0 <= i < nodes.len() && shows_group(sel, #[trigger] nodes[i]) && nodes[i].path@
                == groups[b].0@,
        0 <= b < batches.len() && 0 <= k < batches[b].1@.len() ==> {
            let i = batches[b].1@[k] as int;
            &&& 0 <= i < nodes.len()
            &&& shows_array(sel, nodes[i])
            &&& walk::parent(nodes[i].path@) == batches[b].0@
        },
{
    if 0 <= b < groups.len() {
        assert(is_shown_group(groups[b].0@, groups[b].1@, nodes, sel));
        let i = choose|i: int| #[trigger]
            has_attrs_from(groups[b].0@, groups[b].1@, nodes, sel, i);
        assert(shows_group(sel, nodes[i]));
    }
    if 0 <= b < batches.len() && 0 <= k < batches[b].1@.len() {
        lemma_batch(batches, nodes, sel, b);
        lemma_arrays_in(nodes, sel, batches[b].0@);
    }
}

/// The variables built for places are those of the arrays there, one for one.
pub proof fn law_variables_are_built_one_for_one<E>(
    vars: Seq<VarMeta<E>>,
    nodes: Seq<SnapshotNode>,
    places: Seq<usize>,
    k: int,
)
    requires
        are_vars_of(vars, nodes, places),
    ensures
        vars.len() == places.len(),
        0 <= k < vars.len() ==> {
            let node = nodes[places[k] as int];
            zarr::array_document(node.path@, node.user_data@) matches Ok(facts) && node::is_var_of(
                vars[k],
                node.path@,
                facts,
            )
        },
{
    if 0 <= k < vars.len() {
        assert(is_shown_var(vars[k], nodes, places[k] as int));
    }
}

/// Variables go to the group that they were built for, and to no other; a group
/// that none were built for has none.
pub proof fn law_variables_go_to_their_group<E>(
    out: Seq<NodeData<E>>,
    groups: Seq<(String, AttrMap)>,
    jobs: Seq<(String, Vec<VarMeta<E>>)>,
    j: int,
    b: int,
)
    requires
        is_attached(out, groups, jobs),
        ordered::ascending(jobs),
        0 <= j < groups.len(),
    ensures
        out.len() == groups.len(),
        out[j].path@ == groups[j].0@,
        out[j].attrs == groups[j].1,
        0 <= b < jobs.len() && jobs[b].0@ == groups[j].0@ ==> out[j].vars@ == jobs[b].1@,
        (forall|c: int| 0 <= c < jobs.len() ==> (#[trigger] jobs[c]).0@ != groups[j].0@)
            ==> out[j].vars@.len() == 0,
{
    assert(out[j].vars@ == ordered::listed(jobs, groups[j].0@));
    if 0 <= b < jobs.len() {
        ordered::law_entry_is_found_by_its_name(jobs, b, groups[j].0@);
    }
}

/// A text is an icechunk path when it begins with a slash and has no name `..`.
pub proof fn law_icechunk_paths_are_absolute(path: Seq<char>)
    ensures
        ice_path_complaint(path) is None <==> path.len() > 0 && path[0] == '/'
            && !text::components(path).contains(".."@),
{
}

} // verus!
