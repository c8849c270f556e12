//! Per-group metadata snapshot.
//!
//! [`NodeData`] is what the walk produces for each Zarr group: enough to
//! assemble a dataset. [`VarMeta`] has one entry per array in the group, with
//! the array itself, so that chunks can be read later without opening it again.
//!
//! `E` is the form of element values that were read ahead of use.

use crate::attrs;
use crate::attrs::AttrMap;
use crate::dtype_dispatch;
use crate::text;
use crate::zarr;
use crate::zarr::ArrayFacts;
use vstd::prelude::*;
use vstd::string::*;
use zarrs::array::Array;

verus! {

/// Metadata snapshot of one array in a group.
pub struct VarMeta<E> {
    /// Array name as it appears under the parent group, without a slash.
    pub name: String,
    /// Names of the axes, `dim_0`, `dim_1` and so on where the array has none.
    pub dims: Vec<String>,
    /// NumPy-style dtype string.
    pub dtype: String,
    /// Array shape in elements.
    pub shape: Vec<u64>,
    /// User attributes.
    pub attrs: AttrMap,
    /// The array, tied to no storage.
    pub array: Array<()>,
    /// Element values, where they were read ahead of use.
    pub eager: Option<E>,
}

/// Metadata snapshot of one group.
pub struct NodeData<E> {
    /// Group path, such as `/` or `/sweep_0`.
    pub path: String,
    /// User attributes.
    pub attrs: AttrMap,
    /// Arrays directly under the group.
    pub vars: Vec<VarMeta<E>>,
}

/// `nodes` have one for the group at `path`.
pub open spec fn has_node<E>(nodes: Seq<NodeData<E>>, path: Seq<char>) -> bool {
    exists|j: int| 0 <= j < nodes.len() && (#[trigger] nodes[j]).path@ == path
}

/// The name of axis `i` of an array that has no name for it.
pub open spec fn axis_name(i: int) -> Seq<char> {
    "dim_"@ + text::decimal(i as nat)
}

/// The names of an array's axes.
pub open spec fn dims_of(facts: ArrayFacts) -> Seq<Seq<char>> {
    match facts.dimension_names {
        Some(names) => Seq::new(
            names.len(),
            |i: int|
                match names[i] {
                    Some(name) => name,
                    None => axis_name(i),
                },
        ),
        None => Seq::new(facts.shape.len(), |i: int| axis_name(i)),
    }
}

/// `var` is what the array at `path` with the metadata `facts` is shown as,
/// with no element values read.
pub open spec fn is_var_of<E>(var: VarMeta<E>, path: Seq<char>, facts: ArrayFacts) -> bool {
    &&& var.name@ == text::after_last(path, '/')
    &&& text::texts(var.dims@) == dims_of(facts)
    &&& var.dtype@ == dtype_dispatch::numpy_name(facts.dtype)
    &&& var.shape@ == facts.shape
    &&& attrs::is_attr_map_of(var.attrs@, facts.attrs)
    &&& zarr::array_facts(var.array) == facts
    &&& var.eager is None
}

/// The text `dim_<i>`.
fn synthetic_axis(i: usize) -> (r: String)
    ensures
        r@ == axis_name(i as int),
{
    text::joined("dim_", text::decimal_text(i as u64).as_str())
}

/// The names of the axes of an array of that many axes.
pub fn axis_names(names: Option<Vec<Option<String>>>, axes: usize) -> (r: Vec<String>)
    ensures
        match zarr::names_of(names) {
            Some(given) => r@.len() == given.len() && forall|i: int|
                0 <= i < r@.len() ==> (#[trigger] r@[i])@ == match given[i] {
                    Some(name) => name,
                    None => axis_name(i),
                },
            None => r@.len() == axes && forall|i: int|
                0 <= i < r@.len() ==> (#[trigger] r@[i])@ == axis_name(i),
        },
{
    let mut out: Vec<String> = Vec::new();
    let mut i: usize = 0;
    match names {
        Some(given) => {
            while i < given.len()
                invariant
                    i <= given.len(),
                    out.len() == i,
                    forall|j: int|
                        0 <= j < i ==> (#[trigger] out@[j])@ == match given@[j] {
                            Some(name) => name@,
                            None => axis_name(j),
                        },
                decreases given.len() - i,
            {
                match &given[i] {
                    Some(name) => out.push(name.clone()),
                    None => out.push(synthetic_axis(i)),
                }
                i += 1;
            }
        },
        None => {
            while i < axes
                invariant
                    i <= axes,
                    out.len() == i,
                    forall|j: int| 0 <= j < i ==> (#[trigger] out@[j])@ == axis_name(j),
                decreases axes - i,
            {
                out.push(synthetic_axis(i));
                i += 1;
            }
        },
    }
    out
}

/// Shows an array as a variable of its group.
pub fn var_meta<E>(array: Array<()>, array_path: &str) -> (r: VarMeta<E>)
    ensures
        is_var_of(r, array_path@, zarr::array_facts(array)),
        r.array == array,
{
    let (_, name) = text::split_last(array_path, '/');
    let shape: Vec<u64> = zarr::array_shape(&array);
    let dims: Vec<String> = axis_names(zarr::array_dimension_names(&array), shape.len());
    let dtype: String = dtype_dispatch::zarrs_dtype_to_numpy_str(&zarr::array_dtype(&array));
    let attributes: AttrMap = attrs::clone_attrs(&zarr::array_attributes(&array));
    proof {
        assert(text::texts(dims@) =~= dims_of(zarr::array_facts(array)));
    }
    VarMeta { name, dims, dtype, shape, attrs: attributes, array, eager: None }
}

// ---------------------------------------------------------------------------
// Laws
// ---------------------------------------------------------------------------

/// Two variables show the same array in the same way, whatever values were read
/// of it.
pub open spec fn vars_alike<E, F>(a: VarMeta<E>, b: VarMeta<F>) -> bool {
    &&& a.name@ == b.name@
    &&& text::texts(a.dims@) == text::texts(b.dims@)
    &&& a.dtype@ == b.dtype@
    &&& a.shape@ == b.shape@
    &&& attrs::are_of_one_document(a.attrs@, b.attrs@)
    &&& zarr::array_facts(a.array) == zarr::array_facts(b.array)
}

/// Two nodes show the same group, with the same attributes and variables.
pub open spec fn nodes_alike<E, F>(a: NodeData<E>, b: NodeData<F>) -> bool {
    &&& a.path@ == b.path@
    &&& attrs::are_of_one_document(a.attrs@, b.attrs@)
    &&& a.vars@.len() == b.vars@.len()
    &&& forall|k: int| 0 <= k < a.vars@.len() ==> vars_alike(#[trigger] a.vars@[k], b.vars@[k])
}

/// Two lists have the same nodes at the same places.
pub open spec fn lists_alike<E, F>(a: Seq<NodeData<E>>, b: Seq<NodeData<F>>) -> bool {
    a.len() == b.len() && forall|j: int| 0 <= j < a.len() ==> nodes_alike(#[trigger] a[j], b[j])
}

/// Path and metadata of an array settle the variable that it is shown as.
pub proof fn law_metadata_settle_the_variable<E, F>(
    a: VarMeta<E>,
    b: VarMeta<F>,
    path: Seq<char>,
    facts: ArrayFacts,
)
    requires
        is_var_of(a, path, facts),
        is_var_of(b, path, facts),
    ensures
        vars_alike(a, b),
{
    assert(attrs::is_attr_map_of(a.attrs@, facts.attrs));
    assert(attrs::is_attr_map_of(b.attrs@, facts.attrs));
}

/// The axes of a variable keep their names: at axis `i` stands the name that the
/// array declares for axis `i`, and where it declares none `dim_` and the number
/// of the axis.
pub proof fn law_axes_keep_their_names<E>(
    var: VarMeta<E>,
    path: Seq<char>,
    facts: ArrayFacts,
    i: int,
)
    requires
        is_var_of(var, path, facts),
    ensures
        var.dims@.len() == match facts.dimension_names {
            Some(names) => names.len(),
            None => facts.shape.len(),
        },
        0 <= i < var.dims@.len() ==> var.dims@[i]@ == match facts.dimension_names {
            Some(names) => match names[i] {
                Some(name) => name,
                None => "dim_"@ + text::decimal(i as nat),
            },
            None => "dim_"@ + text::decimal(i as nat),
        },
{
    assert(text::texts(var.dims@).len() == var.dims@.len());
    if 0 <= i < var.dims@.len() {
        assert(text::texts(var.dims@)[i] == var.dims@[i]@);
    }
}

/// A variable shows its array: it has the last name of the path, the shape, the
/// data type and the attributes of the array, and no values yet.
pub proof fn law_variable_shows_its_array<E>(
    var: VarMeta<E>,
    group: Seq<char>,
    name: Seq<char>,
    facts: ArrayFacts,
)
    requires
        is_var_of(var, group.push('/') + name, facts),
        !name.contains('/'),
    ensures
        var.name@ == name,
        var.shape@ == facts.shape,
        facts.dtype.markers.bytes ==> var.dtype@ == "object"@,
        !facts.dtype.markers.bytes ==> var.dtype@ == match facts.dtype.v3_name {
            Some(given) => given,
            None => facts.dtype.display,
        },
        attrs::is_attr_map_of(var.attrs@, facts.attrs),
        zarr::array_facts(var.array) == facts,
        var.eager is None,
{
    let path = group.push('/') + name;
    assert forall|j: int| group.len() + 1 <= j < path.len() implies path[j] != '/' by {
        assert(path[j] == name[j - group.len() - 1]);
    }
    text::lemma_last(path, '/', group.len() as int + 1);
    assert(path.skip(group.len() as int + 1) =~= name);
}

/// The nodes have one for a path exactly when one of them has that path.
pub proof fn law_node_is_found_by_its_path<E>(nodes: Seq<NodeData<E>>, path: Seq<char>, i: int)
    ensures
        0 <= i < nodes.len() ==> has_node(nodes, nodes[i].path@),
        has_node(nodes, path) ==> exists|j: int|
            0 <= j < nodes.len() && (#[trigger] nodes[j]).path@ == path,
{
}

} // verus!
