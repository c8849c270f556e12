//! Element types and their names.
//!
//! A Zarr data type is read into one of eleven primitive types. Naming a data
//! type for Python is a separate concern: more data types can be named than can
//! be read.

use crate::text;
use vstd::prelude::*;
use vstd::string::*;

verus! {

/// The primitive types that elements are read into.
#[derive(Debug, Clone, Copy, PartialEq, Eq, Structural)]
pub enum ElementType {
    Bool,
    I8,
    I16,
    I32,
    I64,
    U8,
    U16,
    U32,
    U64,
    F32,
    F64,
}

/// Which of the data types that this library tells apart a data type is.
#[derive(Debug, Clone, Copy, PartialEq, Eq, Structural)]
pub struct DtypeMarkers {
    pub boolean: bool,
    pub int8: bool,
    pub int16: bool,
    pub int32: bool,
    pub int64: bool,
    pub uint8: bool,
    pub uint16: bool,
    pub uint32: bool,
    pub uint64: bool,
    pub float32: bool,
    pub float64: bool,
    pub bytes: bool,
}

/// A Zarr data type, by what decides how it is read and named.
pub struct DtypeInfo {
    /// Which known data type it is.
    pub markers: DtypeMarkers,
    /// Its name in Zarr V3 metadata, where it has one.
    pub v3_name: Option<String>,
    /// Its display form, which gives the V3 and the V2 name where they differ.
    pub display: String,
}

/// The contents of a [`DtypeInfo`].
pub struct DtypeModel {
    pub markers: DtypeMarkers,
    pub v3_name: Option<Seq<char>>,
    pub display: Seq<char>,
}

impl View for DtypeInfo {
    type V = DtypeModel;

    open spec fn view(&self) -> DtypeModel {
        DtypeModel {
            markers: self.markers,
            v3_name: match self.v3_name {
                Some(name) => Some(name@),
                None => None,
            },
            display: self.display@,
        }
    }
}

/// Whether elements of the data type are read as `t`.
pub open spec fn is_read_as(markers: DtypeMarkers, t: ElementType) -> bool {
    match t {
        ElementType::Bool => markers.boolean,
        ElementType::I8 => markers.int8,
        ElementType::I16 => markers.int16,
        ElementType::I32 => markers.int32,
        ElementType::I64 => markers.int64,
        ElementType::U8 => markers.uint8,
        ElementType::U16 => markers.uint16,
        ElementType::U32 => markers.uint32,
        ElementType::U64 => markers.uint64,
        ElementType::F32 => markers.float32,
        ElementType::F64 => markers.float64,
    }
}

/// The place of `t` in the order in which data types are tried.
pub open spec fn dispatch_rank(t: ElementType) -> int {
    match t {
        ElementType::Bool => 0,
        ElementType::I8 => 1,
        ElementType::I16 => 2,
        ElementType::I32 => 3,
        ElementType::I64 => 4,
        ElementType::U8 => 5,
        ElementType::U16 => 6,
        ElementType::U32 => 7,
        ElementType::U64 => 8,
        ElementType::F32 => 9,
        ElementType::F64 => 10,
    }
}

/// The primitive type that elements of a data type are read into; none where
/// the data type cannot be read. Of several that would do, the first in the
/// order of [`dispatch_rank`] is taken.
pub fn element_type(markers: &DtypeMarkers) -> (r: Option<ElementType>)
    ensures
        match r {
            Some(t) => is_read_as(*markers, t) && forall|u: ElementType| #[trigger]
                is_read_as(*markers, u) ==> dispatch_rank(t) <= dispatch_rank(u),
            None => forall|u: ElementType| !#[trigger] is_read_as(*markers, u),
        },
{
    if markers.boolean {
        Some(ElementType::Bool)
    } else if markers.int8 {
        Some(ElementType::I8)
    } else if markers.int16 {
        Some(ElementType::I16)
    } else if markers.int32 {
        Some(ElementType::I32)
    } else if markers.int64 {
        Some(ElementType::I64)
    } else if markers.uint8 {
        Some(ElementType::U8)
    } else if markers.uint16 {
        Some(ElementType::U16)
    } else if markers.uint32 {
        Some(ElementType::U32)
    } else if markers.uint64 {
        Some(ElementType::U64)
    } else if markers.float32 {
        Some(ElementType::F32)
    } else if markers.float64 {
        Some(ElementType::F64)
    } else {
        None
    }
}

/// The Zarr V3 name of a data type; its display form where it has none.
pub open spec fn zarr_name(dtype: DtypeModel) -> Seq<char> {
    match dtype.v3_name {
        Some(name) => name,
        None => dtype.display,
    }
}

/// The NumPy name of a data type: its Zarr V3 name, and `object` for
/// variable-length binary data.
pub open spec fn numpy_name(dtype: DtypeModel) -> Seq<char> {
    if dtype.markers.bytes {
        "object"@
    } else {
        zarr_name(dtype)
    }
}

/// The dtype's Zarr V3 name, the spelling that appears in the store's own
/// `zarr.json`.
///
/// Use this for diagnostics, not for handing a dtype to NumPy: a user whose
/// metadata says `variable_length_bytes` should not be told that dtype `object`
/// is not supported.
pub fn zarrs_dtype_zarr_name(dtype: &DtypeInfo) -> (r: String)
    ensures
        r@ == zarr_name(dtype@),
{
    match &dtype.v3_name {
        Some(name) => name.clone(),
        None => dtype.display.clone(),
    }
}

/// The canonical NumPy dtype string of a data type.
///
/// The Zarr V3 name is the NumPy name for every data type that can be read.
/// `bytes` is named `object`: `np.dtype("bytes")` has itemsize zero and would
/// mislabel variable-length binary data. Other names that NumPy does not know
/// pass through, so that NumPy refuses them.
pub fn zarrs_dtype_to_numpy_str(dtype: &DtypeInfo) -> (r: String)
    ensures
        r@ == numpy_name(dtype@),
{
    if dtype.markers.bytes {
        return "object".to_owned();
    }
    zarrs_dtype_zarr_name(dtype)
}

/// The message for a data type that cannot be read, by its name in the store.
pub open spec fn unsupported_dtype(name: Seq<char>) -> Seq<char> {
    "rustytree: dtype "@ + name
        + " is not yet supported by ZarrsArrayHandle.read_subset; supported today: bool, int{8,16,32,64}, uint{8,16,32,64}, float{32,64}"@
}

/// What a read is answered with: the primitive type to read into, or the
/// message for a data type that cannot be read, which names it as the store
/// does.
pub fn readable_as(dtype: &DtypeInfo) -> (r: Result<ElementType, String>)
    ensures
        match r {
            Ok(t) => is_read_as(dtype.markers, t) && forall|u: ElementType| #[trigger]
                is_read_as(dtype.markers, u) ==> dispatch_rank(t) <= dispatch_rank(u),
            Err(m) => m@ == unsupported_dtype(zarr_name(dtype@)) && forall|u: ElementType|
                !#[trigger] is_read_as(dtype.markers, u),
        },
{
    match element_type(&dtype.markers) {
        Some(t) => Ok(t),
        None => {
            let mut m: String = "rustytree: dtype ".to_owned();
            m.append(zarrs_dtype_zarr_name(dtype).as_str());
            m.append(
                " is not yet supported by ZarrsArrayHandle.read_subset; supported today: bool, int{8,16,32,64}, uint{8,16,32,64}, float{32,64}",
            );
            Err(m)
        },
    }
}

/// The data type is one of the known ones at most.
pub open spec fn is_single(markers: DtypeMarkers) -> bool {
    &&& forall|t: ElementType, u: ElementType| #[trigger]
        is_read_as(markers, t) && #[trigger] is_read_as(markers, u) ==> t == u
    &&& markers.bytes ==> forall|t: ElementType| !#[trigger] is_read_as(markers, t)
}

/// A data type that can be read has one name for the store and for NumPy.
pub proof fn law_readable_dtype_keeps_its_name(dtype: DtypeModel, t: ElementType)
    requires
        is_single(dtype.markers),
        is_read_as(dtype.markers, t),
    ensures
        numpy_name(dtype) == zarr_name(dtype),
{
}

/// Elements are read as what they are: each data type into the primitive type of
/// its width and kind, and no other data type into it.
pub proof fn law_elements_are_read_as_what_they_are(markers: DtypeMarkers)
    ensures
        is_read_as(markers, ElementType::Bool) == markers.boolean,
        is_read_as(markers, ElementType::I8) == markers.int8,
        is_read_as(markers, ElementType::I16) == markers.int16,
        is_read_as(markers, ElementType::I32) == markers.int32,
        is_read_as(markers, ElementType::I64) == markers.int64,
        is_read_as(markers, ElementType::U8) == markers.uint8,
        is_read_as(markers, ElementType::U16) == markers.uint16,
        is_read_as(markers, ElementType::U32) == markers.uint32,
        is_read_as(markers, ElementType::U64) == markers.uint64,
        is_read_as(markers, ElementType::F32) == markers.float32,
        is_read_as(markers, ElementType::F64) == markers.float64,
{
}

/// No two types are tried at the same time, so a data type is read in one way.
pub proof fn law_types_are_tried_one_by_one(t: ElementType, u: ElementType)
    ensures
        dispatch_rank(t) == dispatch_rank(u) <==> t == u,
        dispatch_rank(ElementType::Bool) <= dispatch_rank(t) <= dispatch_rank(ElementType::F64),
        dispatch_rank(ElementType::Bool) < dispatch_rank(ElementType::I8),
        dispatch_rank(ElementType::I8) < dispatch_rank(ElementType::I16),
        dispatch_rank(ElementType::I16) < dispatch_rank(ElementType::I32),
        dispatch_rank(ElementType::I32) < dispatch_rank(ElementType::I64),
        dispatch_rank(ElementType::I64) < dispatch_rank(ElementType::U8),
        dispatch_rank(ElementType::U8) < dispatch_rank(ElementType::U16),
        dispatch_rank(ElementType::U16) < dispatch_rank(ElementType::U32),
        dispatch_rank(ElementType::U32) < dispatch_rank(ElementType::U64),
        dispatch_rank(ElementType::U64) < dispatch_rank(ElementType::F32),
        dispatch_rank(ElementType::F32) < dispatch_rank(ElementType::F64),
{
}

/// A data type is named as its store names it, in messages always and for NumPy
/// unless it is variable-length binary data. Where it has no name in Zarr V3 its
/// display form stands for it.
pub proof fn law_dtype_is_named_as_in_the_store(dtype: DtypeModel, name: Seq<char>)
    ensures
        dtype.v3_name == Some(name) ==> zarr_name(dtype) == name,
        dtype.v3_name is None ==> zarr_name(dtype) == dtype.display,
        dtype.markers.bytes ==> numpy_name(dtype) == "object"@,
        !dtype.markers.bytes && dtype.v3_name == Some(name) ==> numpy_name(dtype) == name,
        !dtype.markers.bytes && dtype.v3_name is None ==> numpy_name(dtype) == dtype.display,
{
}

/// The message for a data type that cannot be read names it, and two data types
/// that are named differently get different messages.
pub proof fn law_unreadable_dtype_is_named(a: Seq<char>, b: Seq<char>)
    ensures
        text::starts_with(
            unsupported_dtype(a),
            "rustytree: dtype "@ + a + " is not yet supported"@,
        ),
        unsupported_dtype(a) == unsupported_dtype(b) ==> a == b,
{
    let head = "rustytree: dtype "@;
    let tail =
        " is not yet supported by ZarrsArrayHandle.read_subset; supported today: bool, int{8,16,32,64}, uint{8,16,32,64}, float{32,64}"@;
    let start = " is not yet supported"@;
    reveal_strlit(" is not yet supported");
    reveal_strlit(
        " is not yet supported by ZarrsArrayHandle.read_subset; supported today: bool, int{8,16,32,64}, uint{8,16,32,64}, float{32,64}",
    );
    let m = unsupported_dtype(a);
    let p = head + a + start;
    assert(tail.take(start.len() as int) =~= start);
    assert(m.take(p.len() as int) =~= p) by {
        assert forall|i: int| 0 <= i < p.len() implies m[i] == p[i] by {
            if i >= head.len() + a.len() {
                let k = i - head.len() - a.len();
                assert(tail.take(start.len() as int)[k] == start[k]);
            }
        }
    }
    if unsupported_dtype(a) == unsupported_dtype(b) {
        assert(unsupported_dtype(a).len() == head.len() + a.len() + tail.len());
        assert(unsupported_dtype(b).len() == head.len() + b.len() + tail.len());
        assert forall|i: int| 0 <= i < a.len() implies a[i] == b[i] by {
            assert(unsupported_dtype(a)[head.len() + i] == a[i]);
            assert(unsupported_dtype(b)[head.len() + i] == b[i]);
        }
        assert(a =~= b);
    }
}

/// The view of a data type keeps its markers and its names.
pub proof fn law_dtype_keeps_its_names(dtype: DtypeInfo, name: String)
    ensures
        dtype@.markers == dtype.markers,
        dtype.v3_name == Some(name) ==> dtype@.v3_name == Some(name@),
        dtype.v3_name is None ==> dtype@.v3_name is None,
        dtype@.display == dtype.display@,
{
}

/// A data type is one of the known ones at most when at most one marker is set.
pub proof fn law_single_dtype_has_one_marker(markers: DtypeMarkers, t: ElementType, u: ElementType)
    requires
        is_single(markers),
    ensures
        is_read_as(markers, t) && is_read_as(markers, u) ==> t == u,
        markers.bytes ==> !is_read_as(markers, t),
{
}

/// Messages for data types that cannot be read differ only in the name, which
/// stands in them as it is.
pub proof fn law_unreadable_messages_have_one_form() -> (around: (Seq<char>, Seq<char>))
    ensures
        forall|name: Seq<char>| #[trigger] unsupported_dtype(name) == around.0 + name + around.1,
{
    (
        "rustytree: dtype "@,
        " is not yet supported by ZarrsArrayHandle.read_subset; supported today: bool, int{8,16,32,64}, uint{8,16,32,64}, float{32,64}"@,
    )
}

} // verus!
