//! Zarr documents and arrays, as the `zarrs` crate reads them.
//!
//! A `zarr.json` document makes a group's attributes or an array. The items
//! here name what `zarrs` finds in a document and in an array; the walk and the
//! chunk reads are stated over those names. Which data types, codecs and chunk
//! grids `zarrs` knows is settled by what is linked into the program and by the
//! registries that `zarrs` has for use at run time, which the program leaves
//! alone: nothing registers or renames one.

use crate::attrs;
use crate::attrs::JsonModel;
use crate::dtype_dispatch;
use crate::dtype_dispatch::{DtypeInfo, DtypeMarkers, DtypeModel};
use crate::metadata;
use serde_json::Value;
use std::borrow::Cow;
use std::sync::Arc;
use vstd::prelude::*;
use vstd::string::*;
use zarrs::array::data_type::{
    BoolDataType, BytesDataType, Float32DataType, Float64DataType, Int16DataType, Int32DataType,
    Int64DataType, Int8DataType, UInt16DataType, UInt32DataType, UInt64DataType, UInt8DataType,
};
use zarrs::array::{Array, ArrayMetadata};
use zarrs::group::GroupMetadata;
use zarrs::metadata::v2::ArrayMetadataV2Order;
use zarrs::plugin::ExtensionName;

verus! {

/// An array of `zarrs`: the metadata of a Zarr array, tied to the storage that
/// its chunks are in. The arrays of this library are `Array<()>`, tied to none;
/// `Array::with_storage` ties one to a store.
#[verifier::external_type_specification]
#[verifier::external_body]
#[verifier::reject_recursive_types(TStorage)]
pub struct ExArray<TStorage: ?Sized>(zarrs::array::Array<TStorage>);

/// The metadata of an array, as `zarrs` reads it from a document.
#[verifier::external_type_specification]
#[verifier::external_body]
pub struct ExArrayMetadata(zarrs::array::ArrayMetadata);

/// What the metadata of an array says.
pub struct ArrayFacts {
    /// The number of elements along each axis.
    pub shape: Seq<u64>,
    /// The names of the axes, where the array declares them.
    pub dimension_names: Option<Seq<Option<Seq<char>>>>,
    /// The data type of the elements.
    pub dtype: DtypeModel,
    /// The user attributes, in the order of the document.
    pub attrs: Seq<(Seq<char>, JsonModel)>,
    /// The shape of the chunk at the origin, or why there is none.
    pub origin_chunk: Result<Seq<u64>, Seq<char>>,
}

/// What a `zarrs` array holds.
pub uninterp spec fn array_facts(array: Array<()>) -> ArrayFacts;

/// What in array metadata `zarrs` cannot be given.
#[derive(Debug, Clone, Copy, PartialEq, Eq, Structural)]
pub enum Unfit {
    /// Sizes that the machine cannot count.
    Sizes,
    /// A fill value that cannot be read or held.
    Fill,
    /// The column-major order of Zarr V2 for an array without axes.
    Order,
}

/// Why a document makes no array.
#[derive(Debug)]
pub enum DocumentFailure {
    /// It is not array metadata.
    Parse(String),
    /// It is array metadata that `zarrs` cannot be given.
    Unfit(Unfit),
    /// It is array metadata, and `zarrs` refuses it.
    Refused(String),
}

/// A [`DocumentFailure`], as far as the document settles it.
pub enum DocumentFault {
    Parse(Seq<char>),
    Unfit(Unfit),
    Refused,
}

/// `failure` is what `fault` says. What `zarrs` says of metadata that it refuses
/// is not settled by the document.
pub open spec fn is_failure_for(failure: DocumentFailure, fault: DocumentFault) -> bool {
    match (failure, fault) {
        (DocumentFailure::Parse(m), DocumentFault::Parse(text)) => m@ == text,
        (DocumentFailure::Unfit(a), DocumentFault::Unfit(b)) => a == b,
        (DocumentFailure::Refused(_), DocumentFault::Refused) => true,
        _ => false,
    }
}

/// The array metadata that a document holds, or the text of the error where it
/// holds none.
pub uninterp spec fn array_metadata(document: Seq<u8>) -> Result<ArrayMetadata, Seq<char>>;

/// The JSON form of the chunk grid that array metadata declare, where they
/// declare one by name.
pub uninterp spec fn declared_grid(metadata: ArrayMetadata) -> Option<JsonModel>;

/// The JSON form of the data type that array metadata declare.
pub uninterp spec fn declared_dtype(metadata: ArrayMetadata) -> JsonModel;

/// The JSON form of the codecs that array metadata declare in the way of Zarr V3.
pub uninterp spec fn declared_codecs(metadata: ArrayMetadata) -> Option<JsonModel>;

/// The JSON form of the fill value that array metadata declare, without the
/// entries of objects.
pub uninterp spec fn declared_fill(metadata: ArrayMetadata) -> JsonModel;

/// For metadata of Zarr V2, whether the order of elements is column-major, and
/// the number of axes.
pub uninterp spec fn declared_order(metadata: ArrayMetadata) -> Option<(bool, nat)>;

/// The array that `zarrs` makes of metadata at a path; none where it refuses
/// them.
pub uninterp spec fn array_of(path: Seq<char>, metadata: ArrayMetadata) -> Option<ArrayFacts>;

/// What in array metadata `zarrs` cannot be given, if anything.
pub open spec fn unfit_in(metadata: ArrayMetadata) -> Option<Unfit> {
    if declared_grid(metadata) matches Some(grid) && !metadata::grid_fits(grid) {
        Some(Unfit::Sizes)
    } else if declared_codecs(metadata) matches Some(codecs) && !metadata::codecs_fit(codecs) {
        Some(Unfit::Sizes)
    } else if !metadata::fill_fits(declared_dtype(metadata), declared_fill(metadata)) {
        Some(Unfit::Fill)
    } else if declared_order(metadata) == Some((true, 0nat)) {
        Some(Unfit::Order)
    } else {
        None
    }
}

/// What the document of the array at a path makes: it is metadata or not, there
/// is something in it that `zarrs` cannot be given or not, and `zarrs` makes an
/// array of it or not.
pub open spec fn array_document(path: Seq<char>, document: Seq<u8>) -> Result<
    ArrayFacts,
    DocumentFault,
> {
    match array_metadata(document) {
        Err(err) => Err(DocumentFault::Parse(err)),
        Ok(metadata) => match unfit_in(metadata) {
            Some(what) => Err(DocumentFault::Unfit(what)),
            None => match array_of(path, metadata) {
                Some(facts) => Ok(facts),
                None => Err(DocumentFault::Refused),
            },
        },
    }
}

/// What `zarrs` makes of the document of a group: its attributes in the order
/// of the document, or the text of the error.
pub uninterp spec fn group_document(document: Seq<u8>) -> Result<
    Seq<(Seq<char>, JsonModel)>,
    Seq<char>,
>;

/// The names of axes, by their contents.
pub open spec fn names_of(names: Option<Vec<Option<String>>>) -> Option<Seq<Option<Seq<char>>>> {
    match names {
        Some(v) => Some(
            v@.map_values(
                |n: Option<String>|
                    match n {
                        Some(s) => Some(s@),
                        None => None,
                    },
            ),
        ),
        None => None,
    }
}

/// `serde_json::from_slice` into `zarrs::group::GroupMetadata`, and the
/// `attributes` of what it reads. Claimed: attributes or error are those that
/// [`group_document`] names.
#[verifier::external_body]
pub(crate) fn group_attributes(document: &[u8]) -> (r: Result<Vec<(String, Value)>, String>)
    ensures
        match r {
            Ok(entries) => group_document(document@) == Ok::<_, Seq<char>>(
                attrs::entries_model(entries@),
            ),
            Err(m) => group_document(document@) == Err::<Seq<(Seq<char>, JsonModel)>, _>(m@),
        },
{
    let metadata: GroupMetadata = serde_json::from_slice(document).map_err(|e| e.to_string())?;
    let entries = match metadata {
        GroupMetadata::V3(v3) => v3.attributes,
        GroupMetadata::V2(v2) => v2.attributes,
    };
    Ok(entries.into_iter().collect())
}

/// `serde_json::from_slice` into `zarrs::array::ArrayMetadata`. Claimed: metadata
/// or error are those that [`array_metadata`] names.
#[verifier::external_body]
fn parse_array_metadata(document: &[u8]) -> (r: Result<ArrayMetadata, String>)
    ensures
        match r {
            Ok(metadata) => array_metadata(document@) == Ok::<_, Seq<char>>(metadata),
            Err(m) => array_metadata(document@) == Err::<ArrayMetadata, _>(m@),
        },
{
    serde_json::from_slice(document).map_err(|e| e.to_string())
}

/// `serde_json::to_value` of the chunk grid of `zarrs::array::ArrayMetadata`.
/// Metadata of Zarr V2 have no grid with a name. Claimed: it gives the value that
/// [`declared_grid`] names. It fails only for a map with keys that are no texts
/// and for numbers past 64 bits, and a grid holds neither.
#[verifier::external_body]
fn grid_value(metadata: &ArrayMetadata) -> (r: Option<Value>)
    ensures
        match r {
            Some(v) => declared_grid(*metadata) == Some(attrs::json_model(v)),
            None => declared_grid(*metadata) is None,
        },
{
    match metadata {
        ArrayMetadata::V3(v3) => Some(serde_json::to_value(&v3.chunk_grid).expect("JSON")),
        ArrayMetadata::V2(_) => None,
    }
}

/// `serde_json::to_value` of the data type of `zarrs::array::ArrayMetadata`.
/// Claimed: it gives the value that [`declared_dtype`] names. It fails only for a
/// map with keys that are no texts and for numbers past 64 bits, and a data type
/// holds neither.
#[verifier::external_body]
fn dtype_value(metadata: &ArrayMetadata) -> (r: Value)
    ensures
        attrs::json_model(r) == declared_dtype(*metadata),
{
    match metadata {
        ArrayMetadata::V3(v3) => serde_json::to_value(&v3.data_type).expect("JSON"),
        ArrayMetadata::V2(v2) => serde_json::to_value(&v2.dtype).expect("JSON"),
    }
}

/// `serde_json::to_value` of the codecs of `zarrs::array::ArrayMetadata`. Metadata
/// of Zarr V2 have filters and a compressor instead, none of which counts axes.
/// Claimed: it gives the value that [`declared_codecs`] names. It fails only for
/// a map with keys that are no texts and for numbers past 64 bits, and codecs
/// hold neither.
#[verifier::external_body]
fn codecs_value(metadata: &ArrayMetadata) -> (r: Option<Value>)
    ensures
        match r {
            Some(v) => declared_codecs(*metadata) == Some(attrs::json_model(v)),
            None => declared_codecs(*metadata) is None,
        },
{
    match metadata {
        ArrayMetadata::V3(v3) => Some(serde_json::to_value(&v3.codecs).expect("JSON")),
        ArrayMetadata::V2(_) => None,
    }
}

/// `serde_json::to_value` of the fill value of `zarrs::array::ArrayMetadata`.
/// Claimed: it gives the value that [`declared_fill`] names, but for the entries
/// of objects, which `zarrs` keeps in a hash map. It fails only for a map with
/// keys that are no texts and for numbers past 64 bits, and a fill value holds
/// neither.
#[verifier::external_body]
fn fill_value(metadata: &ArrayMetadata) -> (r: Value)
    ensures
        metadata::bare(attrs::json_model(r)) == declared_fill(*metadata),
{
    match metadata {
        ArrayMetadata::V3(v3) => serde_json::to_value(&v3.fill_value).expect("JSON"),
        ArrayMetadata::V2(v2) => serde_json::to_value(&v2.fill_value).expect("JSON"),
    }
}

/// The fields `order` and `shape` of `zarrs::array::ArrayMetadata` of Zarr V2.
/// Claimed: they are what [`declared_order`] names; metadata of Zarr V3 have no
/// such order.
#[verifier::external_body]
fn v2_order(metadata: &ArrayMetadata) -> (r: Option<(bool, usize)>)
    ensures
        match r {
            Some((column_major, axes)) => declared_order(*metadata) == Some(
                (column_major, axes as nat),
            ),
            None => declared_order(*metadata) is None,
        },
{
    match metadata {
        ArrayMetadata::V3(_) => None,
        ArrayMetadata::V2(v2) => match v2.order {
            ArrayMetadataV2Order::C => Some((false, v2.shape.len())),
            ArrayMetadataV2Order::F => Some((true, v2.shape.len())),
        },
    }
}

/// `zarrs::array::Array::new_with_metadata` with no storage. Claimed: whether
/// there is an array, and which, is what [`array_of`] names; where the array has
/// names for its axes, there is one for each. On sizes that cannot be counted, in
/// the grid or in a codec, and on a fill value that cannot be read `zarrs` panics, and a column-major
/// order of no axes is undefined behaviour in it. Left unsaid are the memory that
/// other sizes take, and the error, which can show a fill value with its entries
/// in the order of a hash map.
#[verifier::external_body]
fn array_from_metadata(path: &str, metadata: ArrayMetadata) -> (r: Result<Array<()>, String>)
    requires
        unfit_in(metadata) is None,
    ensures
        match r {
            Ok(array) => array_of(path@, metadata) == Some(array_facts(array)) && (array_facts(
                array,
            ).dimension_names matches Some(names) ==> names.len() == array_facts(
                array,
            ).shape.len()),
            Err(_) => array_of(path@, metadata) is None,
        },
{
    Array::new_with_metadata(Arc::new(()), path, metadata).map_err(|e| e.to_string())
}

/// What in array metadata `zarrs` cannot be given, if anything.
fn find_unfit(metadata: &ArrayMetadata) -> (r: Option<Unfit>)
    ensures
        r == unfit_in(*metadata),
{
    match grid_value(metadata) {
        Some(grid) => {
            if !metadata::grid_can_be_counted(&grid) {
                return Some(Unfit::Sizes);
            }
        },
        None => {},
    }
    match codecs_value(metadata) {
        Some(codecs) => {
            if !metadata::codecs_can_be_counted(&codecs) {
                return Some(Unfit::Sizes);
            }
        },
        None => {},
    }
    if !metadata::fill_can_be_built(&dtype_value(metadata), &fill_value(metadata)) {
        return Some(Unfit::Fill);
    }
    match v2_order(metadata) {
        Some((column_major, axes)) => {
            if column_major && axes == 0 {
                return Some(Unfit::Order);
            }
        },
        None => {},
    }
    None
}

/// Make an array of the document at a path. What `zarrs` cannot be given is
/// refused before it sees it.
pub fn array_from_document(path: &str, document: &[u8]) -> (r: Result<Array<()>, DocumentFailure>)
    ensures
        match (r, array_document(path@, document@)) {
            (Ok(array), Ok(facts)) => {
                &&& array_facts(array) == facts
                &&& facts.dimension_names matches Some(names) ==> names.len() == facts.shape.len()
            },
            (Err(failure), Err(fault)) => is_failure_for(failure, fault),
            _ => false,
        },
{
    let metadata: ArrayMetadata = match parse_array_metadata(document) {
        Ok(metadata) => metadata,
        Err(m) => {
            return Err(DocumentFailure::Parse(m));
        },
    };
    match find_unfit(&metadata) {
        Some(what) => {
            return Err(DocumentFailure::Unfit(what));
        },
        None => {},
    }
    match array_from_metadata(path, metadata) {
        Ok(array) => Ok(array),
        Err(m) => Err(DocumentFailure::Refused(m)),
    }
}

/// `zarrs::array::Array::shape`.
#[verifier::external_body]
pub(crate) fn array_shape(array: &Array<()>) -> (r: Vec<u64>)
    ensures
        r@ == array_facts(*array).shape,
{
    array.shape().to_vec()
}

/// `zarrs::array::Array::dimension_names`.
#[verifier::external_body]
pub(crate) fn array_dimension_names(array: &Array<()>) -> (r: Option<Vec<Option<String>>>)
    ensures
        names_of(r) == array_facts(*array).dimension_names,
{
    array.dimension_names().clone()
}

/// `zarrs::array::Array::attributes`: the entries in the order of the document.
#[verifier::external_body]
pub(crate) fn array_attributes(array: &Array<()>) -> (r: Vec<(String, Value)>)
    ensures
        attrs::entries_model(r@) == array_facts(*array).attrs,
{
    array.attributes().iter().map(|(k, v)| (k.clone(), v.clone())).collect()
}

/// `is` of the array's `zarrs::array::DataType`, asked for each of the data
/// types that this library tells apart. Claimed: the answers are those that
/// [`array_facts`] names; since `is` compares types, at most one is yes.
#[verifier::external_body]
fn dtype_markers(array: &Array<()>) -> (r: DtypeMarkers)
    ensures
        r == array_facts(*array).dtype.markers,
        dtype_dispatch::is_single(r),
{
    let dt = array.data_type();
    DtypeMarkers {
        boolean: dt.is::<BoolDataType>(),
        int8: dt.is::<Int8DataType>(),
        int16: dt.is::<Int16DataType>(),
        int32: dt.is::<Int32DataType>(),
        int64: dt.is::<Int64DataType>(),
        uint8: dt.is::<UInt8DataType>(),
        uint16: dt.is::<UInt16DataType>(),
        uint32: dt.is::<UInt32DataType>(),
        uint64: dt.is::<UInt64DataType>(),
        float32: dt.is::<Float32DataType>(),
        float64: dt.is::<Float64DataType>(),
        bytes: dt.is::<BytesDataType>(),
    }
}

/// `ExtensionName::name_v3` of the array's data type.
#[verifier::external_body]
fn dtype_v3_name(array: &Array<()>) -> (r: Option<String>)
    ensures
        match r {
            Some(name) => array_facts(*array).dtype.v3_name == Some(name@),
            None => array_facts(*array).dtype.v3_name is None,
        },
{
    array.data_type().name_v3().map(Cow::into_owned)
}

/// The display form of the array's data type.
#[verifier::external_body]
fn dtype_display(array: &Array<()>) -> (r: String)
    ensures
        r@ == array_facts(*array).dtype.display,
{
    array.data_type().to_string()
}

/// `zarrs::array::Array::chunk_shape` at the origin. Claimed: the result is the
/// one that [`array_facts`] names; a shape has one size for each axis, and no
/// size is zero.
#[verifier::external_body]
fn chunk_shape_at(array: &Array<()>, origin: &[u64]) -> (r: Result<Vec<u64>, String>)
    requires
        origin@.len() == array_facts(*array).shape.len(),
        forall|i: int| 0 <= i < origin@.len() ==> origin@[i] == 0,
    ensures
        match r {
            Ok(chunk) => array_facts(*array).origin_chunk == Ok::<_, Seq<char>>(chunk@)
                && chunk@.len() == origin@.len() && forall|i: int|
                0 <= i < chunk@.len() ==> chunk@[i] > 0,
            Err(m) => array_facts(*array).origin_chunk == Err::<Seq<u64>, _>(m@),
        },
{
    match array.chunk_shape(origin) {
        Ok(chunk) => Ok(chunk.iter().map(|n| n.get()).collect()),
        Err(e) => Err(e.to_string()),
    }
}

/// The data type of an array.
pub fn array_dtype(array: &Array<()>) -> (r: DtypeInfo)
    ensures
        r@ == array_facts(*array).dtype,
        dtype_dispatch::is_single(r.markers),
{
    DtypeInfo {
        markers: dtype_markers(array),
        v3_name: dtype_v3_name(array),
        display: dtype_display(array),
    }
}

/// The chunk shape of an array: the shape of its chunk at the origin.
pub fn origin_chunk_shape(array: &Array<()>) -> (r: Result<Vec<u64>, String>)
    ensures
        match r {
            Ok(chunk) => array_facts(*array).origin_chunk == Ok::<_, Seq<char>>(chunk@)
                && chunk@.len() == array_facts(*array).shape.len() && forall|i: int|
                0 <= i < chunk@.len() ==> chunk@[i] > 0,
            Err(m) => array_facts(*array).origin_chunk matches Err(cause) && m@
                == "zarrs: chunk_shape lookup failed: "@ + cause,
        },
{
    let shape: Vec<u64> = array_shape(array);
    let mut origin: Vec<u64> = Vec::new();
    let mut i: usize = 0;
    while i < shape.len()
        invariant
            i <= shape.len(),
            origin.len() == i,
            forall|j: int| 0 <= j < origin.len() ==> origin@[j] == 0,
        decreases shape.len() - i,
    {
        origin.push(0);
        i += 1;
    }
    match chunk_shape_at(array, origin.as_slice()) {
        Ok(chunk) => Ok(chunk),
        Err(cause) => {
            let mut m: String = "zarrs: chunk_shape lookup failed: ".to_owned();
            m.append(cause.as_str());
            Err(m)
        },
    }
}

// ---------------------------------------------------------------------------
// Laws
// ---------------------------------------------------------------------------

/// A document makes an array when it is array metadata that `zarrs` can be given
/// and makes an array of; whichever of these fails first is its fault.
pub proof fn law_document_is_judged_in_order(
    path: Seq<char>,
    document: Seq<u8>,
    facts: ArrayFacts,
    metadata: ArrayMetadata,
    err: Seq<char>,
)
    ensures
        array_metadata(document) == Err::<ArrayMetadata, Seq<char>>(err) ==> array_document(
            path,
            document,
        ) == Err::<ArrayFacts, DocumentFault>(DocumentFault::Parse(err)),
        array_metadata(document) == Ok::<ArrayMetadata, Seq<char>>(metadata) ==> {
            &&& unfit_in(metadata) matches Some(what) ==> array_document(path, document) == Err::<
                ArrayFacts,
                DocumentFault,
            >(DocumentFault::Unfit(what))
            &&& unfit_in(metadata) is None && array_of(path, metadata) == Some(facts)
                ==> array_document(path, document) == Ok::<ArrayFacts, DocumentFault>(facts)
            &&& unfit_in(metadata) is None && array_of(path, metadata) is None ==> array_document(
                path,
                document,
            ) == Err::<ArrayFacts, DocumentFault>(DocumentFault::Refused)
        },
{
}

/// Metadata are unfit for a reason: sizes in the grid or in a codec that cannot be
/// counted, a fill value that does not fit, or a column-major order of no axes.
pub proof fn law_metadata_are_unfit_for_a_reason(metadata: ArrayMetadata)
    ensures
        unfit_in(metadata) == Some(Unfit::Sizes) ==> (declared_grid(metadata) matches Some(grid)
            && !metadata::grid_fits(grid)) || (declared_codecs(metadata) matches Some(codecs)
            && !metadata::codecs_fit(codecs)),
        unfit_in(metadata) == Some(Unfit::Fill) ==> !metadata::fill_fits(
            declared_dtype(metadata),
            declared_fill(metadata),
        ),
        unfit_in(metadata) == Some(Unfit::Order) ==> declared_order(metadata) == Some((true, 0nat)),
        unfit_in(metadata) is None ==> {
            &&& declared_grid(metadata) matches Some(grid) ==> metadata::grid_fits(grid)
            &&& declared_codecs(metadata) matches Some(codecs) ==> metadata::codecs_fit(codecs)
            &&& metadata::fill_fits(declared_dtype(metadata), declared_fill(metadata))
            &&& declared_order(metadata) != Some((true, 0nat))
        },
{
}

/// The names of axes are taken one by one, and an axis without one has none.
pub proof fn law_axis_names_are_taken_one_by_one(names: Vec<Option<String>>, i: int)
    ensures
        names_of(None) is None,
        names_of(Some(names)) matches Some(taken) && taken.len() == names@.len() && (0 <= i
            < names@.len() ==> taken[i] == match names@[i] {
            Some(name) => Some(name@),
            None => None,
        }),
{
}

/// A failure says what the fault is, and nothing of another.
pub proof fn law_failure_is_for_its_fault(failure: DocumentFailure, fault: DocumentFault)
    requires
        is_failure_for(failure, fault),
    ensures
        match failure {
            DocumentFailure::Parse(m) => fault == DocumentFault::Parse(m@),
            DocumentFailure::Unfit(what) => fault == DocumentFault::Unfit(what),
            DocumentFailure::Refused(_) => fault is Refused,
        },
{
}

} // verus!
