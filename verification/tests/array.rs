use rustytree::array::{
    element_count, finish_read, handle_repr, not_picklable, plan_array_read, plan_read,
    plan_whole_read, read_failure, slice_nd, ReadError,
};
use rustytree::dtype_dispatch::{
    element_type, readable_as, zarrs_dtype_to_numpy_str, zarrs_dtype_zarr_name, DtypeInfo,
    DtypeMarkers, ElementType,
};
use rustytree::error::PyException;
use rustytree::zarr::{array_dtype, origin_chunk_shape};
use std::borrow::Cow;
use std::sync::Arc;
use zarrs::array::{data_type, Array, ArrayMetadata, DataType};
use zarrs::plugin::ExtensionName;

fn info(dtype: &DataType) -> DtypeInfo {
    DtypeInfo {
        markers: DtypeMarkers {
            boolean: dtype.is::<data_type::BoolDataType>(),
            int8: dtype.is::<data_type::Int8DataType>(),
            int16: dtype.is::<data_type::Int16DataType>(),
            int32: dtype.is::<data_type::Int32DataType>(),
            int64: dtype.is::<data_type::Int64DataType>(),
            uint8: dtype.is::<data_type::UInt8DataType>(),
            uint16: dtype.is::<data_type::UInt16DataType>(),
            uint32: dtype.is::<data_type::UInt32DataType>(),
            uint64: dtype.is::<data_type::UInt64DataType>(),
            float32: dtype.is::<data_type::Float32DataType>(),
            float64: dtype.is::<data_type::Float64DataType>(),
            bytes: dtype.is::<data_type::BytesDataType>(),
        },
        v3_name: dtype.name_v3().map(Cow::into_owned),
        display: dtype.to_string(),
    }
}

fn array_of(dtype: &str, fill: &str, codec: &str, shape: &str, chunk: &str) -> Array<()> {
    let document = format!(
        r#"{{"zarr_format":3,"node_type":"array","shape":[{shape}],"data_type":"{dtype}",
        "chunk_grid":{{"name":"regular","configuration":{{"chunk_shape":[{chunk}]}}}},
        "chunk_key_encoding":{{"name":"default","configuration":{{"separator":"/"}}}},
        "fill_value":{fill},"codecs":[{codec}]}}"#
    );
    let metadata: ArrayMetadata = serde_json::from_str(&document).expect("array metadata");
    Array::new_with_metadata(Arc::new(()), "/a", metadata).expect("array")
}

const BYTES: &str = r#"{"name":"bytes","configuration":{"endian":"little"}}"#;
const VLEN: &str = r#"{"name":"vlen-bytes"}"#;

#[test]
fn maps_every_named_dtype_to_its_numpy_name() {
    for (dtype, expected) in [
        (data_type::bool(), "bool"),
        (data_type::int8(), "int8"),
        (data_type::int16(), "int16"),
        (data_type::int32(), "int32"),
        (data_type::int64(), "int64"),
        (data_type::uint8(), "uint8"),
        (data_type::uint16(), "uint16"),
        (data_type::uint32(), "uint32"),
        (data_type::uint64(), "uint64"),
        (data_type::float32(), "float32"),
        (data_type::float64(), "float64"),
        (data_type::complex64(), "complex64"),
        (data_type::complex128(), "complex128"),
        (data_type::bytes(), "object"),
        (data_type::string(), "string"),
        (data_type::float16(), "float16"),
    ] {
        assert_eq!(zarrs_dtype_to_numpy_str(&info(&dtype)), expected);
    }
}

#[test]
fn dispatch_macro_binds_the_matching_primitive_type() {
    fn primitive_for(dtype: &DataType) -> &'static str {
        match element_type(&info(dtype).markers) {
            Some(ElementType::Bool) => "bool",
            Some(ElementType::I8) => "i8",
            Some(ElementType::I16) => "i16",
            Some(ElementType::I32) => "i32",
            Some(ElementType::I64) => "i64",
            Some(ElementType::U8) => "u8",
            Some(ElementType::U16) => "u16",
            Some(ElementType::U32) => "u32",
            Some(ElementType::U64) => "u64",
            Some(ElementType::F32) => "f32",
            Some(ElementType::F64) => "f64",
            None => "unsupported",
        }
    }

    for (dtype, expected) in [
        (data_type::bool(), "bool"),
        (data_type::int8(), "i8"),
        (data_type::int16(), "i16"),
        (data_type::int32(), "i32"),
        (data_type::int64(), "i64"),
        (data_type::uint8(), "u8"),
        (data_type::uint16(), "u16"),
        (data_type::uint32(), "u32"),
        (data_type::uint64(), "u64"),
        (data_type::float32(), "f32"),
        (data_type::float64(), "f64"),
    ] {
        assert_eq!(primitive_for(&dtype), expected);
    }

    // complex64 is nameable but not readable: it must reach the
    // fallback arm, not silently pick a primitive.
    assert_eq!(primitive_for(&data_type::complex64()), "unsupported");
}

#[test]
fn zarrs_display_is_not_a_numpy_dtype_string() {
    assert_eq!(data_type::float64().to_string(), "float64 / <f8");
    assert_eq!(info(&data_type::float64()).display, "float64 / <f8");
}

#[test]
fn a_dtype_without_v3_name_is_shown_as_it_displays() {
    let mut dtype = info(&data_type::float64());
    dtype.v3_name = None;
    assert_eq!(zarrs_dtype_zarr_name(&dtype), "float64 / <f8");
    assert_eq!(zarrs_dtype_to_numpy_str(&dtype), "float64 / <f8");
}

#[test]
fn the_dtype_of_an_array_is_told() {
    for (name, fill, element) in [
        ("bool", "false", ElementType::Bool),
        ("int8", "0", ElementType::I8),
        ("int16", "0", ElementType::I16),
        ("int32", "0", ElementType::I32),
        ("int64", "0", ElementType::I64),
        ("uint8", "0", ElementType::U8),
        ("uint16", "0", ElementType::U16),
        ("uint32", "0", ElementType::U32),
        ("uint64", "0", ElementType::U64),
        ("float32", "0.0", ElementType::F32),
        ("float64", "0.0", ElementType::F64),
    ] {
        let dtype = array_dtype(&array_of(name, fill, BYTES, "4", "2"));
        assert_eq!(zarrs_dtype_to_numpy_str(&dtype), name);
        assert_eq!(readable_as(&dtype), Ok(element));
        assert!(!dtype.markers.bytes);
    }
}

#[test]
fn binary_data_is_named_but_not_read() {
    let array = array_of("bytes", "\"\"", VLEN, "4", "2");
    let dtype = array_dtype(&array);
    assert!(dtype.markers.bytes);
    assert_eq!(zarrs_dtype_to_numpy_str(&dtype), "object");
    let err = plan_array_read(&array, &[(0, 4)]).err().expect("refused");
    assert_eq!(err.py_exception(), PyException::NotImplementedError);
    assert_eq!(
        err.message(),
        format!(
            "rustytree: dtype {} is not yet supported by ZarrsArrayHandle.read_subset; \
             supported today: bool, int{{8,16,32,64}}, uint{{8,16,32,64}}, float{{32,64}}",
            zarrs_dtype_zarr_name(&dtype)
        )
    );
    assert_ne!(zarrs_dtype_zarr_name(&dtype), "object");
}

#[test]
fn requests_that_do_not_fit_are_refused() {
    let array = array_of("int32", "0", BYTES, "4, 6", "2, 3");
    for (ranges, exception, expected) in [
        (vec![(0, 1)], PyException::IndexError, "expected 2 ranges, got 1"),
        (
            vec![(0, 1), (3, 2)],
            PyException::ValueError,
            "range[1]: start 3 > stop 2",
        ),
        (
            vec![(0, 5), (3, 2)],
            PyException::IndexError,
            "range[0] stop 5 exceeds dim size 4",
        ),
    ] {
        let err = plan_array_read(&array, &ranges).err().expect("refused");
        assert_eq!(err.py_exception(), exception);
        assert_eq!(err.message(), expected);
    }
}

#[test]
fn an_empty_dimension_of_a_bounded_grid_has_no_chunk() {
    let document = r#"{"zarr_format":3,"node_type":"array","shape":[0],"data_type":"int32",
        "chunk_grid":{"name":"zarrs.regular_bounded","configuration":{"chunk_shape":[2]}},
        "chunk_key_encoding":{"name":"default","configuration":{"separator":"/"}},
        "fill_value":0,"codecs":[{"name":"bytes","configuration":{"endian":"little"}}]}"#;
    let metadata: ArrayMetadata = serde_json::from_str(document).expect("array metadata");
    let array = Array::new_with_metadata(Arc::new(()), "/a", metadata).expect("array");
    let message = origin_chunk_shape(&array).expect_err("no chunk");
    assert!(message.starts_with("zarrs: chunk_shape lookup failed: "), "{message}");
    let err = plan_array_read(&array, &[(0, 0)]).err().expect("refused");
    assert_eq!(err.py_exception(), PyException::ValueError);
    assert_eq!(err.message(), message);
    // A read of the whole array does not ask for chunks.
    let (plan, element) = plan_whole_read(&array).ok().expect("plan");
    assert_eq!(plan.aligned_ranges, [(0, 0)]);
    assert!(matches!(element, ElementType::I32));
}

#[test]
fn a_whole_array_is_read_as_it_is() {
    let array = array_of("int32", "0", BYTES, "5, 7", "2, 3");
    let (plan, element) = plan_whole_read(&array).ok().expect("plan");
    assert_eq!(plan.aligned_ranges, [(0, 5), (0, 7)]);
    assert_eq!(plan.offsets, [0, 0]);
    assert_eq!(plan.request_shape, [5, 7]);
    assert_eq!(plan.aligned_shape, [5, 7]);
    assert!(matches!(element, ElementType::I32));
    let elements: Vec<i32> = (0..35).collect();
    assert!(plan.expects(elements.len()));
    assert_eq!(finish_read(&plan, elements.clone()), elements);
    let err = plan_whole_read(&array_of("bytes", "\"\"", VLEN, "4", "2")).err().expect("refused");
    assert_eq!(err.py_exception(), PyException::NotImplementedError);
}

#[test]
fn requests_widen_to_whole_chunks() {
    let array = array_of("int32", "0", BYTES, "5, 7", "2, 3");
    assert_eq!(origin_chunk_shape(&array), Ok(vec![2, 3]));
    let (plan, element) = plan_array_read(&array, &[(1, 5), (4, 6)]).expect("plan");
    assert_eq!(element, ElementType::I32);
    assert_eq!(plan.aligned_ranges, [(0, 5), (3, 6)]);
    assert_eq!(plan.offsets, [1, 1]);
    assert_eq!(plan.request_shape, [4, 2]);
    assert_eq!(plan.aligned_shape, [5, 3]);
    assert!(plan.expects(15));
    assert!(!plan.expects(14));
    // Rows 0..5 and columns 3..6 of an array that holds 10 * row + column.
    let mut elements = Vec::new();
    for row in 0..5 {
        for column in 3..6 {
            elements.push(10 * row + column);
        }
    }
    assert_eq!(finish_read(&plan, elements), [14, 15, 24, 25, 34, 35, 44, 45]);
}

#[test]
fn a_zero_chunk_size_counts_as_one() {
    let plan = plan_read(&[4], &[0], &[(1, 3)]).expect("plan");
    assert_eq!(plan.aligned_ranges, [(1, 3)]);
    assert_eq!(plan.offsets, [0]);
}

#[test]
fn widening_does_not_overflow() {
    let plan = plan_read(&[u64::MAX], &[u64::MAX - 1], &[(u64::MAX - 1, u64::MAX)]).expect("plan");
    assert_eq!(plan.aligned_ranges, [(u64::MAX - 1, u64::MAX)]);
}

#[test]
fn a_full_read_comes_back_as_it_is() {
    let elements: Vec<u8> = (0..6).collect();
    assert_eq!(slice_nd(elements.clone(), &[2, 3], &[0, 0], &[2, 3]), elements);
    assert_eq!(slice_nd(vec![7_u8], &[], &[], &[]), [7]);
}

#[test]
fn blocks_are_cut_in_row_major_order() {
    let elements: Vec<u32> = (0..24).collect();
    assert_eq!(
        slice_nd(elements, &[2, 3, 4], &[1, 1, 2], &[1, 2, 2]),
        [18, 19, 22, 23]
    );
}

#[test]
fn an_empty_request_gives_nothing() {
    let elements: Vec<u32> = (0..6).collect();
    assert!(slice_nd(elements, &[2, 3], &[1, 1], &[0, 2]).is_empty());
    let plan = plan_read(&[4], &[2], &[(1, 1)]).expect("plan");
    assert_eq!(plan.request_shape, [0]);
}

#[test]
fn element_counts_stop_at_the_limit() {
    assert_eq!(element_count(&[2, 3], 6), Some(6));
    assert_eq!(element_count(&[2, 3], 5), None);
    assert_eq!(element_count(&[], 1), Some(1));
    assert_eq!(element_count(&[u64::MAX, u64::MAX, 0], 0), Some(0));
    assert_eq!(element_count(&[u64::MAX, u64::MAX], u64::MAX), None);
}

#[test]
fn handles_show_shape_and_dtype() {
    let array = array_of("float64", "0.0", BYTES, "5, 70", "2, 3");
    assert_eq!(handle_repr(&array), "ZarrsArrayHandle(shape=[5, 70], dtype=float64)");
    let scalar = array_of("int8", "0", BYTES, "", "");
    assert_eq!(handle_repr(&scalar), "ZarrsArrayHandle(shape=[], dtype=int8)");
}

#[test]
fn failed_reads_and_pickles_say_why() {
    let err = read_failure("timeout");
    assert!(matches!(err, ReadError::Value(_)));
    assert_eq!(err.message(), "zarrs read failed: timeout");
    assert!(not_picklable().starts_with("rustytree: this array is not picklable — pickling"));
    assert!(not_picklable().ends_with("(`dask.config.set(scheduler=\"threads\")`)."));
}

#[test]
fn cutting_twice_is_cutting_once() {
    let elements: Vec<u32> = (0..20).collect();
    let middle = slice_nd(elements.clone(), &[4, 5], &[1, 1], &[3, 3]);
    assert_eq!(
        slice_nd(middle, &[3, 3], &[1, 0], &[2, 2]),
        slice_nd(elements, &[4, 5], &[2, 1], &[2, 2])
    );
}

#[test]
fn a_full_range_is_not_widened() {
    let plan = plan_read(&[5, 7], &[2, 3], &[(0, 5), (0, 7)]).expect("plan");
    assert_eq!(plan.aligned_ranges, [(0, 5), (0, 7)]);
    assert_eq!(plan.offsets, [0, 0]);
    assert_eq!(plan.request_shape, plan.aligned_shape);
}
