use rustytree::attrs::AttrValue;
use rustytree::error::RustytreeError;
use rustytree::glob::GlobPredicate;
use rustytree::node::{axis_names, NodeData};
use rustytree::snapshot::{
    array_failure_message, attach_vars, build_batch, build_var_meta_from_snapshot,
    parse_group_attrs, plan_snapshot, snapshot_root, walk_snapshot, NodeKind, SnapshotNode,
};
use rustytree::zarr::{array_from_document, DocumentFailure, Unfit};

fn group(path: &str, attributes: &str) -> SnapshotNode {
    let document = format!(
        r#"{{"zarr_format":3,"node_type":"group","attributes":{{{attributes}}}}}"#
    );
    SnapshotNode {
        path: path.to_string(),
        kind: NodeKind::Group,
        user_data: document.into_bytes(),
    }
}

fn array(path: &str, dims: &str) -> SnapshotNode {
    let document = format!(
        r#"{{"zarr_format":3,"node_type":"array","shape":[4, 6],"data_type":"float32",
        "chunk_grid":{{"name":"regular","configuration":{{"chunk_shape":[2, 3]}}}},
        "chunk_key_encoding":{{"name":"default","configuration":{{"separator":"/"}}}},
        "fill_value":0.0,"codecs":[{{"name":"bytes","configuration":{{"endian":"little"}}}}],
        "attributes":{{"units":"m","axis":1}}{dims}}}"#
    );
    SnapshotNode {
        path: path.to_string(),
        kind: NodeKind::Array,
        user_data: document.into_bytes(),
    }
}

fn broken(path: &str, kind: NodeKind) -> SnapshotNode {
    SnapshotNode { path: path.to_string(), kind, user_data: b"{".to_vec() }
}

fn paths(nodes: &[NodeData<u8>]) -> Vec<&str> {
    nodes.iter().map(|n| n.path.as_str()).collect()
}

fn names(node: &NodeData<u8>) -> Vec<&str> {
    node.vars.iter().map(|v| v.name.as_str()).collect()
}

fn tree() -> Vec<SnapshotNode> {
    vec![
        array("/b/second", ""),
        group("/b", ""),
        group("/", r#""title":"t""#),
        array("/top", ""),
        group("/a/x", ""),
        group("/a", ""),
        array("/b/first", ""),
        array("/a/x/deep", ""),
    ]
}

#[test]
fn the_walk_shows_groups_in_order_with_their_arrays() {
    let out = walk_snapshot::<u8>(&tree(), "/", true, None).expect("walk");
    assert_eq!(paths(&out), ["/", "/a", "/a/x", "/b"]);
    assert_eq!(names(&out[0]), ["top"]);
    assert!(names(&out[1]).is_empty());
    assert_eq!(names(&out[2]), ["deep"]);
    // Arrays keep the order of the snapshot.
    assert_eq!(names(&out[3]), ["second", "first"]);
    assert!(matches!(&out[0].attrs[0], (name, AttrValue::Text(t)) if name == "title" && t == "t"));
    assert!(out.iter().all(|n| n.vars.iter().all(|v| v.eager.is_none())));
}

#[test]
fn a_flat_walk_shows_the_root_group_only() {
    let out = walk_snapshot::<u8>(&tree(), "/b/", false, None).expect("walk");
    assert_eq!(paths(&out), ["/b"]);
    assert_eq!(names(&out[0]), ["second", "first"]);
}

#[test]
fn a_walk_from_a_missing_group_is_refused() {
    for recursive in [false, true] {
        let err = walk_snapshot::<u8>(&tree(), "/missing", recursive, None).err().expect("refused");
        assert!(matches!(&err, RustytreeError::NotFound(m) if m == "/missing"));
        assert_eq!(err.message(), "not found: /missing");
    }
    // The path of an array is not that of a group.
    let err = walk_snapshot::<u8>(&tree(), "/top", false, None).err().expect("refused");
    assert!(matches!(err, RustytreeError::NotFound(_)));
    // A pattern may match nothing.
    let pattern = GlobPredicate::parse("/missing/*");
    let nodes = vec![group("/b", "")];
    assert!(walk_snapshot::<u8>(&nodes, "/", true, Some(&pattern)).expect("walk").is_empty());
}

/// An array of four elements on a chunk grid.
fn on_grid(grid: &str) -> SnapshotNode {
    let document = format!(
        r#"{{"zarr_format":3,"node_type":"array","shape":[4],"data_type":"float32",
        "chunk_grid":{grid},
        "chunk_key_encoding":{{"name":"default","configuration":{{"separator":"/"}}}},
        "fill_value":0.0,"codecs":[{{"name":"bytes","configuration":{{"endian":"little"}}}}]}}"#
    );
    SnapshotNode {
        path: "/v".to_string(),
        kind: NodeKind::Array,
        user_data: document.into_bytes(),
    }
}

const UNCOUNTABLE: &str = "icechunk: failed to construct Array from snapshot for /v: \
                           declared sizes are past what this machine can count";

fn refusal(node: &SnapshotNode) -> String {
    build_var_meta_from_snapshot::<u8>(node).err().expect("refused").message()
}

#[test]
fn chunks_that_add_up_make_an_array() {
    for grid in [
        r#"{"name":"rectangular","configuration":{"chunk_shape":[[1, 3]]}}"#,
        r#"{"name":"rectilinear","configuration":{"kind":"inline","chunk_shapes":[[[1, 2], 2]]}}"#,
        r#"{"name":"rectilinear","configuration":{"kind":"inline","chunk_shapes":[[18446744073709551615]]}}"#,
        r#"{"name":"regular","configuration":{"chunk_shape":[18446744073709551615]}}"#,
    ] {
        let var = build_var_meta_from_snapshot::<u8>(&on_grid(grid)).expect("variable");
        assert_eq!(var.shape, [4]);
    }
}

#[test]
fn chunks_that_cannot_be_added_up_are_refused() {
    for grid in [
        r#"{"name":"rectangular","configuration":{"chunk_shape":[[18446744073709551615, 1]]}}"#,
        r#"{"name":"rectilinear","configuration":{"kind":"inline","chunk_shapes":[[18446744073709551615, 1]]}}"#,
        r#"{"name":"rectilinear","configuration":{"kind":"inline","chunk_shapes":[[[9223372036854775808, 2]]]}}"#,
        r#"{"name":"rectilinear","configuration":{"kind":"inline","chunk_shapes":[[[1, 18446744073709551615]]]}}"#,
    ] {
        assert_eq!(refusal(&on_grid(grid)), UNCOUNTABLE);
    }
}

/// An array of four elements with codecs before the one that makes bytes.
fn with_codecs(codecs: &str) -> SnapshotNode {
    let node = on_grid(r#"{"name":"regular","configuration":{"chunk_shape":[4]}}"#);
    let document = String::from_utf8(node.user_data).expect("text");
    let document = document.replace("\"codecs\":[", &format!("\"codecs\":[{codecs},"));
    SnapshotNode { path: node.path, kind: node.kind, user_data: document.into_bytes() }
}

fn reshape(shape: &str) -> String {
    format!(r#"{{"name":"reshape","configuration":{{"shape":{shape}}}}}"#)
}

fn sharding(codecs: &str) -> String {
    format!(
        r#"{{"name":"sharding_indexed","configuration":{{"chunk_shape":[2],
        "codecs":[{codecs},{{"name":"bytes","configuration":{{"endian":"little"}}}}],
        "index_codecs":[{{"name":"bytes","configuration":{{"endian":"little"}}}}]}}}}"#
    )
}

#[test]
fn axes_that_cannot_be_counted_are_refused() {
    for shape in ["[[18446744073709551615]]", "[[18446744073709551614], 4]", "[[0], [18446744073709551615]]"] {
        assert_eq!(refusal(&with_codecs(&reshape(shape))), UNCOUNTABLE);
        assert_eq!(refusal(&with_codecs(&sharding(&reshape(shape)))), UNCOUNTABLE);
    }
    assert!(is_built(&with_codecs(&reshape("[[0]]"))));
    assert!(is_built(&with_codecs(&reshape("[2, 2]"))));
    assert!(is_built(&with_codecs(&reshape("[2, -1]"))));
    // The last axis that has another number after it.
    assert!(is_built(&with_codecs(&reshape("[[18446744073709551614]]"))));
}

/// An array of four elements of a data type.
fn of_type(data_type: &str, fill: &str) -> SnapshotNode {
    let document = format!(
        r#"{{"zarr_format":3,"node_type":"array","shape":[4],"data_type":{data_type},
        "chunk_grid":{{"name":"regular","configuration":{{"chunk_shape":[4]}}}},
        "chunk_key_encoding":{{"name":"default","configuration":{{"separator":"/"}}}},
        "fill_value":{fill},"codecs":[{{"name":"bytes","configuration":{{"endian":"little"}}}}]}}"#
    );
    SnapshotNode {
        path: "/v".to_string(),
        kind: NodeKind::Array,
        user_data: document.into_bytes(),
    }
}

const UNBUILDABLE: &str = "icechunk: failed to construct Array from snapshot for /v: \
                           the fill value does not fit its data type";

fn is_built(node: &SnapshotNode) -> bool {
    build_var_meta_from_snapshot::<u8>(node).is_ok()
}

fn optional(data_type: &str) -> String {
    format!(r#"{{"name":"zarrs.optional","configuration":{data_type}}}"#)
}

#[test]
fn text_longer_than_any_buffer_is_refused() {
    let short = r#"{"name":"fixed_length_utf32","configuration":{"length_bytes":16}}"#;
    assert!(is_built(&of_type(short, "\"abc\"")));
    let long = r#"{"name":"fixed_length_utf32","configuration":{"length_bytes":9223372036854775808}}"#;
    assert_eq!(refusal(&of_type(long, "\"abc\"")), UNBUILDABLE);
    assert_eq!(refusal(&of_type(&optional(long), "[\"abc\"]")), UNBUILDABLE);
    // No text is padded where there is none.
    assert!(is_built(&of_type(&optional(long), "null")));
}

#[test]
fn broken_hexadecimal_digits_are_refused() {
    let float = r#"{"name":"float32","configuration":{}}"#;
    let complex = r#"{"name":"complex_float32","configuration":{}}"#;
    for (data_type, fill) in [
        ("\"float32\"", "\"0x\u{20ac}a\"".to_string()),
        ("\"float64\"", "\"0x7f\u{e9}\u{e9}\"".to_string()),
        (float, "\"0x\u{20ac}a\"".to_string()),
        (complex, "[0.0, \"0x\u{20ac}a\"]".to_string()),
        (&optional(float), "[\"0x\u{20ac}a\"]".to_string()),
        (&optional(complex), "[[\"0x\u{20ac}a\", 0.0]]".to_string()),
        ("\"int32\"", "\"0x\u{20ac}a\"".to_string()),
    ] {
        assert_eq!(refusal(&of_type(data_type, &fill)), UNBUILDABLE);
    }
    assert!(is_built(&of_type("\"float32\"", "\"0x7fc00000\"")));
    assert!(is_built(&of_type(&optional(float), "[\"0x7fc00000\"]")));
    // What is no number in the first place is left to the data type.
    assert!(refusal(&of_type("\"float32\"", "\"\u{20ac}\"")) != UNBUILDABLE);
    assert!(refusal(&of_type("\"float32\"", r#"{"a":"0x","b":1}"#)) != UNBUILDABLE);
}

#[test]
fn text_is_not_read_as_digits() {
    let fixed = r#"{"name":"fixed_length_utf32","configuration":{"length_bytes":16}}"#;
    assert!(is_built(&of_type(fixed, "\"0x\u{20ac}a\"")));
    assert!(is_built(&of_type("\"string\"", "\"0x\u{20ac}a\"")));
    let string = r#"{"name":"string","configuration":{}}"#;
    assert!(is_built(&of_type(&optional(string), "[\"0x\u{20ac}a\"]")));
}

/// An array in the metadata of Zarr V2.
fn version_two(shape: &str, order: &str, dtype: &str, fill: &str) -> SnapshotNode {
    let document = format!(
        r#"{{"zarr_format":2,"node_type":"array","shape":[{shape}],"chunks":[{shape}],
        "dtype":"{dtype}","compressor":null,"fill_value":{fill},"order":"{order}",
        "filters":null}}"#
    );
    SnapshotNode {
        path: "/v".to_string(),
        kind: NodeKind::Array,
        user_data: document.into_bytes(),
    }
}

#[test]
fn column_major_order_needs_an_axis() {
    assert_eq!(
        refusal(&version_two("", "F", "<f8", "0.0")),
        "icechunk: failed to construct Array from snapshot for /v: \
         column-major order without an axis"
    );
    assert!(is_built(&version_two("", "C", "<f8", "0.0")));
    assert!(is_built(&version_two("4, 6", "F", "<f8", "0.0")));
}

#[test]
fn version_two_text_declares_its_length_in_its_name() {
    assert!(is_built(&version_two("4", "C", "<U4", "\"0x\u{20ac}a\"")));
    // Zeros before the number make it no larger.
    assert!(is_built(&version_two("4", "C", ">U000000000000000000000004", "\"abc\"")));
    let long = format!("<U{}", "9".repeat(30));
    assert_eq!(refusal(&version_two("4", "C", &long, "\"abc\"")), UNBUILDABLE);
    assert_eq!(refusal(&version_two("4", "C", "<f8", "\"0x\u{20ac}a\"")), UNBUILDABLE);
    assert!(is_built(&version_two("4", "C", "|O", "\"0x\u{20ac}a\"")));
}

#[test]
fn compressed_arrays_are_built() {
    for codec in [
        r#"{"name":"zstd","configuration":{"level":3,"checksum":false}}"#,
        r#"{"name":"blosc","configuration":{"cname":"lz4","clevel":5,"shuffle":"shuffle","typesize":4,"blocksize":0}}"#,
        r#"{"name":"gzip","configuration":{"level":5}}"#,
        r#"{"name":"crc32c"}"#,
        r#"{"name":"numcodecs.zlib","configuration":{"level":5}}"#,
    ] {
        let mut node = array("/v", "");
        let document = String::from_utf8(node.user_data).expect("text");
        let bytes = r#"{"name":"bytes","configuration":{"endian":"little"}}"#;
        node.user_data = document.replace(bytes, &format!("{bytes},{codec}")).into_bytes();
        let var = build_var_meta_from_snapshot::<u8>(&node);
        assert!(var.is_ok(), "{codec}: {}", var.err().map(|e| e.message()).unwrap_or_default());
    }
}

#[test]
fn the_group_that_a_walk_starts_at_comes_first() {
    let nodes = vec![group("/b/a", ""), group("/b/ ", ""), group("/b", ""), array("/b/v", "")];
    let out = walk_snapshot::<u8>(&nodes, "/b/", true, None).expect("walk");
    assert_eq!(paths(&out), ["/b", "/b/ ", "/b/a"]);
    let again = walk_snapshot::<u8>(&nodes, "/b", true, None).expect("walk");
    assert_eq!(paths(&again), paths(&out));
    assert_eq!(names(&again[0]), names(&out[0]));
}

#[test]
fn messages_for_arrays_end_with_the_cause() {
    for (failure, expected) in [
        (
            DocumentFailure::Parse("why".to_string()),
            "icechunk: failed to parse array zarr.json at /v: why",
        ),
        (
            DocumentFailure::Refused("why".to_string()),
            "icechunk: failed to construct Array from snapshot for /v: why",
        ),
        (DocumentFailure::Unfit(Unfit::Sizes), UNCOUNTABLE),
        (DocumentFailure::Unfit(Unfit::Fill), UNBUILDABLE),
    ] {
        assert_eq!(array_failure_message("/v", &failure), expected);
    }
}

#[test]
fn documents_make_arrays_or_fail() {
    let made = array_from_document("/v", &array("/v", "").user_data).expect("array");
    assert_eq!(made.shape(), [4, 6]);
    assert!(matches!(array_from_document("/v", b"{"), Err(DocumentFailure::Parse(_))));
    // A path has to be absolute.
    let refused = array_from_document("v", &array("/v", "").user_data);
    assert!(matches!(refused, Err(DocumentFailure::Refused(_))));
}

#[test]
fn a_flat_walk_does_not_look_at_other_documents() {
    let mut nodes = tree();
    nodes.push(broken("/c", NodeKind::Group));
    nodes.push(broken("/a/bad", NodeKind::Array));
    assert_eq!(paths(&walk_snapshot::<u8>(&nodes, "/b", false, None).expect("walk")), ["/b"]);
    assert!(walk_snapshot::<u8>(&nodes, "/b", true, None).is_err());
}

#[test]
fn a_pattern_prunes_groups_and_their_arrays() {
    let pattern = GlobPredicate::parse("/*/x");
    let mut nodes = tree();
    nodes.push(broken("/a/x/below", NodeKind::Group));
    nodes.push(broken("/a/y/z", NodeKind::Array));
    let out = walk_snapshot::<u8>(&nodes, "/", true, Some(&pattern)).expect("walk");
    assert_eq!(paths(&out), ["/", "/a", "/a/x", "/b"]);
    let pattern = GlobPredicate::parse("/a/x");
    let out = walk_snapshot::<u8>(&nodes, "/", true, Some(&pattern)).expect("walk");
    assert_eq!(paths(&out), ["/", "/a", "/a/x"]);
    assert_eq!(names(&out[2]), ["deep"]);
}

#[test]
fn the_last_group_under_a_path_counts() {
    let nodes = vec![group("/", r#""v":1"#), group("/", r#""v":2"#)];
    let out = walk_snapshot::<u8>(&nodes, "/", true, None).expect("walk");
    assert_eq!(out.len(), 1);
    assert!(matches!(out[0].attrs[0].1, AttrValue::Int(2)));
}

#[test]
fn the_first_broken_group_fails_the_walk() {
    let nodes = vec![
        broken("/a/bad", NodeKind::Array),
        broken("/z", NodeKind::Group),
        broken("/a", NodeKind::Group),
    ];
    let err = walk_snapshot::<u8>(&nodes, "/", true, None).err().expect("refused");
    assert!(matches!(err, RustytreeError::Other(_)));
    assert!(
        err.message().starts_with("icechunk: failed to parse group zarr.json at /z: "),
        "{}",
        err.message()
    );
}

#[test]
fn the_first_broken_array_by_group_fails_the_walk() {
    let nodes = vec![
        group("/", ""),
        broken("/z/first", NodeKind::Array),
        array("/a/good", ""),
        broken("/a/bad", NodeKind::Array),
        broken("/a/worse", NodeKind::Array),
    ];
    let err = walk_snapshot::<u8>(&nodes, "/", true, None).err().expect("refused");
    assert!(
        err.message().starts_with("icechunk: failed to parse array zarr.json at /a/bad: "),
        "{}",
        err.message()
    );
}

#[test]
fn metadata_that_makes_no_array_fails_the_walk() {
    let node = array("/bad", r#","dimension_names":["only one"]"#);
    let err = build_var_meta_from_snapshot::<u8>(&node).err().expect("refused");
    assert!(
        err.message().starts_with("icechunk: failed to construct Array from snapshot for /bad: "),
        "{}",
        err.message()
    );
}

#[test]
fn arrays_without_a_group_fail_the_walk() {
    let nodes = vec![group("/", ""), array("/z/v", ""), array("/m/v", ""), array("/m/w", "")];
    let err = walk_snapshot::<u8>(&nodes, "/", true, None).err().expect("refused");
    assert_eq!(err.message(), "icechunk: arrays under /m have no parent group");
}

#[test]
fn variables_show_what_the_document_says() {
    let node = array("/g/t", r#","dimension_names":["time", null]"#);
    let var = build_var_meta_from_snapshot::<u8>(&node).expect("variable");
    assert_eq!(var.name, "t");
    assert_eq!(var.dims, ["time", "dim_1"]);
    assert_eq!(var.dtype, "float32");
    assert_eq!(var.shape, [4, 6]);
    let keys: Vec<&str> = var.attrs.iter().map(|(k, _)| k.as_str()).collect();
    assert_eq!(keys, ["axis", "units"]);
    assert_eq!(var.array.shape(), [4, 6]);
    let unnamed = build_var_meta_from_snapshot::<u8>(&array("/t", "")).expect("variable");
    assert_eq!(unnamed.dims, ["dim_0", "dim_1"]);
}

#[test]
fn axes_without_a_name_get_one() {
    assert_eq!(axis_names(None, 2), ["dim_0", "dim_1"]);
    assert_eq!(axis_names(Some(vec![None, Some("y".to_string())]), 2), ["dim_0", "y"]);
    assert!(axis_names(None, 0).is_empty());
}

#[test]
fn an_empty_group_document_has_no_attributes() {
    assert!(parse_group_attrs(b"", "/").expect("read").is_empty());
    let found = parse_group_attrs(&group("/", r#""b":1,"a":2"#).user_data, "/").expect("read");
    let keys: Vec<&str> = found.iter().map(|(k, _)| k.as_str()).collect();
    assert_eq!(keys, ["a", "b"]);
}

#[test]
fn version_two_groups_have_attributes_too() {
    let document = br#"{"zarr_format":2,"a":1}"#;
    let found = parse_group_attrs(document, "/").expect("read");
    assert!(matches!(&found[0], (name, AttrValue::Int(1)) if name == "a"));
}

#[test]
fn pieces_make_the_walk() {
    let nodes = tree();
    let plan = plan_snapshot(&nodes, "/", true, None).expect("plan");
    let groups: Vec<&str> = plan.groups.iter().map(|(path, _)| path.as_str()).collect();
    assert_eq!(groups, ["/", "/a", "/a/x", "/b"]);
    let batches: Vec<(&str, &[usize])> =
        plan.batches.iter().map(|(path, places)| (path.as_str(), places.as_slice())).collect();
    assert_eq!(batches, [("/", &[3][..]), ("/a/x", &[7][..]), ("/b", &[0, 6][..])]);
    let mut jobs = Vec::new();
    for (path, places) in &plan.batches {
        jobs.push((path.clone(), build_batch::<u8>(&nodes, places).expect("batch")));
    }
    let out = attach_vars(plan.groups, jobs).expect("nodes");
    assert_eq!(paths(&out), ["/", "/a", "/a/x", "/b"]);
    assert_eq!(names(&out[3]), ["second", "first"]);
}

#[test]
fn roots_have_to_be_absolute_and_canonical() {
    assert_eq!(snapshot_root("/a/b").expect("root").to_string(), "/a/b");
    assert!(snapshot_root("/").is_ok());
    // A `.` is passed over, a `..` is not; neither is a name that has dots in it.
    assert!(snapshot_root("/a/./b").is_ok());
    assert!(snapshot_root("/a/..b/").is_ok());
    let err = snapshot_root("a/b").err().expect("refused");
    assert!(matches!(err, RustytreeError::InvalidInput(_)));
    assert_eq!(
        err.message(),
        "invalid input: icechunk: invalid root path \"a/b\": path must start with a `/` character"
    );
    let err = snapshot_root("/a/../b").err().expect("refused");
    assert_eq!(
        err.message(),
        "invalid input: icechunk: invalid root path \"/a/../b\": \
         path must be cannonic, cannot include \".\" or \"..\""
    );
    assert!(snapshot_root("").is_err());
}
