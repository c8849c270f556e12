use rustytree::array::ReadError;
use rustytree::error::{FailureKind, PyException, RustytreeError};
use rustytree::glob::GlobPredicate;
use rustytree::node::{NodeData, VarMeta};
use rustytree::walk::{
    eager_apply, eager_plan, group_node, in_preorder, normalize_path, parent_of, permits,
    read_ahead_outcome, require_group, should_eager_fetch, visits_group, walk_error, WalkStep,
    EAGER_FETCH_MAX_ELEMENTS,
};
use serde_json::Value;
use std::sync::Arc;
use zarrs::array::{Array, ArrayMetadata};

fn array(shape: &str) -> Array<()> {
    let document = format!(
        r#"{{"zarr_format":3,"node_type":"array","shape":[{shape}],"data_type":"int32",
        "chunk_grid":{{"name":"regular","configuration":{{"chunk_shape":[{shape}]}}}},
        "chunk_key_encoding":{{"name":"default","configuration":{{"separator":"/"}}}},
        "fill_value":0,"codecs":[{{"name":"bytes","configuration":{{"endian":"little"}}}}]}}"#
    );
    let metadata: ArrayMetadata = serde_json::from_str(&document).expect("array metadata");
    Array::new_with_metadata(Arc::new(()), "/a", metadata).expect("array")
}

fn var(name: &str, dims: &[&str], shape: &[u64]) -> VarMeta<u8> {
    VarMeta {
        name: name.to_string(),
        dims: dims.iter().map(|d| d.to_string()).collect(),
        dtype: "int32".to_string(),
        shape: shape.to_vec(),
        attrs: Vec::new(),
        array: array("1"),
        eager: None,
    }
}

fn node(path: &str, vars: Vec<VarMeta<u8>>) -> NodeData<u8> {
    NodeData { path: path.to_string(), attrs: Vec::new(), vars }
}

#[test]
fn normalize_path_handles_root_and_trailing_slash() {
    assert_eq!(normalize_path("/"), "/");
    assert_eq!(normalize_path("/foo"), "/foo");
    assert_eq!(normalize_path("/foo/"), "/foo");
    assert_eq!(normalize_path("/foo/bar"), "/foo/bar");
    assert_eq!(normalize_path("/foo/bar/"), "/foo/bar");
    assert_eq!(normalize_path(""), "/");
}

#[test]
fn parent_of_root_and_descendants() {
    assert_eq!(parent_of("/"), "/");
    assert_eq!(parent_of("/foo"), "/");
    assert_eq!(parent_of("/foo/bar"), "/foo");
    assert_eq!(parent_of("/a/b/c"), "/a/b");
}

#[test]
fn several_trailing_slashes_go_at_once() {
    assert_eq!(normalize_path("/foo///"), "/foo");
    assert_eq!(normalize_path("foo"), "foo");
    assert_eq!(normalize_path("//"), "/");
    assert_eq!(normalize_path("////"), "/");
    assert_eq!(normalize_path(&normalize_path("//")), normalize_path("//"));
}

#[test]
fn a_name_without_slash_is_in_the_root() {
    assert_eq!(parent_of("foo"), "/");
    assert_eq!(parent_of(""), "/");
}

#[test]
fn groups_come_before_the_groups_in_them() {
    let found = vec![
        vec!["/a".to_string(), "/a/x".to_string()],
        Vec::new(),
        vec!["/b".to_string()],
    ];
    assert_eq!(in_preorder("/".to_string(), found), ["/", "/a", "/a/x", "/b"]);
    assert_eq!(in_preorder("/leaf".to_string(), Vec::new()), ["/leaf"]);
}

#[test]
fn the_walk_turns_back_where_nothing_can_match() {
    let pattern = GlobPredicate::parse("/*/sweep_0");
    assert!(visits_group(Some(&pattern), "/VCP-12"));
    assert!(!visits_group(Some(&pattern), "/VCP-12/sweep_1"));
    assert!(visits_group(None, "/VCP-12/sweep_1"));
}

#[test]
fn permits_have_a_default_and_a_floor() {
    assert_eq!(permits(None), 32);
    assert_eq!(permits(Some(0)), 1);
    assert_eq!(permits(Some(7)), 7);
    assert_eq!(permits(Some(0)), permits(Some(1)));
    assert_eq!(permits(None), permits(Some(32)));
}

#[test]
fn walk_errors_name_path_and_cause() {
    for (step, expected) in [
        (WalkStep::OpenGroup, "failed to open group /g: why"),
        (WalkStep::ListArrays, "failed to list arrays in /g: why"),
        (WalkStep::DiscoverGroup, "failed to open group /g during walk: why"),
        (WalkStep::ListGroups, "failed to list child groups in /g: why"),
        (WalkStep::OpenArray, "failed to open array /g: why"),
        (WalkStep::ListNodes, "icechunk: list_nodes(/g) failed: why"),
        (WalkStep::EnumerateNodes, "icechunk: snapshot enumeration failed: why"),
        (WalkStep::JoinArrayBuild, "icechunk: array build join failed: why"),
    ] {
        let err = walk_error(step, FailureKind::Other, "/g", "why");
        assert!(matches!(err, RustytreeError::Other(_)));
        assert_eq!(err.message(), expected);
        let err = walk_error(step, FailureKind::Storage, "/g", "why");
        assert_eq!(err.py_exception(), PyException::OsError);
        assert_eq!(err.message(), format!("I/O error: {expected}"));
        let err = walk_error(step, FailureKind::Missing, "/g", "why");
        assert_eq!(err.py_exception(), PyException::KeyError);
        assert_eq!(err.message(), "not found: /g");
    }
}

#[test]
fn a_group_that_was_asked_for_has_to_be_there() {
    let nodes = || vec![node("/", Vec::new()), node("/a", vec![var("x", &["x"], &[3])])];
    let found = require_group(nodes(), "/a/").expect("group");
    assert_eq!(found.len(), 2);
    assert_eq!(found[1].path, "/a");
    assert_eq!(found[1].vars[0].name, "x");
    assert!(require_group(nodes(), "").is_ok());
    let err = require_group(nodes(), "/b").err().expect("refused");
    assert!(matches!(&err, RustytreeError::NotFound(m) if m == "/b"));
    assert_eq!(err.py_exception(), PyException::KeyError);
    assert!(require_group::<u8>(Vec::new(), "/").is_err());
}

#[test]
fn only_elements_that_are_not_read_stay_lazy() {
    assert!(matches!(read_ahead_outcome(Ok(7_u8)), Ok(Some(7))));
    let unsupported = ReadError::Unsupported("dtype".to_string());
    assert!(matches!(read_ahead_outcome::<u8>(Err(unsupported)), Ok(None)));
    for failed in [ReadError::Value("why".to_string()), ReadError::Index("why".to_string())] {
        let err = read_ahead_outcome::<u8>(Err(failed)).expect_err("failed");
        assert!(matches!(&err, RustytreeError::Other(m) if m == "eager fetch failed: why"));
    }
}

#[test]
fn a_group_keeps_its_attributes_in_order() {
    let attributes = vec![
        ("units".to_string(), Value::from("m")),
        ("axis".to_string(), Value::from(1)),
    ];
    let shown: NodeData<u8> = group_node("/g", &attributes, Vec::new());
    assert_eq!(shown.path, "/g");
    let names: Vec<&str> = shown.attrs.iter().map(|(name, _)| name.as_str()).collect();
    assert_eq!(names, ["axis", "units"]);
    assert!(shown.vars.is_empty());
}

#[test]
fn small_self_named_coordinates_are_read_ahead() {
    assert!(should_eager_fetch(&var("time", &["time"], &[10])));
    assert!(should_eager_fetch(&var("time", &["time"], &[0])));
    assert!(should_eager_fetch(&var("time", &["time"], &[EAGER_FETCH_MAX_ELEMENTS])));
    assert!(!should_eager_fetch(&var("time", &["time"], &[EAGER_FETCH_MAX_ELEMENTS + 1])));
    assert!(!should_eager_fetch(&var("time", &["t"], &[10])));
    assert!(!should_eager_fetch(&var("time", &["time", "x"], &[10, 10])));
    assert!(!should_eager_fetch(&var("scalar", &[], &[])));
    // The number of elements does not fit 64 bits.
    assert!(!should_eager_fetch(&var("big", &["big"], &[u64::MAX, u64::MAX])));
}

#[test]
fn values_go_where_they_were_asked_for() {
    let mut nodes = vec![
        node("/", vec![var("x", &["x"], &[3]), var("data", &["x"], &[3])]),
        node("/g", vec![var("data", &["x"], &[3]), var("y", &["y"], &[2])]),
    ];
    let plan = eager_plan(&nodes);
    assert_eq!(plan, [(0, 0), (1, 1)]);
    eager_apply(&mut nodes, vec![(0, 0, Some(7)), (1, 1, None)]);
    assert_eq!(nodes[0].vars[0].eager, Some(7));
    assert_eq!(nodes[0].vars[1].eager, None);
    assert_eq!(nodes[1].vars[0].eager, None);
    assert_eq!(nodes[1].vars[1].eager, None);
    // Values that are there stay when a later read fails.
    eager_apply(&mut nodes, vec![(0, 0, None)]);
    assert_eq!(nodes[0].vars[0].eager, Some(7));
    assert_eq!(nodes[0].path, "/");
    assert_eq!(nodes[0].vars[0].name, "x");
}
