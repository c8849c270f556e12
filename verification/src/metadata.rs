//! What array metadata may declare.
//!
//! A small document can declare sizes that no machine can count: chunk sizes
//! that add up past 64 bits along an axis, a run of chunks longer than any list,
//! axes past the last number of 64 bits, or elements longer than any buffer. It
//! can also give a fill value in hexadecimal digits that are no such digits.
//! `zarrs` counts on neither occurring. Both are told here, from the JSON form of
//! the metadata.

use crate::attrs;
use crate::attrs::{JsonModel, JsonNode, NumberModel};
use crate::text;
use serde_json::Value;
use vstd::prelude::*;
use vstd::string::*;

verus! {

// ---------------------------------------------------------------------------
// Reading JSON
// ---------------------------------------------------------------------------

/// The value of the last entry with that name.
pub open spec fn entry_of(entries: Seq<(Seq<char>, JsonModel)>, name: Seq<char>) -> Option<JsonModel>
    decreases entries.len(),
{
    if entries.len() == 0 {
        None
    } else if entries.last().0 == name {
        Some(entries.last().1)
    } else {
        entry_of(entries.drop_last(), name)
    }
}

/// The value that an object has under a name.
pub open spec fn member_of(m: JsonModel, name: Seq<char>) -> Option<JsonModel> {
    match m {
        JsonModel::Dict(entries) => entry_of(entries, name),
        _ => None,
    }
}

/// The whole number from zero on that a value is, if it is one.
pub open spec fn whole_of(m: JsonModel) -> Option<u64> {
    match m {
        JsonModel::Number(NumberModel::PosInt(u)) => Some(u),
        _ => None,
    }
}

proof fn lemma_entry_place(entries: Seq<(Seq<char>, JsonModel)>, name: Seq<char>) -> (i: int)
    requires
        entry_of(entries, name) is Some,
    ensures
        0 <= i < entries.len(),
        entry_of(entries, name) == Some(entries[i].1),
    decreases entries.len(),
{
    if entries.last().0 == name {
        entries.len() - 1
    } else {
        lemma_entry_place(entries.drop_last(), name)
    }
}

/// A member is smaller than the object that it is in.
pub proof fn lemma_member_is_smaller(m: JsonModel, name: Seq<char>)
    ensures
        member_of(m, name) matches Some(x) ==> decreases_to!(m => x),
{
    if member_of(m, name) is Some {
        let entries = m->Dict_0;
        let i = lemma_entry_place(entries, name);
        assert(decreases_to!(m => entries));
        assert(decreases_to!(entries => entries[i]));
        assert(decreases_to!(entries[i] => entries[i].1));
    }
}

/// The value that an object has under a name.
fn member<'a>(v: &'a Value, name: &str) -> (r: Option<&'a Value>)
    ensures
        match r {
            Some(x) => member_of(attrs::json_model(*v), name@) == Some(attrs::json_model(*x)),
            None => member_of(attrs::json_model(*v), name@) is None,
        },
{
    match attrs::level_of(v) {
        JsonNode::Dict(entries) => {
            let ghost model = attrs::json_model(*v)->Dict_0;
            let mut found: Option<&'a Value> = None;
            let mut i: usize = 0;
            while i < entries.len()
                invariant
                    i <= entries.len(),
                    attrs::json_model(*v) == JsonModel::Dict(model),
                    attrs::is_level_of(JsonNode::Dict(entries), attrs::json_model(*v)),
                    match found {
                        Some(x) => entry_of(model.take(i as int), name@) == Some(
                            attrs::json_model(*x),
                        ),
                        None => entry_of(model.take(i as int), name@) is None,
                    },
                decreases entries.len() - i,
            {
                proof {
                    assert(model.take(i + 1).drop_last() =~= model.take(i as int));
                    assert(model.take(i + 1).last() == model[i as int]);
                    assert(entries@[i as int].0@ == model[i as int].0);
                }
                if text::same_text(entries[i].0, name) {
                    found = Some(entries[i].1);
                }
                i += 1;
            }
            assert(model.take(model.len() as int) =~= model);
            found
        },
        _ => None,
    }
}

/// Whether a value is a given text.
fn is_text(v: &Value, wanted: &str) -> (r: bool)
    ensures
        r == (attrs::json_model(*v) == JsonModel::Text(wanted@)),
{
    match attrs::level_of(v) {
        JsonNode::Text(s) => text::same_text(s, wanted),
        _ => false,
    }
}

/// The whole number from zero on that a value is, if it is one.
fn whole(v: &Value) -> (r: Option<u64>)
    ensures
        r == whole_of(attrs::json_model(*v)),
{
    match attrs::level_of(v) {
        JsonNode::Number(n) => attrs::number_as_u64(n),
        _ => None,
    }
}

// ---------------------------------------------------------------------------
// Chunk grids
// ---------------------------------------------------------------------------

/// Chunks of one size, one after another.
pub struct Run {
    /// The size of each.
    pub size: u64,
    /// How many there are.
    pub count: u64,
}

/// The run that an entry of an axis stands for: a size stands for one chunk, and
/// a size with a count for that many. Anything else stands for none.
pub open spec fn run_of(m: JsonModel) -> Run {
    match m {
        JsonModel::Number(NumberModel::PosInt(size)) => Run { size, count: 1 },
        JsonModel::List(pair) => if pair.len() == 2 && whole_of(pair[0]) is Some && whole_of(
            pair[1],
        ) is Some {
            Run { size: whole_of(pair[0])->0, count: whole_of(pair[1])->0 }
        } else {
            Run { size: 0, count: 0 }
        },
        _ => Run { size: 0, count: 0 },
    }
}

/// What the chunks of an axis add up to.
pub open spec fn extent(entries: Seq<JsonModel>) -> int
    decreases entries.len(),
{
    if entries.len() == 0 {
        0
    } else {
        extent(entries.drop_last()) + run_of(entries.last()).size * run_of(entries.last()).count
    }
}

/// How many chunks an axis has.
pub open spec fn chunk_count(entries: Seq<JsonModel>) -> int
    decreases entries.len(),
{
    if entries.len() == 0 {
        0
    } else {
        chunk_count(entries.drop_last()) + run_of(entries.last()).count
    }
}

/// The longest list of chunks that an axis may have: one that takes half of what
/// can be addressed at 32 bytes for each.
pub open spec fn longest_list() -> int {
    usize::MAX as int / 64
}

/// The chunks of an axis can be counted and added up. An axis with chunks of one
/// size needs neither.
pub open spec fn axis_fits(axis: JsonModel) -> bool {
    match axis {
        JsonModel::List(entries) => extent(entries) <= u64::MAX && chunk_count(entries)
            <= longest_list(),
        _ => true,
    }
}

/// The chunks of every axis can be counted and added up.
pub open spec fn axes_fit(axes: Option<JsonModel>) -> bool {
    match axes {
        Some(JsonModel::List(list)) => forall|i: int|
            0 <= i < list.len() ==> axis_fits(#[trigger] list[i]),
        _ => true,
    }
}

/// The member of a member of an object.
pub open spec fn inner_member_of(m: JsonModel, outer: Seq<char>, inner: Seq<char>) -> Option<
    JsonModel,
> {
    match member_of(m, outer) {
        Some(x) => member_of(x, inner),
        None => None,
    }
}

/// `m` has the text `name` for its name.
pub open spec fn is_named(m: JsonModel, name: Seq<char>) -> bool {
    member_of(m, "name"@) == Some(JsonModel::Text(name))
}

/// The chunks of a grid can be counted and added up. The two kinds of grid that
/// list their chunks keep the lists under different names.
pub open spec fn grid_fits(grid: JsonModel) -> bool {
    &&& is_named(grid, "rectangular"@) ==> axes_fit(
        inner_member_of(grid, "configuration"@, "chunk_shape"@),
    )
    &&& is_named(grid, "rectilinear"@) ==> axes_fit(
        inner_member_of(grid, "configuration"@, "chunk_shapes"@),
    )
}

proof fn lemma_prefix_is_no_longer(entries: Seq<JsonModel>, i: int)
    requires
        0 <= i <= entries.len(),
    ensures
        0 <= extent(entries.take(i)) <= extent(entries),
        0 <= chunk_count(entries.take(i)) <= chunk_count(entries),
    decreases entries.len(),
{
    if entries.len() == 0 {
        assert(entries.take(i) =~= entries);
    } else {
        let last = run_of(entries.last());
        assert(last.size * last.count >= 0) by (nonlinear_arith)
            requires
                last.size >= 0,
                last.count >= 0,
        ;
        lemma_prefix_is_no_longer(entries.drop_last(), entries.len() - 1);
        assert(entries.drop_last().take(entries.len() - 1) =~= entries.drop_last());
        if i < entries.len() {
            lemma_prefix_is_no_longer(entries.drop_last(), i);
            assert(entries.drop_last().take(i) =~= entries.take(i));
        } else {
            assert(entries.take(i) =~= entries);
        }
    }
}

/// The run that an entry of an axis stands for.
fn run(v: &Value) -> (r: Run)
    ensures
        r == run_of(attrs::json_model(*v)),
{
    match attrs::level_of(v) {
        JsonNode::Number(n) => match attrs::number_as_u64(n) {
            Some(size) => Run { size, count: 1 },
            None => Run { size: 0, count: 0 },
        },
        JsonNode::List(items) => {
            if items.len() == 2 {
                let ghost pair = attrs::json_model(*v)->List_0;
                assert(attrs::json_model(*items@[0]) == pair[0]);
                assert(attrs::json_model(*items@[1]) == pair[1]);
                match (whole(items[0]), whole(items[1])) {
                    (Some(size), Some(count)) => Run { size, count },
                    _ => Run { size: 0, count: 0 },
                }
            } else {
                Run { size: 0, count: 0 }
            }
        },
        _ => Run { size: 0, count: 0 },
    }
}

/// Whether the chunks of an axis can be counted and added up.
fn axis_can_be_counted(axis: &Value) -> (r: bool)
    ensures
        r == axis_fits(attrs::json_model(*axis)),
{
    match attrs::level_of(axis) {
        JsonNode::List(items) => {
            let ghost model = attrs::json_model(*axis)->List_0;
            let mut total: u128 = 0;
            let mut chunks: u128 = 0;
            let mut i: usize = 0;
            assert(model.take(0) =~= Seq::<JsonModel>::empty());
            while i < items.len()
                invariant
                    i <= items.len(),
                    attrs::json_model(*axis) == JsonModel::List(model),
                    attrs::is_level_of(JsonNode::List(items), attrs::json_model(*axis)),
                    total == extent(model.take(i as int)),
                    chunks == chunk_count(model.take(i as int)),
                    total <= u64::MAX,
                    chunks <= longest_list(),
                decreases items.len() - i,
            {
                let next: Run = run(items[i]);
                proof {
                    assert(attrs::json_model(*items@[i as int]) == model[i as int]);
                    assert(model.take(i + 1).drop_last() =~= model.take(i as int));
                    assert(model.take(i + 1).last() == model[i as int]);
                    lemma_prefix_is_no_longer(model, i + 1);
                    let size = next.size as int;
                    let count = next.count as int;
                    assert(0 <= size * count <= 0xffff_ffff_ffff_ffff * 0xffff_ffff_ffff_ffff)
                        by (nonlinear_arith)
                        requires
                            0 <= size <= 0xffff_ffff_ffff_ffff,
                            0 <= count <= 0xffff_ffff_ffff_ffff,
                    ;
                }
                total = total + next.size as u128 * next.count as u128;
                chunks = chunks + next.count as u128;
                if total > u64::MAX as u128 || chunks > (usize::MAX / 64) as u128 {
                    return false;
                }
                i += 1;
            }
            assert(model.take(model.len() as int) =~= model);
            true
        },
        _ => true,
    }
}

/// Whether the chunks of every axis can be counted and added up.
fn axes_can_be_counted(axes: Option<&Value>) -> (r: bool)
    ensures
        r == axes_fit(
            match axes {
                Some(v) => Some(attrs::json_model(*v)),
                None => None,
            },
        ),
{
    let v: &Value = match axes {
        Some(v) => v,
        None => {
            return true;
        },
    };
    match attrs::level_of(v) {
        JsonNode::List(items) => {
            let ghost model = attrs::json_model(*v)->List_0;
            let mut i: usize = 0;
            while i < items.len()
                invariant
                    i <= items.len(),
                    axes == Some(v),
                    attrs::json_model(*v) == JsonModel::List(model),
                    attrs::is_level_of(JsonNode::List(items), attrs::json_model(*v)),
                    forall|j: int| 0 <= j < i ==> axis_fits(#[trigger] model[j]),
                decreases items.len() - i,
            {
                assert(attrs::json_model(*items@[i as int]) == model[i as int]);
                if !axis_can_be_counted(items[i]) {
                    assert(!axis_fits(model[i as int]));
                    return false;
                }
                i += 1;
            }
            true
        },
        _ => true,
    }
}

/// The member of a member of an object.
fn inner_member<'a>(v: &'a Value, outer: &str, inner: &str) -> (r: Option<&'a Value>)
    ensures
        match r {
            Some(x) => inner_member_of(attrs::json_model(*v), outer@, inner@) == Some(
                attrs::json_model(*x),
            ),
            None => inner_member_of(attrs::json_model(*v), outer@, inner@) is None,
        },
{
    match member(v, outer) {
        Some(x) => member(x, inner),
        None => None,
    }
}

/// Whether a value has the text `name` for its name.
fn has_name(v: &Value, name: &str) -> (r: bool)
    ensures
        r == is_named(attrs::json_model(*v), name@),
{
    match member(v, "name") {
        Some(x) => is_text(x, name),
        None => false,
    }
}

/// Whether the chunks of a grid can be counted and added up.
pub fn grid_can_be_counted(grid: &Value) -> (r: bool)
    ensures
        r == grid_fits(attrs::json_model(*grid)),
{
    if has_name(grid, "rectangular") && !axes_can_be_counted(
        inner_member(grid, "configuration", "chunk_shape"),
    ) {
        return false;
    }
    !has_name(grid, "rectilinear") || axes_can_be_counted(
        inner_member(grid, "configuration", "chunk_shapes"),
    )
}

// ---------------------------------------------------------------------------
// Codecs
// ---------------------------------------------------------------------------

/// The number of an axis, and zero for anything that is none.
pub open spec fn axis_number(m: JsonModel) -> int {
    match whole_of(m) {
        Some(n) => n as int,
        None => 0,
    }
}

/// The number after those of the axes in a list that comes at `start`: axes are
/// counted up, and none comes twice.
pub open spec fn axes_end(axes: Seq<JsonModel>, start: int) -> int
    decreases axes.len(),
{
    if axes.len() == 0 {
        start
    } else {
        let before = axes_end(axes.drop_last(), start);
        let number = axis_number(axes.last());
        if number > before {
            number + 1
        } else {
            before + 1
        }
    }
}

/// The number after those of all axes that a new shape takes up: an entry takes
/// up one axis, or lists those that it takes up.
pub open spec fn shape_end(entries: Seq<JsonModel>) -> int
    decreases entries.len(),
{
    if entries.len() == 0 {
        0
    } else {
        let before = shape_end(entries.drop_last());
        match entries.last() {
            JsonModel::List(axes) => axes_end(axes, before),
            _ => before + 1,
        }
    }
}

/// The axes of a codec that gives chunks a new shape can be counted; other codecs
/// have none.
pub open spec fn codec_fits(codec: JsonModel) -> bool {
    is_named(codec, "reshape"@) ==> match inner_member_of(
        codec,
        "configuration"@,
        "shape"@,
    ) {
        Some(JsonModel::List(entries)) => shape_end(entries) <= u64::MAX,
        _ => true,
    }
}

/// The axes of all codecs in a value can be counted. Codecs have codecs in their
/// configurations.
pub open spec fn codecs_fit(m: JsonModel) -> bool
    decreases m,
{
    match m {
        JsonModel::List(items) => items_fit(items),
        JsonModel::Dict(entries) => codec_fits(m) && entries_fit(entries),
        _ => true,
    }
}

/// The axes of all codecs in the items of a list can be counted.
pub open spec fn items_fit(items: Seq<JsonModel>) -> bool
    decreases items,
{
    items.len() > 0 ==> items_fit(items.drop_last()) && codecs_fit(items.last())
}

/// The axes of all codecs in the entries of an object can be counted.
pub open spec fn entries_fit(entries: Seq<(Seq<char>, JsonModel)>) -> bool
    decreases entries,
{
    entries.len() > 0 ==> entries_fit(entries.drop_last()) && codecs_fit(entries.last().1)
}

proof fn lemma_axes_end_grows(axes: Seq<JsonModel>, start: int, i: int)
    requires
        0 <= i <= axes.len(),
    ensures
        start <= axes_end(axes.take(i), start) <= axes_end(axes, start),
    decreases axes.len(),
{
    if i == axes.len() {
        assert(axes.take(i) =~= axes);
        if axes.len() > 0 {
            lemma_axes_end_grows(axes.drop_last(), start, axes.len() - 1);
            assert(axes.drop_last().take(axes.len() - 1) =~= axes.drop_last());
        }
    } else {
        assert(axes.drop_last().take(i) =~= axes.take(i));
        lemma_axes_end_grows(axes.drop_last(), start, i);
    }
}

proof fn lemma_shape_end_grows(entries: Seq<JsonModel>, i: int)
    requires
        0 <= i <= entries.len(),
    ensures
        0 <= shape_end(entries.take(i)) <= shape_end(entries),
    decreases entries.len(),
{
    if entries.len() == 0 {
        assert(entries.take(i) =~= entries);
    } else {
        lemma_shape_end_grows(entries.drop_last(), entries.len() - 1);
        assert(entries.drop_last().take(entries.len() - 1) =~= entries.drop_last());
        if let JsonModel::List(axes) = entries.last() {
            lemma_axes_end_grows(axes, shape_end(entries.drop_last()), axes.len() as int);
            assert(axes.take(axes.len() as int) =~= axes);
        }
        if i < entries.len() {
            assert(entries.drop_last().take(i) =~= entries.take(i));
            lemma_shape_end_grows(entries.drop_last(), i);
        } else {
            assert(entries.take(i) =~= entries);
        }
    }
}

proof fn lemma_items_fit(items: Seq<JsonModel>, i: int)
    requires
        0 <= i < items.len(),
        items_fit(items),
    ensures
        codecs_fit(items[i]),
    decreases items.len(),
{
    if i < items.len() - 1 {
        lemma_items_fit(items.drop_last(), i);
    }
}

proof fn lemma_entries_fit(entries: Seq<(Seq<char>, JsonModel)>, i: int)
    requires
        0 <= i < entries.len(),
        entries_fit(entries),
    ensures
        codecs_fit(entries[i].1),
    decreases entries.len(),
{
    if i < entries.len() - 1 {
        lemma_entries_fit(entries.drop_last(), i);
    }
}

/// The number after those of the axes in a list that comes at `start`; none where
/// it takes more than 64 bits.
fn count_axes(axes: &Vec<&Value>, start: u64, Ghost(model): Ghost<Seq<JsonModel>>) -> (r: Option<
    u64,
>)
    requires
        axes@.len() == model.len(),
        forall|i: int|
            0 <= i < model.len() ==> attrs::json_model(*axes@[i]) == #[trigger] model[i],
    ensures
        match r {
            Some(end) => end == axes_end(model, start as int),
            None => axes_end(model, start as int) > u64::MAX,
        },
{
    let mut end: u64 = start;
    let mut i: usize = 0;
    assert(model.take(0) =~= Seq::<JsonModel>::empty());
    while i < axes.len()
        invariant
            axes@.len() == model.len(),
            forall|k: int|
                0 <= k < model.len() ==> attrs::json_model(*axes@[k]) == #[trigger] model[k],
            i <= axes.len(),
            end == axes_end(model.take(i as int), start as int),
        decreases axes.len() - i,
    {
        proof {
            assert(attrs::json_model(*axes@[i as int]) == model[i as int]);
            assert(model.take(i + 1).drop_last() =~= model.take(i as int));
            assert(model.take(i + 1).last() == model[i as int]);
            lemma_axes_end_grows(model, start as int, i + 1);
        }
        let number: u64 = match whole(axes[i]) {
            Some(n) => n,
            None => 0,
        };
        let top: u64 = if number > end {
            number
        } else {
            end
        };
        if top == u64::MAX {
            return None;
        }
        end = top + 1;
        i += 1;
    }
    assert(model.take(model.len() as int) =~= model);
    Some(end)
}

/// Whether the axes that a new shape takes up can be counted.
fn shape_can_be_counted(shape: &Value) -> (r: bool)
    ensures
        r == match attrs::json_model(*shape) {
            JsonModel::List(entries) => shape_end(entries) <= u64::MAX,
            _ => true,
        },
{
    match attrs::level_of(shape) {
        JsonNode::List(entries) => {
            let ghost model = attrs::json_model(*shape)->List_0;
            let mut end: u64 = 0;
            let mut i: usize = 0;
            assert(model.take(0) =~= Seq::<JsonModel>::empty());
            while i < entries.len()
                invariant
                    attrs::json_model(*shape) == JsonModel::List(model),
                    attrs::is_level_of(JsonNode::List(entries), attrs::json_model(*shape)),
                    i <= entries.len(),
                    end == shape_end(model.take(i as int)),
                decreases entries.len() - i,
            {
                proof {
                    assert(attrs::json_model(*entries@[i as int]) == model[i as int]);
                    assert(model.take(i + 1).drop_last() =~= model.take(i as int));
                    assert(model.take(i + 1).last() == model[i as int]);
                    lemma_shape_end_grows(model, i + 1);
                }
                match attrs::level_of(entries[i]) {
                    JsonNode::List(axes) => {
                        let ghost listed = model[i as int]->List_0;
                        match count_axes(&axes, end, Ghost(listed)) {
                            Some(next) => {
                                end = next;
                            },
                            None => {
                                return false;
                            },
                        }
                    },
                    _ => {
                        if end == u64::MAX {
                            return false;
                        }
                        end = end + 1;
                    },
                }
                i += 1;
            }
            assert(model.take(model.len() as int) =~= model);
            true
        },
        _ => true,
    }
}

/// Whether the axes of all codecs in a value can be counted.
pub fn codecs_can_be_counted(v: &Value) -> (r: bool)
    ensures
        r == codecs_fit(attrs::json_model(*v)),
    decreases attrs::json_model(*v),
{
    let ghost m = attrs::json_model(*v);
    match attrs::level_of(v) {
        JsonNode::List(items) => {
            let ghost model = m->List_0;
            let mut i: usize = 0;
            while i < items.len()
                invariant
                    m == attrs::json_model(*v),
                    m == JsonModel::List(model),
                    attrs::is_level_of(JsonNode::List(items), m),
                    i <= items.len(),
                    items_fit(model.take(i as int)),
                decreases items.len() - i,
            {
                proof {
                    assert(attrs::json_model(*items@[i as int]) == model[i as int]);
                    assert(model.take(i + 1).drop_last() =~= model.take(i as int));
                    assert(model.take(i + 1).last() == model[i as int]);
                    assert(decreases_to!(m => model));
                    assert(decreases_to!(model => model[i as int]));
                }
                if !codecs_can_be_counted(items[i]) {
                    proof {
                        if items_fit(model) {
                            lemma_items_fit(model, i as int);
                        }
                    }
                    return false;
                }
                i += 1;
            }
            assert(model.take(model.len() as int) =~= model);
            true
        },
        JsonNode::Dict(entries) => {
            if has_name(v, "reshape") {
                match inner_member(v, "configuration", "shape") {
                    Some(shape) => {
                        if !shape_can_be_counted(shape) {
                            return false;
                        }
                    },
                    None => {},
                }
            }
            assert(codec_fits(m));
            let ghost model = m->Dict_0;
            let mut i: usize = 0;
            while i < entries.len()
                invariant
                    m == attrs::json_model(*v),
                    m == JsonModel::Dict(model),
                    codec_fits(m),
                    attrs::is_level_of(JsonNode::Dict(entries), m),
                    i <= entries.len(),
                    entries_fit(model.take(i as int)),
                decreases entries.len() - i,
            {
                proof {
                    assert(attrs::json_model(*entries@[i as int].1) == model[i as int].1);
                    assert(model.take(i + 1).drop_last() =~= model.take(i as int));
                    assert(model.take(i + 1).last() == model[i as int]);
                    assert(decreases_to!(m => model));
                    assert(decreases_to!(model => model[i as int]));
                    assert(decreases_to!(model[i as int] => model[i as int].1));
                }
                if !codecs_can_be_counted(entries[i].1) {
                    proof {
                        if entries_fit(model) {
                            lemma_entries_fit(model, i as int);
                        }
                    }
                    return false;
                }
                i += 1;
            }
            assert(model.take(model.len() as int) =~= model);
            true
        },
        _ => true,
    }
}

// ---------------------------------------------------------------------------
// Fill values
// ---------------------------------------------------------------------------

/// A JSON value with the entries of every object left out. The entries of a fill
/// value come in no settled order.
pub open spec fn bare(m: JsonModel) -> JsonModel
    decreases m,
{
    match m {
        JsonModel::List(items) => JsonModel::List(
            Seq::new(
                items.len(),
                |i: int|
                    if 0 <= i < items.len() {
                        bare(items[i])
                    } else {
                        JsonModel::Null
                    },
            ),
        ),
        JsonModel::Dict(_) => JsonModel::Dict(Seq::empty()),
        _ => m,
    }
}

/// The value of a decimal digit, and zero for any other character.
pub open spec fn digit_value(c: char) -> int {
    if '0' <= c <= '9' {
        c as int - '0' as int
    } else {
        0
    }
}

/// The number that a text of decimal digits stands for.
pub open spec fn number_in(s: Seq<char>) -> int
    decreases s.len(),
{
    if s.len() == 0 {
        0
    } else {
        10 * number_in(s.drop_last()) + digit_value(s.last())
    }
}

/// A text names text of fixed length in the way of Zarr V2: after a mark for the
/// order of bytes and a `U` stands the number of characters.
pub open spec fn is_v2_text(name: Seq<char>) -> bool {
    name.len() >= 2 && (name[0] == '<' || name[0] == '>') && name[1] == 'U'
}

/// The data type has that name, with or without a configuration.
pub open spec fn is_type(dtype: JsonModel, name: Seq<char>) -> bool {
    dtype == JsonModel::Text(name) || is_named(dtype, name)
}

/// The elements of the data type are text, and so is its fill value.
pub open spec fn is_text_type(dtype: JsonModel) -> bool {
    ||| is_type(dtype, "string"@)
    ||| is_type(dtype, "fixed_length_utf32"@)
    ||| is_type(dtype, "|O"@)
    ||| dtype matches JsonModel::Text(name) && is_v2_text(name)
}

/// The number of bytes that text of fixed length takes, where the data type
/// declares one; a character takes four.
pub open spec fn text_length(dtype: JsonModel) -> int {
    if is_named(dtype, "fixed_length_utf32"@) {
        match inner_member_of(dtype, "configuration"@, "length_bytes"@) {
            Some(m) => match whole_of(m) {
                Some(bytes) => bytes as int,
                None => 0,
            },
            None => 0,
        }
    } else {
        match dtype {
            JsonModel::Text(name) => if is_v2_text(name) {
                4 * number_in(name.skip(2))
            } else {
                0
            },
            _ => 0,
        }
    }
}

/// A text that begins as a number in hexadecimal digits and holds a character
/// outside ASCII.
pub open spec fn is_broken_hex(s: Seq<char>) -> bool {
    &&& s.len() >= 2
    &&& s[0] == '0'
    &&& s[1] == 'x'
    &&& exists|i: int| 0 <= i < s.len() && (#[trigger] s[i]) > '\u{7f}'
}

/// A value is such a text, or a list that holds one at any depth.
pub open spec fn holds_broken_hex(m: JsonModel) -> bool
    decreases m,
{
    match m {
        JsonModel::Text(s) => is_broken_hex(s),
        JsonModel::List(items) => some_holds_broken_hex(items),
        _ => false,
    }
}

/// One of the values is such a text, or a list that holds one.
pub open spec fn some_holds_broken_hex(items: Seq<JsonModel>) -> bool
    decreases items,
{
    items.len() > 0 && (some_holds_broken_hex(items.drop_last()) || holds_broken_hex(items.last()))
}

/// The fill value of a data type can be read and held. Text is taken as it is
/// and padded to the length of its type; the fill value of an optional type,
/// where there is one, is the only item of a list; any other may be a number in
/// hexadecimal digits.
pub open spec fn fill_fits(dtype: JsonModel, fill: JsonModel) -> bool
    decreases dtype,
{
    if is_text_type(dtype) {
        fill is Text ==> text_length(dtype) <= isize::MAX
    } else if is_named(dtype, "zarrs.optional"@) {
        match (member_of(dtype, "configuration"@), fill) {
            (Some(inner), JsonModel::List(items)) => items.len() == 1 ==> {
                proof {
                    lemma_member_is_smaller(dtype, "configuration"@);
                }
                fill_fits(inner, items[0])
            },
            _ => true,
        }
    } else {
        !holds_broken_hex(fill)
    }
}

proof fn lemma_number_grows(s: Seq<char>, i: int)
    requires
        0 <= i <= s.len(),
    ensures
        0 <= number_in(s.take(i)) <= number_in(s),
    decreases s.len(),
{
    if i == s.len() {
        assert(s.take(i) =~= s);
        if s.len() > 0 {
            lemma_number_grows(s.drop_last(), s.len() - 1);
        }
    } else {
        assert(s.drop_last().take(i) =~= s.take(i));
        lemma_number_grows(s.drop_last(), i);
    }
}

/// Whether four times the number in a text of digits is a length that a buffer
/// can have.
fn four_times_fits(cs: &Vec<char>, from: usize) -> (r: bool)
    requires
        from <= cs@.len(),
    ensures
        r == (4 * number_in(cs@.skip(from as int)) <= isize::MAX),
{
    let ghost digits = cs@.skip(from as int);
    let mut value: u128 = 0;
    let mut i: usize = from;
    assert(digits.take(0) =~= Seq::<char>::empty());
    while i < cs.len()
        invariant
            from <= i <= cs.len(),
            digits == cs@.skip(from as int),
            value == number_in(digits.take(i - from)),
            4 * value <= isize::MAX,
        decreases cs.len() - i,
    {
        let c: char = cs[i];
        let digit: u128 = if '0' <= c && c <= '9' {
            (c as u32 - '0' as u32) as u128
        } else {
            0
        };
        proof {
            let more = digits.take(i - from + 1);
            assert(more.drop_last() =~= digits.take(i - from));
            assert(more.last() == c);
            lemma_number_grows(digits, i - from + 1);
        }
        value = 10 * value + digit;
        if 4 * value > isize::MAX as u128 {
            return false;
        }
        i += 1;
    }
    assert(digits.take(digits.len() as int) =~= digits);
    true
}

/// Whether a data type has that name, with or without a configuration.
fn has_type_name(dtype: &Value, name: &str) -> (r: bool)
    ensures
        r == is_type(attrs::json_model(*dtype), name@),
{
    is_text(dtype, name) || has_name(dtype, name)
}

/// Whether a data type is text of fixed length in the way of Zarr V2, and if so
/// whether its length is one that a buffer can have.
fn v2_text_fits(dtype: &Value) -> (r: Option<bool>)
    ensures
        match r {
            Some(b) => attrs::json_model(*dtype) matches JsonModel::Text(name) && is_v2_text(name)
                && b == (4 * number_in(name.skip(2)) <= isize::MAX),
            None => !(attrs::json_model(*dtype) matches JsonModel::Text(name) && is_v2_text(name)),
        },
{
    match attrs::level_of(dtype) {
        JsonNode::Text(name) => {
            let cs: Vec<char> = text::chars_of(name);
            if cs.len() >= 2 && (cs[0] == '<' || cs[0] == '>') && cs[1] == 'U' {
                Some(four_times_fits(&cs, 2))
            } else {
                None
            }
        },
        _ => None,
    }
}

/// For a data type whose elements are text, whether the length that it declares
/// is one that a buffer can have; nothing for any other.
fn text_can_be_held(dtype: &Value) -> (r: Option<bool>)
    ensures
        match r {
            Some(b) => is_text_type(attrs::json_model(*dtype)) && b == (text_length(
                attrs::json_model(*dtype),
            ) <= isize::MAX),
            None => !is_text_type(attrs::json_model(*dtype)),
        },
{
    if has_name(dtype, "fixed_length_utf32") {
        return match inner_member(dtype, "configuration", "length_bytes") {
            Some(length) => match whole(length) {
                Some(bytes) => Some(bytes <= isize::MAX as u64),
                None => Some(true),
            },
            None => Some(true),
        };
    }
    match v2_text_fits(dtype) {
        Some(b) => Some(b),
        None => {
            if has_type_name(dtype, "string") || has_type_name(dtype, "fixed_length_utf32")
                || has_type_name(dtype, "|O") {
                Some(true)
            } else {
                None
            }
        },
    }
}

/// Whether a text begins as a number in hexadecimal digits and holds a character
/// outside ASCII.
fn text_is_broken_hex(s: &str) -> (r: bool)
    ensures
        r == is_broken_hex(s@),
{
    let cs: Vec<char> = text::chars_of(s);
    if cs.len() < 2 || cs[0] != '0' || cs[1] != 'x' {
        return false;
    }
    let mut i: usize = 0;
    while i < cs.len()
        invariant
            cs@ == s@,
            cs@.len() >= 2,
            cs@[0] == '0',
            cs@[1] == 'x',
            i <= cs.len(),
            forall|j: int| 0 <= j < i ==> (#[trigger] cs@[j]) <= '\u{7f}',
        decreases cs.len() - i,
    {
        if cs[i] > '\u{7f}' {
            assert(s@[i as int] > '\u{7f}');
            return true;
        }
        i += 1;
    }
    false
}

proof fn lemma_some_holds_broken_hex(items: Seq<JsonModel>, i: int)
    requires
        0 <= i < items.len(),
        holds_broken_hex(items[i]),
    ensures
        some_holds_broken_hex(items),
    decreases items.len(),
{
    if i < items.len() - 1 {
        lemma_some_holds_broken_hex(items.drop_last(), i);
    }
}

/// Whether a value holds a text with broken hexadecimal digits, as itself or in
/// lists.
fn has_broken_hex(v: &Value) -> (r: bool)
    ensures
        r == holds_broken_hex(bare(attrs::json_model(*v))),
    decreases attrs::json_model(*v),
{
    let ghost m = attrs::json_model(*v);
    match attrs::level_of(v) {
        JsonNode::Text(s) => text_is_broken_hex(s),
        JsonNode::List(items) => {
            let ghost model = m->List_0;
            let ghost plain = bare(m)->List_0;
            let mut i: usize = 0;
            while i < items.len()
                invariant
                    m == attrs::json_model(*v),
                    m == JsonModel::List(model),
                    bare(m) == JsonModel::List(plain),
                    attrs::is_level_of(JsonNode::List(items), m),
                    i <= items.len(),
                    plain.len() == model.len(),
                    !some_holds_broken_hex(plain.take(i as int)),
                decreases items.len() - i,
            {
                proof {
                    assert(attrs::json_model(*items@[i as int]) == model[i as int]);
                    assert(plain[i as int] == bare(model[i as int]));
                    assert(plain.take(i + 1).drop_last() =~= plain.take(i as int));
                    assert(plain.take(i + 1).last() == plain[i as int]);
                    assert(decreases_to!(m => model));
                    assert(decreases_to!(model => model[i as int]));
                }
                if has_broken_hex(items[i]) {
                    proof {
                        lemma_some_holds_broken_hex(plain, i as int);
                    }
                    return true;
                }
                i += 1;
            }
            assert(plain.take(plain.len() as int) =~= plain);
            false
        },
        _ => false,
    }
}

/// Whether the fill value of a data type can be read and held.
pub fn fill_can_be_built(dtype: &Value, fill: &Value) -> (r: bool)
    ensures
        r == fill_fits(attrs::json_model(*dtype), bare(attrs::json_model(*fill))),
    decreases attrs::json_model(*dtype),
{
    match text_can_be_held(dtype) {
        Some(held) => {
            return match attrs::level_of(fill) {
                JsonNode::Text(_) => held,
                _ => true,
            };
        },
        None => {},
    }
    if !has_name(dtype, "zarrs.optional") {
        return !has_broken_hex(fill);
    }
    match (member(dtype, "configuration"), attrs::level_of(fill)) {
        (Some(inner), JsonNode::List(items)) => {
            if items.len() != 1 {
                return true;
            }
            proof {
                let m = attrs::json_model(*fill);
                assert(attrs::json_model(*items@[0]) == m->List_0[0]);
                assert(bare(m)->List_0[0] == bare(m->List_0[0]));
                lemma_member_is_smaller(attrs::json_model(*dtype), "configuration"@);
            }
            fill_can_be_built(inner, items[0])
        },
        _ => true,
    }
}

// ---------------------------------------------------------------------------
// Laws
// ---------------------------------------------------------------------------

/// An object has under a name the last value that it was given for it, and nothing
/// under a name that it was not given.
pub proof fn law_last_entry_counts(entries: Seq<(Seq<char>, JsonModel)>, name: Seq<char>, i: int)
    ensures
        0 <= i < entries.len() && entries[i].0 == name && (forall|k: int|
            i < k < entries.len() ==> (#[trigger] entries[k]).0 != name) ==> member_of(
            JsonModel::Dict(entries),
            name,
        ) == Some(entries[i].1),
        (forall|k: int| 0 <= k < entries.len() ==> (#[trigger] entries[k]).0 != name) ==> member_of(
            JsonModel::Dict(entries),
            name,
        ) is None,
    decreases entries.len(),
{
    if entries.len() > 0 {
        let init = entries.drop_last();
        law_last_entry_counts(init, name, i);
        assert(entries[entries.len() - 1] == entries.last());
        if 0 <= i && forall|k: int| i < k < entries.len() ==> (#[trigger] entries[k]).0 != name {
            assert forall|k: int| i < k < init.len() implies (#[trigger] init[k]).0 != name by {
                assert(init[k] == entries[k]);
            }
        }
        if forall|k: int| 0 <= k < entries.len() ==> (#[trigger] entries[k]).0 != name {
            assert forall|k: int| 0 <= k < init.len() implies (#[trigger] init[k]).0 != name by {
                assert(init[k] == entries[k]);
            }
        }
    }
}

/// The chunks of an axis are added up and counted part by part; a size is one
/// chunk, and a size with a count that many.
pub proof fn law_chunks_add_up(a: Seq<JsonModel>, b: Seq<JsonModel>, size: u64, count: u64)
    ensures
        extent(a + b) == extent(a) + extent(b),
        chunk_count(a + b) == chunk_count(a) + chunk_count(b),
        ({
            let one = JsonModel::Number(NumberModel::PosInt(size));
            let times = JsonModel::Number(NumberModel::PosInt(count));
            let many = JsonModel::List(seq![one, times]);
            &&& extent(seq![one]) == size
            &&& chunk_count(seq![one]) == 1
            &&& extent(seq![many]) == size * count
            &&& chunk_count(seq![many]) == count
        }),
    decreases b.len(),
{
    let one = JsonModel::Number(NumberModel::PosInt(size));
    let times = JsonModel::Number(NumberModel::PosInt(count));
    let pair = seq![one, times];
    let many = JsonModel::List(pair);
    let none = Seq::<JsonModel>::empty();
    assert(seq![one].drop_last() =~= none);
    assert(seq![many].drop_last() =~= none);
    assert(extent(none) == 0 && chunk_count(none) == 0);
    assert(pair[0] == one && pair[1] == times);
    assert(run_of(many).size == size && run_of(many).count == count);
    let run = run_of(one);
    assert(run.size * run.count == run.size) by (nonlinear_arith)
        requires
            run.count == 1,
    ;
    if b.len() == 0 {
        assert(a + b =~= a);
    } else {
        assert((a + b).drop_last() =~= a + b.drop_last());
        law_chunks_add_up(a, b.drop_last(), size, count);
    }
}

/// A grid that does not list its chunks is taken.
pub proof fn law_grids_without_lists_are_taken(grid: JsonModel)
    requires
        member_of(grid, "name"@) != Some(JsonModel::Text("rectangular"@)),
        member_of(grid, "name"@) != Some(JsonModel::Text("rectilinear"@)),
    ensures
        grid_fits(grid),
{
}

/// Chunks are taken when they add up to what 64 bits hold and are no more than a
/// list can have, on every axis that lists them.
pub proof fn law_countable_chunks_are_taken(
    axes: Seq<JsonModel>,
    axis: JsonModel,
    entries: Seq<JsonModel>,
)
    ensures
        axes_fit(None),
        axes_fit(Some(JsonModel::List(Seq::empty()))),
        axes_fit(Some(JsonModel::List(axes.push(axis)))) <==> axes_fit(Some(JsonModel::List(axes)))
            && axis_fits(axis),
        axis_fits(JsonModel::List(entries)) <==> extent(entries) <= 0xffff_ffff_ffff_ffff
            && chunk_count(entries) <= usize::MAX as int / 64,
        !(axis is List) ==> axis_fits(axis),
{
    let longer = axes.push(axis);
    if axes_fit(Some(JsonModel::List(longer))) {
        assert forall|i: int| 0 <= i < axes.len() implies axis_fits(#[trigger] axes[i]) by {
            assert(longer[i] == axes[i]);
        }
        assert(longer[axes.len() as int] == axis);
        assert(axis_fits(longer[axes.len() as int]));
    }
    if axes_fit(Some(JsonModel::List(axes))) && axis_fits(axis) {
        assert forall|i: int| 0 <= i < longer.len() implies axis_fits(#[trigger] longer[i]) by {
            if i < axes.len() {
                assert(longer[i] == axes[i]);
                lemma_axis_of_axes(axes, i);
            }
        }
    }
}

proof fn lemma_axis_of_axes(axes: Seq<JsonModel>, i: int)
    requires
        axes_fit(Some(JsonModel::List(axes))),
        0 <= i < axes.len(),
    ensures
        axis_fits(axes[i]),
{
    let whole = Some(JsonModel::List(axes));
    match whole {
        Some(JsonModel::List(list)) => {
            assert(list == axes);
            assert(axis_fits(list[i]));
        },
        _ => {},
    }
}

/// The two grids that list their chunks are judged by their lists.
pub proof fn law_listed_chunks_decide(grid: JsonModel, configuration: JsonModel)
    requires
        member_of(grid, "configuration"@) == Some(configuration),
    ensures
        member_of(grid, "name"@) == Some(JsonModel::Text("rectangular"@)) ==> (grid_fits(grid)
            <==> axes_fit(member_of(configuration, "chunk_shape"@))),
        member_of(grid, "name"@) == Some(JsonModel::Text("rectilinear"@)) ==> (grid_fits(grid)
            <==> axes_fit(member_of(configuration, "chunk_shapes"@))),
{
    reveal_strlit("rectangular");
    reveal_strlit("rectilinear");
    assert("rectangular"@[4] == 'a');
    assert("rectilinear"@[4] == 'i');
}

/// Codecs are judged one by one, and in each all that it holds.
pub proof fn law_codecs_are_judged_one_by_one(
    items: Seq<JsonModel>,
    entries: Seq<(Seq<char>, JsonModel)>,
)
    ensures
        codecs_fit(JsonModel::List(items)) <==> forall|i: int|
            0 <= i < items.len() ==> codecs_fit(#[trigger] items[i]),
        codecs_fit(JsonModel::Dict(entries)) <==> codec_fits(JsonModel::Dict(entries)) && forall|
            i: int,
        |
            0 <= i < entries.len() ==> codecs_fit((#[trigger] entries[i]).1),
{
    if items_fit(items) {
        assert forall|i: int| 0 <= i < items.len() implies codecs_fit(#[trigger] items[i]) by {
            lemma_items_fit(items, i);
        }
    }
    if forall|i: int| 0 <= i < items.len() ==> codecs_fit(#[trigger] items[i]) {
        lemma_all_items_fit(items);
    }
    if entries_fit(entries) {
        assert forall|i: int| 0 <= i < entries.len() implies codecs_fit(
            (#[trigger] entries[i]).1,
        ) by {
            lemma_entries_fit(entries, i);
        }
    }
    if forall|i: int| 0 <= i < entries.len() ==> codecs_fit((#[trigger] entries[i]).1) {
        lemma_all_entries_fit(entries);
    }
}

proof fn lemma_all_items_fit(items: Seq<JsonModel>)
    requires
        forall|i: int| 0 <= i < items.len() ==> codecs_fit(#[trigger] items[i]),
    ensures
        items_fit(items),
    decreases items.len(),
{
    if items.len() > 0 {
        let init = items.drop_last();
        assert forall|i: int| 0 <= i < init.len() implies codecs_fit(#[trigger] init[i]) by {
            assert(init[i] == items[i]);
        }
        lemma_all_items_fit(init);
        assert(codecs_fit(items[items.len() - 1]));
    }
}

proof fn lemma_all_entries_fit(entries: Seq<(Seq<char>, JsonModel)>)
    requires
        forall|i: int| 0 <= i < entries.len() ==> codecs_fit((#[trigger] entries[i]).1),
    ensures
        entries_fit(entries),
    decreases entries.len(),
{
    if entries.len() > 0 {
        let init = entries.drop_last();
        assert forall|i: int| 0 <= i < init.len() implies codecs_fit((#[trigger] init[i]).1) by {
            assert(init[i] == entries[i]);
        }
        lemma_all_entries_fit(init);
        assert(codecs_fit(entries[entries.len() - 1].1));
    }
}

/// A codec that gives chunks no new shape has no axes to count, and neither has a
/// value that is no list and no object.
pub proof fn law_other_codecs_are_taken(codec: JsonModel)
    ensures
        member_of(codec, "name"@) != Some(JsonModel::Text("reshape"@)) ==> codec_fits(codec),
        !(codec is List) && !(codec is Dict) ==> codecs_fit(codec),
{
}

/// Axes that are listed in ascending order are counted up to the last of them,
/// wherever the list comes before the first of them.
pub proof fn law_axes_are_counted_up(numbers: Seq<u64>, axes: Seq<JsonModel>, start: int)
    requires
        numbers.len() > 0,
        axes.len() == numbers.len(),
        forall|i: int|
            0 <= i < axes.len() ==> #[trigger] axes[i] == JsonModel::Number(
                NumberModel::PosInt(numbers[i]),
            ),
        start <= numbers[0],
        forall|i: int, j: int| 0 <= i < j < numbers.len() ==> numbers[i] < numbers[j],
    ensures
        axes_end(axes, start) == numbers.last() + 1,
    decreases numbers.len(),
{
    let init = axes.drop_last();
    assert(axes[axes.len() - 1] == axes.last());
    assert(axis_number(axes.last()) == numbers.last());
    if numbers.len() == 1 {
        assert(axes_end(init, start) == start);
    } else {
        assert forall|i: int| 0 <= i < init.len() implies #[trigger] init[i] == JsonModel::Number(
            NumberModel::PosInt(numbers.drop_last()[i]),
        ) by {
            assert(init[i] == axes[i]);
        }
        law_axes_are_counted_up(numbers.drop_last(), init, start);
        assert(numbers[numbers.len() - 2] < numbers[numbers.len() - 1]);
    }
}

/// A new shape takes up one axis for every size in it, and for a list the axes that
/// it lists.
pub proof fn law_shape_takes_up_its_axes(entries: Seq<JsonModel>, entry: JsonModel)
    ensures
        shape_end(Seq::<JsonModel>::empty()) == 0,
        !(entry is List) ==> shape_end(entries.push(entry)) == shape_end(entries) + 1,
        entry matches JsonModel::List(axes) ==> shape_end(entries.push(entry)) == axes_end(
            axes,
            shape_end(entries),
        ),
{
    assert(entries.push(entry).drop_last() =~= entries);
}

/// The number in a text of digits is the one that the text shows.
pub proof fn law_number_is_what_its_digits_show(n: nat)
    ensures
        number_in(text::decimal(n)) == n,
    decreases n,
{
    let s = text::decimal(n);
    if n < 10 {
        assert(s.drop_last() =~= Seq::<char>::empty());
        assert(number_in(s.drop_last()) == 0);
        assert(s.last() == text::digit(n as int));
    } else {
        law_number_is_what_its_digits_show(n / 10);
        assert(s.drop_last() =~= text::decimal(n / 10));
        assert(s.last() == text::digit((n % 10) as int));
    }
}

/// A fill value that is neither a text nor a list fits every data type, as far as
/// can be told before it is read.
pub proof fn law_plain_fill_values_fit(dtype: JsonModel, fill: JsonModel)
    requires
        !(fill is Text),
        !(fill is List),
    ensures
        fill_fits(dtype, fill),
{
}

/// A text is a fill value unless it begins with `0x` and holds a character outside
/// ASCII, where the elements are no texts; where they are, it is one unless their
/// length is past what a buffer can have.
pub proof fn law_text_fill_values(dtype: JsonModel, s: Seq<char>)
    ensures
        (forall|i: int| 0 <= i < s.len() ==> (#[trigger] s[i]) <= '\u{7f}') && text_length(dtype)
            <= isize::MAX ==> fill_fits(dtype, JsonModel::Text(s)),
        s.len() < 2 && text_length(dtype) <= isize::MAX ==> fill_fits(dtype, JsonModel::Text(s)),
        dtype == JsonModel::Text("string"@) && text_length(dtype) <= isize::MAX ==> fill_fits(
            dtype,
            JsonModel::Text(s),
        ),
{
}

/// A list of numbers fits where no item is a text that is no number.
pub proof fn law_broken_digits_are_found_in_lists(items: Seq<JsonModel>)
    ensures
        holds_broken_hex(JsonModel::List(items)) <==> exists|i: int|
            0 <= i < items.len() && holds_broken_hex(#[trigger] items[i]),
{
    if some_holds_broken_hex(items) {
        let i = lemma_broken_item(items);
        assert(holds_broken_hex(items[i]));
    }
    if exists|i: int| 0 <= i < items.len() && holds_broken_hex(#[trigger] items[i]) {
        let i = choose|i: int| 0 <= i < items.len() && holds_broken_hex(#[trigger] items[i]);
        lemma_some_holds_broken_hex(items, i);
    }
}

proof fn lemma_broken_item(items: Seq<JsonModel>) -> (i: int)
    requires
        some_holds_broken_hex(items),
    ensures
        0 <= i < items.len(),
        holds_broken_hex(items[i]),
    decreases items.len(),
{
    if some_holds_broken_hex(items.drop_last()) {
        lemma_broken_item(items.drop_last())
    } else {
        items.len() - 1
    }
}

/// A number is a whole one from zero on when it is held as such; no other value is.
pub proof fn law_whole_numbers(m: JsonModel, n: u64)
    ensures
        whole_of(m) == Some(n) <==> m == JsonModel::Number(NumberModel::PosInt(n)),
{
}

/// A codec that gives chunks a new shape is taken when the number after those of
/// its axes fits 64 bits, or when it lists no shape.
pub proof fn law_new_shapes_are_counted(codec: JsonModel, configuration: JsonModel)
    requires
        member_of(codec, "name"@) == Some(JsonModel::Text("reshape"@)),
        member_of(codec, "configuration"@) == Some(configuration),
    ensures
        member_of(configuration, "shape"@) matches Some(JsonModel::List(entries)) ==> (codec_fits(
            codec,
        ) <==> shape_end(entries) <= 0xffff_ffff_ffff_ffff),
        !(member_of(configuration, "shape"@) matches Some(JsonModel::List(_))) ==> codec_fits(codec),
{
}

/// Leaving out the entries of objects leaves everything else as it is.
pub proof fn law_bare_values_keep_the_rest(m: JsonModel, i: int)
    ensures
        match m {
            JsonModel::List(items) => bare(m) matches JsonModel::List(kept) && kept.len()
                == items.len() && (0 <= i < items.len() ==> kept[i] == bare(items[i])),
            JsonModel::Dict(_) => bare(m) matches JsonModel::Dict(entries) && entries.len() == 0,
            _ => bare(m) == m,
        },
{
}

/// The length of text is what its data type declares: in Zarr V3 a number of bytes,
/// in Zarr V2 a number of characters of four bytes each, after `<U` or `>U`.
pub proof fn law_text_has_its_declared_length(
    dtype: JsonModel,
    configuration: JsonModel,
    bytes: u64,
    mark: char,
    n: nat,
)
    requires
        mark == '<' || mark == '>',
    ensures
        member_of(dtype, "name"@) == Some(JsonModel::Text("fixed_length_utf32"@)) && member_of(
            dtype,
            "configuration"@,
        ) == Some(configuration) && member_of(configuration, "length_bytes"@) == Some(
            JsonModel::Number(NumberModel::PosInt(bytes)),
        ) ==> is_text_type(dtype) && text_length(dtype) == bytes,
        is_text_type(JsonModel::Text(seq![mark, 'U'] + text::decimal(n))),
        text_length(JsonModel::Text(seq![mark, 'U'] + text::decimal(n))) == 4 * n,
        is_text_type(JsonModel::Text("string"@)),
{
    let name = seq![mark, 'U'] + text::decimal(n);
    assert(name[0] == mark && name[1] == 'U');
    assert(name.skip(2) =~= text::decimal(n));
    law_number_is_what_its_digits_show(n);
}

/// A fill value that cannot be read or held does not fit: text for elements longer
/// than any buffer, and, where elements are no texts, a text that begins with `0x`
/// and holds a character outside ASCII. An optional data type is judged by the one
/// that it is made of.
pub proof fn law_broken_fill_values_do_not_fit(
    dtype: JsonModel,
    inner: JsonModel,
    s: Seq<char>,
    i: int,
    x: JsonModel,
)
    ensures
        is_text_type(dtype) ==> (fill_fits(dtype, JsonModel::Text(s)) <==> text_length(dtype)
            <= isize::MAX),
        !is_text_type(dtype) && member_of(dtype, "name"@) != Some(
            JsonModel::Text("zarrs.optional"@),
        ) && s.len() >= 2 && s[0] == '0' && s[1] == 'x' && 0 <= i < s.len() && s[i] > '\u{7f}'
            ==> !fill_fits(dtype, JsonModel::Text(s)),
        !is_text_type(dtype) && member_of(dtype, "name"@) == Some(
            JsonModel::Text("zarrs.optional"@),
        ) && member_of(dtype, "configuration"@) == Some(inner) ==> fill_fits(
            dtype,
            JsonModel::List(seq![x]),
        ) == fill_fits(inner, x),
{
    assert(seq![x][0] == x);
}

} // verus!
