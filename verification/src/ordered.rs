//! Entries kept in the order of their names.
//!
//! A vector of `(name, value)` pairs in which the names ascend strictly, so
//! that each name occurs once and a walk over the entries meets them in order.

use crate::text;
use vstd::prelude::*;
use vstd::string::*;

verus! {

/// The names ascend strictly.
pub open spec fn ascending<V>(entries: Seq<(String, V)>) -> bool {
    forall|i: int, j: int|
        #![trigger entries[i], entries[j]]
        0 <= i < j < entries.len() ==> text::text_lt(entries[i].0@, entries[j].0@)
}

/// `name` is the name of some entry.
pub open spec fn has_name<V>(entries: Seq<(String, V)>, name: Seq<char>) -> bool {
    exists|i: int| 0 <= i < entries.len() && (#[trigger] entries[i]).0@ == name
}

/// `after` is `before` with `value` under `name`, at position `at`: in place of
/// the entry that had the name, or as a new entry.
pub open spec fn put_at<V>(
    before: Seq<(String, V)>,
    after: Seq<(String, V)>,
    name: Seq<char>,
    value: V,
    at: int,
) -> bool {
    &&& 0 <= at < after.len()
    &&& after[at].0@ == name
    &&& after[at].1 == value
    &&& if has_name(before, name) {
        at < before.len() && before[at].0@ == name && after == before.update(at, after[at])
    } else {
        at <= before.len() && after == before.insert(at, after[at])
    }
}

/// No text stands before itself.
pub proof fn lemma_lt_irreflexive(a: Seq<char>)
    ensures
        !text::text_lt(a, a),
    decreases a.len(),
{
    if a.len() > 0 {
        lemma_lt_irreflexive(a.skip(1));
    }
}

/// The order is transitive.
pub proof fn lemma_lt_transitive(a: Seq<char>, b: Seq<char>, c: Seq<char>)
    requires
        text::text_lt(a, b),
        text::text_lt(b, c),
    ensures
        text::text_lt(a, c),
    decreases a.len(),
{
    if a.len() > 0 && b.len() > 0 && c.len() > 0 && a[0] == b[0] && b[0] == c[0] {
        lemma_lt_transitive(a.skip(1), b.skip(1), c.skip(1));
    }
}

/// Of two different texts one stands before the other.
pub proof fn lemma_lt_total(a: Seq<char>, b: Seq<char>)
    ensures
        a == b || text::text_lt(a, b) || text::text_lt(b, a),
    decreases a.len(),
{
    if a.len() == 0 || b.len() == 0 {
        if a.len() == 0 && b.len() == 0 {
            assert(a =~= b);
        }
    } else if a[0] == b[0] {
        lemma_lt_total(a.skip(1), b.skip(1));
        if a.skip(1) == b.skip(1) {
            assert(a =~= seq![a[0]] + a.skip(1));
            assert(b =~= seq![b[0]] + b.skip(1));
        }
    }
}

/// A text stands before every longer text that begins with it.
pub proof fn lemma_prefix_first(a: Seq<char>, rest: Seq<char>)
    requires
        rest.len() > 0,
    ensures
        text::text_lt(a, a + rest),
    decreases a.len(),
{
    if a.len() > 0 {
        lemma_prefix_first(a.skip(1), rest);
        assert((a + rest).skip(1) =~= a.skip(1) + rest);
    }
}

/// Whether `a` stands before `b`.
pub fn stands_before(a: &str, b: &str) -> (r: bool)
    ensures
        r == text::text_lt(a@, b@),
{
    let x: Vec<char> = text::chars_of(a);
    let y: Vec<char> = text::chars_of(b);
    let mut i: usize = 0;
    proof {
        assert(a@.skip(0) =~= a@);
        assert(b@.skip(0) =~= b@);
    }
    while i < x.len() && i < y.len()
        invariant
            x@ == a@,
            y@ == b@,
            i <= x.len(),
            i <= y.len(),
            text::text_lt(a@, b@) == text::text_lt(a@.skip(i as int), b@.skip(i as int)),
        decreases x.len() - i,
    {
        proof {
            assert(a@.skip(i as int).skip(1) =~= a@.skip(i + 1));
            assert(b@.skip(i as int).skip(1) =~= b@.skip(i + 1));
        }
        if x[i] != y[i] {
            return x[i] < y[i];
        }
        i += 1;
    }
    i < y.len()
}

/// Where `name` stands or belongs: the entries before that position have
/// smaller names, and those from it on do not. The second part of the result
/// says whether the name is there.
pub fn place<V>(entries: &Vec<(String, V)>, name: &str) -> (r: (usize, bool))
    requires
        ascending(entries@),
    ensures
        r.0 <= entries@.len(),
        r.1 == has_name(entries@, name@),
        r.1 ==> r.0 < entries@.len() && entries@[r.0 as int].0@ == name@,
        forall|i: int| 0 <= i < r.0 ==> text::text_lt((#[trigger] entries@[i]).0@, name@),
        !r.1 ==> forall|i: int|
            r.0 <= i < entries@.len() ==> text::text_lt(name@, (#[trigger] entries@[i]).0@),
{
    let mut i: usize = 0;
    while i < entries.len() && stands_before(entries[i].0.as_str(), name)
        invariant
            i <= entries.len(),
            forall|j: int| 0 <= j < i ==> text::text_lt((#[trigger] entries@[j]).0@, name@),
        decreases entries.len() - i,
    {
        i += 1;
    }
    proof {
        lemma_lt_irreflexive(name@);
    }
    if i < entries.len() && text::same_text(entries[i].0.as_str(), name) {
        return (i, true);
    }
    proof {
        if i < entries@.len() {
            lemma_lt_total(entries@[i as int].0@, name@);
            assert forall|j: int| i <= j < entries@.len() implies text::text_lt(
                name@,
                (#[trigger] entries@[j]).0@,
            ) by {
                if j > i {
                    assert(text::text_lt(entries@[i as int].0@, entries@[j].0@));
                    lemma_lt_transitive(name@, entries@[i as int].0@, entries@[j].0@);
                }
            }
        }
        if has_name(entries@, name@) {
            let j = choose|j: int| 0 <= j < entries@.len() && (#[trigger] entries@[j]).0@ == name@;
            assert(text::text_lt(entries@[j].0@, name@) || text::text_lt(name@, entries@[j].0@));
        }
    }
    (i, false)
}

/// Puts `value` under `name`, in place of what was there.
pub fn put<V>(entries: &mut Vec<(String, V)>, name: String, value: V) -> (at: usize)
    requires
        ascending(old(entries)@),
    ensures
        ascending(final(entries)@),
        put_at(old(entries)@, final(entries)@, name@, value, at as int),
{
    let (at, found) = place(entries, name.as_str());
    let ghost before = entries@;
    let ghost key = name@;
    if found {
        entries.set(at, (name, value));
        proof {
            assert forall|i: int, j: int|
                #![trigger entries@[i], entries@[j]]
                0 <= i < j < entries@.len() implies text::text_lt(
                entries@[i].0@,
                entries@[j].0@,
            ) by {
                assert(entries@[i].0@ == before[i].0@);
                assert(entries@[j].0@ == before[j].0@);
            }
        }
    } else {
        entries.insert(at, (name, value));
        proof {
            assert forall|i: int, j: int|
                #![trigger entries@[i], entries@[j]]
                0 <= i < j < entries@.len() implies text::text_lt(
                entries@[i].0@,
                entries@[j].0@,
            ) by {
                if i < at {
                    assert(entries@[i] == before[i]);
                } else if i > at {
                    assert(entries@[i] == before[i - 1]);
                }
                if j < at {
                    assert(entries@[j] == before[j]);
                } else if j > at {
                    assert(entries@[j] == before[j - 1]);
                }
            }
        }
    }
    at
}

/// Each name occurs once.
pub proof fn lemma_names_differ<V>(entries: Seq<(String, V)>, i: int, j: int)
    requires
        ascending(entries),
        0 <= i < entries.len(),
        0 <= j < entries.len(),
        entries[i].0@ == entries[j].0@,
    ensures
        i == j,
{
    lemma_lt_irreflexive(entries[i].0@);
    if i < j {
        assert(text::text_lt(entries[i].0@, entries[j].0@));
    }
    if j < i {
        assert(text::text_lt(entries[j].0@, entries[i].0@));
    }
}

/// What is listed under `name`: nothing where no entry has the name.
pub open spec fn listed<T>(entries: Seq<(String, Vec<T>)>, name: Seq<char>) -> Seq<T> {
    if has_name(entries, name) {
        entries[name_at(entries, name)].1@
    } else {
        Seq::<T>::empty()
    }
}

/// The position of the entry with that name.
pub open spec fn name_at<V>(entries: Seq<(String, V)>, name: Seq<char>) -> int {
    choose|i: int| 0 <= i < entries.len() && (#[trigger] entries[i]).0@ == name
}

/// A name stands at one position.
pub proof fn lemma_name_at<V>(entries: Seq<(String, V)>, i: int)
    requires
        ascending(entries),
        0 <= i < entries.len(),
    ensures
        has_name(entries, entries[i].0@),
        name_at(entries, entries[i].0@) == i,
{
    let name = entries[i].0@;
    assert(0 <= i < entries.len() && entries[i].0@ == name);
    lemma_names_differ(entries, name_at(entries, name), i);
}

/// Adds `item` to the end of what is listed under `name`.
pub fn add_under<T>(entries: &mut Vec<(String, Vec<T>)>, name: String, item: T)
    requires
        ascending(old(entries)@),
    ensures
        ascending(final(entries)@),
        listed(final(entries)@, name@) == listed(old(entries)@, name@).push(item),
        forall|other: Seq<char>|
            other != name@ ==> #[trigger] listed(final(entries)@, other) == listed(
                old(entries)@,
                other,
            ),
        forall|other: Seq<char>| #[trigger]
            has_name(final(entries)@, other) <==> other == name@ || has_name(old(entries)@, other),
{
    let (at, found) = place(entries, name.as_str());
    let ghost before = entries@;
    let ghost key = name@;
    if found {
        entries[at].1.push(item);
        proof {
            let after = entries@;
            assert forall|i: int, j: int|
                #![trigger after[i], after[j]]
                0 <= i < j < after.len() implies text::text_lt(after[i].0@, after[j].0@) by {
                assert(after[i].0@ == before[i].0@ && after[j].0@ == before[j].0@);
            }
            lemma_name_at(before, at as int);
            lemma_name_at(after, at as int);
            assert forall|other: Seq<char>| #[trigger]
                has_name(after, other) <==> other == key || has_name(before, other) by {
                if has_name(after, other) {
                    assert(before[name_at(after, other)].0@ == other);
                }
                if has_name(before, other) {
                    assert(after[name_at(before, other)].0@ == other);
                }
            }
            assert forall|other: Seq<char>| other != key implies #[trigger] listed(after, other)
                == listed(before, other) by {
                if has_name(before, other) {
                    let k = name_at(before, other);
                    assert(after[k] == before[k]);
                    lemma_name_at(after, k);
                }
            }
        }
    } else {
        let mut items: Vec<T> = Vec::new();
        items.push(item);
        let ghost fresh = items@;
        let new_at: usize = put(entries, name, items);
        proof {
            let after = entries@;
            assert(fresh =~= Seq::<T>::empty().push(item));
            lemma_name_at(after, new_at as int);
            assert forall|other: Seq<char>| #[trigger]
                has_name(after, other) <==> other == key || has_name(before, other) by {
                if has_name(after, other) && other != key {
                    let k = name_at(after, other);
                    if k < new_at {
                        assert(before[k] == after[k]);
                    } else {
                        assert(before[k - 1] == after[k]);
                    }
                }
                if has_name(before, other) {
                    let k = name_at(before, other);
                    if k < new_at {
                        assert(after[k] == before[k]);
                    } else {
                        assert(after[k + 1] == before[k]);
                    }
                }
            }
            assert forall|other: Seq<char>| other != key implies #[trigger] listed(after, other)
                == listed(before, other) by {
                if has_name(before, other) {
                    let k = name_at(before, other);
                    let l = if k < new_at {
                        k
                    } else {
                        k + 1
                    };
                    assert(after[l] == before[k]);
                    lemma_name_at(after, l);
                }
            }
        }
    }
}

/// Ascending entries with the same names have them at the same places.
pub proof fn lemma_same_names<V, W>(a: Seq<(String, V)>, b: Seq<(String, W)>)
    requires
        ascending(a),
        ascending(b),
        forall|i: int| 0 <= i < a.len() ==> has_name(b, (#[trigger] a[i]).0@),
        forall|i: int| 0 <= i < b.len() ==> has_name(a, (#[trigger] b[i]).0@),
    ensures
        a.len() == b.len(),
        forall|i: int| 0 <= i < a.len() ==> (#[trigger] a[i]).0@ == b[i].0@,
{
    lemma_same_names_until(a, b, a.len() as int);
    lemma_same_names_until(b, a, b.len() as int);
}

proof fn lemma_same_names_until<V, W>(a: Seq<(String, V)>, b: Seq<(String, W)>, n: int)
    requires
        ascending(a),
        ascending(b),
        forall|i: int| 0 <= i < a.len() ==> has_name(b, (#[trigger] a[i]).0@),
        forall|i: int| 0 <= i < b.len() ==> has_name(a, (#[trigger] b[i]).0@),
        0 <= n <= a.len(),
    ensures
        n <= b.len(),
        forall|i: int| 0 <= i < n ==> (#[trigger] a[i]).0@ == b[i].0@,
    decreases n,
{
    if n > 0 {
        lemma_same_names_until(a, b, n - 1);
        let name = a[n - 1].0@;
        let k = name_at(b, name);
        if k < n - 1 {
            assert(a[k].0@ == b[k].0@);
            lemma_names_differ(a, k, n - 1);
        } else if k > n - 1 {
            let other = b[n - 1].0@;
            assert(text::text_lt(b[n - 1].0@, b[k].0@));
            let l = name_at(a, other);
            if l < n - 1 {
                assert(a[l].0@ == b[l].0@);
                lemma_names_differ(b, l, n - 1);
            } else if l == n - 1 {
                lemma_lt_irreflexive(name);
            } else {
                assert(text::text_lt(a[n - 1].0@, a[l].0@));
                lemma_lt_transitive(name, other, name);
                lemma_lt_irreflexive(name);
            }
        }
    }
}

/// What is put under a name is found there, and everything else stays: each entry
/// with another name is kept, and none comes from nowhere.
pub proof fn law_put_changes_one_entry<V>(
    before: Seq<(String, V)>,
    after: Seq<(String, V)>,
    name: Seq<char>,
    value: V,
    at: int,
    i: int,
)
    requires
        ascending(before),
        ascending(after),
        put_at(before, after, name, value, at),
    ensures
        0 <= at < after.len(),
        after[at].0@ == name,
        after[at].1 == value,
        0 <= i < before.len() && before[i].0@ != name ==> exists|j: int|
            0 <= j < after.len() && #[trigger] after[j] == before[i],
        0 <= i < after.len() && after[i].0@ != name ==> exists|j: int|
            0 <= j < before.len() && #[trigger] before[j] == after[i],
        forall|j: int, k: int|
            #![trigger after[j], after[k]]
            0 <= j < k < after.len() ==> text::text_lt(after[j].0@, after[k].0@),
{
    if 0 <= i < before.len() && before[i].0@ != name {
        if has_name(before, name) || i < at {
            assert(after[i] == before[i]);
        } else {
            assert(after[i + 1] == before[i]);
        }
    }
    if 0 <= i < after.len() && after[i].0@ != name {
        if has_name(before, name) || i < at {
            assert(before[i] == after[i]);
        } else {
            assert(before[i - 1] == after[i]);
        }
    }
}

/// What is listed under a name is what its entry holds; under any other name
/// nothing is listed.
pub proof fn law_entry_is_found_by_its_name<T>(
    entries: Seq<(String, Vec<T>)>,
    i: int,
    other: Seq<char>,
)
    requires
        ascending(entries),
        0 <= i < entries.len(),
    ensures
        has_name(entries, entries[i].0@),
        listed(entries, entries[i].0@) == entries[i].1@,
        (forall|j: int| 0 <= j < entries.len() ==> (#[trigger] entries[j]).0@ != other) ==> !has_name(
            entries,
            other,
        ) && listed(entries, other).len() == 0,
{
    lemma_name_at(entries, i);
}

} // verus!
