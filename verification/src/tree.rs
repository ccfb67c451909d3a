//! Path-addressed operations on value trees: get, insert and remove walk
//! the tree one segment at a time. A field segment requires a map node, an
//! index segment a sequence node; insert creates missing intermediate
//! nodes of the required kind. A sequence grows append-only: inserting at
//! an index past the current length is refused.

use vstd::prelude::*;

use crate::lookup::{Lookup, SegView, Segment};
use crate::value::{
    entries_sorted, lemma_str_lt_transitive, lemma_str_lt_trichotomy, map_view, map_view_index,
    map_view_len, str_compare, str_lt, vv_wf, Value, ValueView,
};

verus! {

/// The value stored under `key`, if any.
pub open spec fn entries_get(m: Seq<(Seq<char>, ValueView)>, key: Seq<char>) -> Option<ValueView>
    decreases m.len(),
{
    if m.len() == 0 {
        None
    } else if m[0].0 == key {
        Some(m[0].1)
    } else {
        entries_get(m.skip(1), key)
    }
}

/// `m` with `key` bound to `val`, keeping the entries sorted.
pub open spec fn map_set(
    m: Seq<(Seq<char>, ValueView)>,
    key: Seq<char>,
    val: ValueView,
) -> Seq<(Seq<char>, ValueView)>
    decreases m.len(),
{
    if m.len() == 0 {
        seq![(key, val)]
    } else if str_lt(key, m[0].0) {
        seq![(key, val)] + m
    } else if key == m[0].0 {
        seq![(key, val)] + m.skip(1)
    } else {
        seq![m[0]] + map_set(m.skip(1), key, val)
    }
}

/// `m` without the entry under `key`, if it was there.
pub open spec fn map_remove(
    m: Seq<(Seq<char>, ValueView)>,
    key: Seq<char>,
) -> Seq<(Seq<char>, ValueView)>
    decreases m.len(),
{
    if m.len() == 0 {
        m
    } else if m[0].0 == key {
        m.skip(1)
    } else {
        seq![m[0]] + map_remove(m.skip(1), key)
    }
}

/// The empty node of the kind a segment requires: a map for a field, a
/// sequence for an index.
pub open spec fn fresh_for(seg: SegView) -> ValueView {
    match seg {
        SegView::Field(_) => ValueView::Object(Seq::empty()),
        SegView::Index(_) => ValueView::Array(Seq::empty()),
    }
}

/// A composite node with nothing in it.
pub open spec fn is_empty_node(v: ValueView) -> bool {
    match v {
        ValueView::Object(m) => m.len() == 0,
        ValueView::Array(items) => items.len() == 0,
        _ => false,
    }
}

/// The subtree addressed by `path[i..]`, if the tree holds one.
pub open spec fn tree_get(v: ValueView, path: Seq<SegView>, i: int) -> Option<ValueView>
    decreases path.len() - i,
    when 0 <= i <= path.len()
{
    if i >= path.len() {
        Some(v)
    } else {
        match path[i] {
            SegView::Field(f) => match v {
                ValueView::Object(m) => match entries_get(m, f) {
                    Some(c) => tree_get(c, path, i + 1),
                    None => None,
                },
                _ => None,
            },
            SegView::Index(n) => match v {
                ValueView::Array(items) => if 0 <= n < items.len() {
                    tree_get(items[n], path, i + 1)
                } else {
                    None
                },
                _ => None,
            },
        }
    }
}

/// The tree with the subtree at `path[i..]` replaced by `leaf`, creating
/// empty intermediate nodes where a key or the next sequence slot is
/// missing; nothing where a node of the wrong kind stands in the way or a
/// sequence index is past the end.
pub open spec fn tree_set(
    v: ValueView,
    path: Seq<SegView>,
    i: int,
    leaf: ValueView,
) -> Option<ValueView>
    decreases path.len() - i,
    when 0 <= i <= path.len()
{
    if i >= path.len() {
        Some(leaf)
    } else {
        match path[i] {
            SegView::Field(f) => match v {
                ValueView::Object(m) => {
                    let child = match entries_get(m, f) {
                        Some(c) => c,
                        None => if i + 1 < path.len() {
                            fresh_for(path[i + 1])
                        } else {
                            ValueView::Null
                        },
                    };
                    match tree_set(child, path, i + 1, leaf) {
                        Some(c2) => Some(ValueView::Object(map_set(m, f, c2))),
                        None => None,
                    }
                },
                _ => None,
            },
            SegView::Index(n) => match v {
                ValueView::Array(items) => {
                    if 0 <= n < items.len() {
                        match tree_set(items[n], path, i + 1, leaf) {
                            Some(c2) => Some(ValueView::Array(items.update(n, c2))),
                            None => None,
                        }
                    } else if n == items.len() {
                        let child = if i + 1 < path.len() {
                            fresh_for(path[i + 1])
                        } else {
                            ValueView::Null
                        };
                        match tree_set(child, path, i + 1, leaf) {
                            Some(c2) => Some(ValueView::Array(items.push(c2))),
                            None => None,
                        }
                    } else {
                        None
                    }
                },
                _ => None,
            },
        }
    }
}

/// The tree with the value at `path[i..]` taken out, and that value. A
/// missing path or a node of the wrong kind leaves the tree unchanged and
/// removes nothing. With `prune`, a composite node left empty by the
/// removal is removed as well.
pub open spec fn tree_unset(v: ValueView, path: Seq<SegView>, i: int, prune: bool) -> (
    ValueView,
    Option<ValueView>,
)
    decreases path.len() - i,
    when 0 <= i < path.len()
{
    match path[i] {
        SegView::Field(f) => match v {
            ValueView::Object(m) => match entries_get(m, f) {
                None => (v, None),
                Some(c) => if i + 1 >= path.len() {
                    (ValueView::Object(map_remove(m, f)), Some(c))
                } else {
                    let r = tree_unset(c, path, i + 1, prune);
                    if r.1 is Some && prune && is_empty_node(r.0) {
                        (ValueView::Object(map_remove(m, f)), r.1)
                    } else if r.1 is Some {
                        (ValueView::Object(map_set(m, f, r.0)), r.1)
                    } else {
                        (v, None)
                    }
                },
            },
            _ => (v, None),
        },
        SegView::Index(n) => match v {
            ValueView::Array(items) => if 0 <= n < items.len() {
                if i + 1 >= path.len() {
                    (ValueView::Array(items.remove(n)), Some(items[n]))
                } else {
                    let r = tree_unset(items[n], path, i + 1, prune);
                    if r.1 is Some && prune && is_empty_node(r.0) {
                        (ValueView::Array(items.remove(n)), r.1)
                    } else if r.1 is Some {
                        (ValueView::Array(items.update(n, r.0)), r.1)
                    } else {
                        (v, None)
                    }
                }
            } else {
                (v, None)
            },
            _ => (v, None),
        },
    }
}

} // verus!

verus! {

/// String equality through the three-way comparison.
pub fn str_eq(a: &str, b: &str) -> (r: bool)
    ensures
        r == (a@ == b@),
{
    let c = str_compare(a, b);
    proof {
        lemma_str_lt_trichotomy(a@, b@);
    }
    c == 0
}

proof fn lemma_entries_get_skip(m: Seq<(Seq<char>, ValueView)>, key: Seq<char>, i: int)
    requires
        0 <= i <= m.len(),
        forall|k: int| 0 <= k < i ==> m[k].0 != key,
    ensures
        entries_get(m, key) == entries_get(m.skip(i), key),
    decreases i,
{
    if i > 0 {
        assert(entries_get(m, key) == entries_get(m.skip(1), key));
        assert(forall|k: int| 0 <= k < i - 1 ==> m.skip(1)[k].0 == m[k + 1].0);
        lemma_entries_get_skip(m.skip(1), key, i - 1);
        assert(m.skip(1).skip(i - 1) =~= m.skip(i));
    } else {
        assert(m.skip(0) =~= m);
    }
}

/// Where `key` stands, or would stand, in a sorted entry list: the first
/// position whose key is not below `key`, and whether the key is there.
#[verifier::loop_isolation(false)]
fn entries_locate(entries: &Vec<(String, Value)>, key: &str) -> (r: (usize, bool))
    requires
        entries_sorted(map_view(entries@)),
    ensures
        r.0 <= entries@.len(),
        forall|k: int| 0 <= k < r.0 ==> str_lt(#[trigger] map_view(entries@)[k].0, key@),
        r.1 ==> r.0 < entries@.len() && map_view(entries@)[r.0 as int].0 == key@
            && entries_get(map_view(entries@), key@) == Some(map_view(entries@)[r.0 as int].1),
        !r.1 ==> entries_get(map_view(entries@), key@) is None && (r.0 == entries@.len() || str_lt(
            key@,
            map_view(entries@)[r.0 as int].0,
        )),
{
    broadcast use map_view_len, map_view_index;

    let ghost m = map_view(entries@);
    let n = entries.len();
    let mut i: usize = 0;
    while i < n
        invariant
            i <= n,
            n == entries@.len(),
            m == map_view(entries@),
            entries_sorted(m),
            forall|k: int| 0 <= k < i ==> str_lt(#[trigger] m[k].0, key@),
            forall|k: int| 0 <= k < i ==> m[k].0 != key@,
        decreases n - i,
    {
        let c = str_compare(entries[i].0.as_str(), key);
        proof {
            lemma_str_lt_trichotomy(entries@[i as int].0@, key@);
            assert(m[i as int].0 == entries@[i as int].0@);
        }
        if c == 0 {
            proof {
                lemma_entries_get_skip(m, key@, i as int);
                assert(m.skip(i as int)[0] == m[i as int]);
                assert(entries_get(m.skip(i as int), key@) == Some(m[i as int].1));
            }
            return (i, true);
        }
        if c > 0 {
            proof {
                assert(str_lt(key@, m[i as int].0));
                assert forall|k: int| 0 <= k < m.len() implies m[k].0 != key@ by {
                    if k < i {
                    } else {
                        if k > i {
                            assert(str_lt(m[i as int].0, m[k].0));
                            lemma_str_lt_transitive(key@, m[i as int].0, m[k].0);
                        }
                        lemma_str_lt_trichotomy(key@, m[k].0);
                    }
                }
                lemma_entries_get_skip(m, key@, m.len() as int);
                assert(m.skip(m.len() as int) =~= Seq::<(Seq<char>, ValueView)>::empty());
            }
            return (i, false);
        }
        i = i + 1;
    }
    proof {
        lemma_entries_get_skip(m, key@, m.len() as int);
        assert(m.skip(m.len() as int) =~= Seq::<(Seq<char>, ValueView)>::empty());
    }
    (n, false)
}

/// The first position holding `key`, by plain scan, and what the entry
/// list yields for it.
#[verifier::loop_isolation(false)]
fn entries_find_eq(entries: &Vec<(String, Value)>, key: &str) -> (r: Option<usize>)
    ensures
        r matches Some(i) ==> i < entries@.len() && entries_get(map_view(entries@), key@) == Some(
            map_view(entries@)[i as int].1,
        ) && map_view(entries@)[i as int].0 == key@,
        r is None ==> entries_get(map_view(entries@), key@) is None,
{
    broadcast use map_view_len, map_view_index;

    let ghost m = map_view(entries@);
    let n = entries.len();
    let mut i: usize = 0;
    while i < n
        invariant
            i <= n,
            n == entries@.len(),
            forall|k: int| 0 <= k < i ==> #[trigger] m[k].0 != key@,
        decreases n - i,
    {
        if str_eq(entries[i].0.as_str(), key) {
            proof {
                lemma_entries_get_skip(m, key@, i as int);
                assert(m.skip(i as int)[0] == m[i as int]);
            }
            return Some(i);
        }
        i = i + 1;
    }
    proof {
        lemma_entries_get_skip(m, key@, m.len() as int);
        assert(m.skip(m.len() as int) =~= Seq::<(Seq<char>, ValueView)>::empty());
    }
    None
}

/// The subtree under `path[from..]`, cloned, if the tree holds one.
pub fn tree_get_cloned(v: &Value, path: &Lookup, from: usize) -> (r: Option<Value>)
    requires
        from <= path@.len(),
    ensures
        match tree_get(v@, path@, from as int) {
            Some(x) => r matches Some(c) && c@ == x,
            None => r is None,
        },
    decreases path@.len() - from,
{
    broadcast use map_view_len, map_view_index, crate::value::arr_view_len,
        crate::value::arr_view_index;

    if from == path.len() {
        return Some(v.clone());
    }
    match (v, path.get(from)) {
        (Value::Object(entries), Segment::Field(f)) => {
            proof {
                assert(v@ == ValueView::Object(map_view(entries@)));
                assert(path@[from as int] == SegView::Field(f@));
            }
            match entries_find_eq(entries, f.as_str()) {
                Some(idx) => {
                    proof {
                        assert(map_view(entries@)[idx as int] == (
                            entries@[idx as int].0@,
                            entries@[idx as int].1.view(),
                        ));
                        assert(entries_get(map_view(entries@), f@) == Some(
                            entries@[idx as int].1@,
                        ));
                        assert(tree_get(v@, path@, from as int) == tree_get(
                            entries@[idx as int].1@,
                            path@,
                            from as int + 1,
                        ));
                    }
                    tree_get_cloned(&entries[idx].1, path, from + 1)
                },
                None => {
                    proof {
                        assert(tree_get(v@, path@, from as int) is None);
                    }
                    None
                },
            }
        },
        (Value::Array(items), Segment::Index(n)) => {
            proof {
                assert(v@ == ValueView::Array(crate::value::arr_view(items@)));
                assert(path@[from as int] == SegView::Index(*n as int));
            }
            if *n < items.len() {
                proof {
                    assert(crate::value::arr_view(items@)[*n as int] == items@[*n as int].view());
                    assert(tree_get(v@, path@, from as int) == tree_get(
                        items@[*n as int]@,
                        path@,
                        from as int + 1,
                    ));
                }
                tree_get_cloned(&items[*n], path, from + 1)
            } else {
                proof {
                    assert(tree_get(v@, path@, from as int) is None);
                }
                None
            }
        },
        _ => {
            proof {
                assert(tree_get(v@, path@, from as int) is None);
            }
            None
        },
    }
}

} // verus!

verus! {

proof fn lemma_sorted_skip(m: Seq<(Seq<char>, ValueView)>)
    requires
        entries_sorted(m),
        m.len() > 0,
    ensures
        entries_sorted(m.skip(1)),
{
    assert forall|i: int, j: int| 0 <= i < j < m.skip(1).len() implies str_lt(
        m.skip(1)[i].0,
        m.skip(1)[j].0,
    ) by {
        assert(m.skip(1)[i] == m[i + 1]);
        assert(m.skip(1)[j] == m[j + 1]);
    }
}

proof fn lemma_map_set_update(m: Seq<(Seq<char>, ValueView)>, key: Seq<char>, val: ValueView, idx: int)
    requires
        entries_sorted(m),
        0 <= idx < m.len(),
        m[idx].0 == key,
    ensures
        map_set(m, key, val) == m.update(idx, (key, val)),
    decreases idx,
{
    lemma_str_lt_trichotomy(key, m[0].0);
    if idx == 0 {
        assert(map_set(m, key, val) == seq![(key, val)] + m.skip(1));
        assert(seq![(key, val)] + m.skip(1) =~= m.update(0, (key, val)));
    } else {
        assert(str_lt(m[0].0, m[idx].0));
        lemma_sorted_skip(m);
        assert(m.skip(1)[idx - 1] == m[idx]);
        lemma_map_set_update(m.skip(1), key, val, idx - 1);
        assert(map_set(m, key, val) == seq![m[0]] + map_set(m.skip(1), key, val));
        assert(seq![m[0]] + m.skip(1).update(idx - 1, (key, val)) =~= m.update(idx, (key, val)));
    }
}

proof fn lemma_map_set_insert(m: Seq<(Seq<char>, ValueView)>, key: Seq<char>, val: ValueView, idx: int)
    requires
        entries_sorted(m),
        0 <= idx <= m.len(),
        forall|k: int| 0 <= k < idx ==> str_lt(#[trigger] m[k].0, key),
        idx < m.len() ==> str_lt(key, m[idx].0),
    ensures
        map_set(m, key, val) == m.insert(idx, (key, val)),
    decreases idx,
{
    if m.len() == 0 {
        assert(map_set(m, key, val) =~= m.insert(0, (key, val)));
    } else if idx == 0 {
        assert(str_lt(key, m[0].0));
        assert(map_set(m, key, val) == seq![(key, val)] + m);
        assert(seq![(key, val)] + m =~= m.insert(0, (key, val)));
    } else {
        assert(str_lt(m[0].0, key));
        lemma_str_lt_trichotomy(key, m[0].0);
        lemma_sorted_skip(m);
        assert(forall|k: int|
            0 <= k < idx - 1 ==> #[trigger] m.skip(1)[k].0 == m[k + 1].0);
        assert(idx - 1 < m.skip(1).len() ==> m.skip(1)[idx - 1].0 == m[idx].0);
        lemma_map_set_insert(m.skip(1), key, val, idx - 1);
        assert(map_set(m, key, val) == seq![m[0]] + map_set(m.skip(1), key, val));
        assert(seq![m[0]] + m.skip(1).insert(idx - 1, (key, val)) =~= m.insert(idx, (key, val)));
    }
}

proof fn lemma_sorted_update_same_key(m: Seq<(Seq<char>, ValueView)>, idx: int, e: (Seq<char>, ValueView))
    requires
        entries_sorted(m),
        0 <= idx < m.len(),
        e.0 == m[idx].0,
    ensures
        entries_sorted(m.update(idx, e)),
{
    assert forall|i: int, j: int| 0 <= i < j < m.update(idx, e).len() implies str_lt(
        m.update(idx, e)[i].0,
        m.update(idx, e)[j].0,
    ) by {
        assert(m.update(idx, e)[i].0 == m[i].0);
        assert(m.update(idx, e)[j].0 == m[j].0);
    }
}

proof fn lemma_sorted_insert(m: Seq<(Seq<char>, ValueView)>, idx: int, e: (Seq<char>, ValueView))
    requires
        entries_sorted(m),
        0 <= idx <= m.len(),
        forall|k: int| 0 <= k < idx ==> str_lt(#[trigger] m[k].0, e.0),
        idx < m.len() ==> str_lt(e.0, m[idx].0),
    ensures
        entries_sorted(m.insert(idx, e)),
{
    let m2 = m.insert(idx, e);
    assert forall|i: int, j: int| 0 <= i < j < m2.len() implies str_lt(m2[i].0, m2[j].0) by {
        if i < idx {
            assert(m2[i] == m[i]);
        } else if i == idx {
            assert(m2[i] == e);
        } else {
            assert(m2[i] == m[i - 1]);
        }
        if j < idx {
            assert(m2[j] == m[j]);
        } else if j == idx {
            assert(m2[j] == e);
        } else {
            assert(m2[j] == m[j - 1]);
        }
        if i < idx && j == idx {
        } else if i == idx && j > idx {
            if idx < m.len() && j - 1 > idx {
                lemma_str_lt_transitive(e.0, m[idx].0, m[j - 1].0);
            }
        } else if i < idx && j > idx {
            if j - 1 >= idx && idx < m.len() && j - 1 > idx {
                lemma_str_lt_transitive(m[i].0, m[idx].0, m[j - 1].0);
            } else if j - 1 == idx {
                if idx < m.len() {
                }
            }
        }
    }
}

} // verus!

verus! {

/// The tree with the subtree at `path[from..]` replaced by `leaf`. Where
/// the path cannot be followed — a node of the wrong kind stands in the
/// way, or a sequence index is past the end — the tree comes back
/// unchanged as the error.
#[verifier::loop_isolation(false)]
pub fn tree_set_value(v: Value, path: &Lookup, from: usize, leaf: Value) -> (r: Result<
    Value,
    Value,
>)
    requires
        from <= path@.len(),
        vv_wf(v@),
        vv_wf(leaf@),
    ensures
        r matches Ok(nv) ==> tree_set(v@, path@, from as int, leaf@) == Some(nv@) && vv_wf(nv@),
        r matches Err(orig) ==> tree_set(v@, path@, from as int, leaf@) is None && orig@ == v@,
    decreases path@.len() - from,
{
    broadcast use map_view_len, map_view_index, crate::value::arr_view_len,
        crate::value::arr_view_index;

    if from == path.len() {
        return Ok(leaf);
    }
    let next_is_field = from + 1 < path.len() && (match path.get(from + 1) {
        Segment::Field(_) => true,
        Segment::Index(_) => false,
    });
    match v {
        Value::Object(mut entries) => {
            let ghost ents0 = entries@;
            let ghost m = map_view(entries@);
            match path.get(from) {
                Segment::Field(f) => {
                    let (idx, found) = entries_locate(&entries, f.as_str());
                    if found {
                        let (k, child) = entries.remove(idx);
                        proof {
                            assert(child@ == m[idx as int].1);
                            assert(vv_wf(child@));
                            assert(entries_get(m, f@) == Some(child@));
                        }
                        match tree_set_value(child, path, from + 1, leaf) {
                            Ok(c2) => {
                                let ghost c2v = c2@;
                                entries.insert(idx, (k, c2));
                                proof {
                                    assert(entries@ =~= ents0.update(
                                        idx as int,
                                        entries@[idx as int],
                                    ));
                                    assert(entries@[idx as int].0@ == f@);
                                    assert(entries@[idx as int].1@ == c2v);
                                    assert(map_view(entries@) =~= m.update(idx as int, (f@, c2v)));
                                    lemma_map_set_update(m, f@, c2v, idx as int);
                                    lemma_sorted_update_same_key(m, idx as int, (f@, c2v));
                                    assert(vv_wf(ValueView::Object(map_view(entries@)))) by {
                                        assert(forall|j: int|
                                            0 <= j < map_view(entries@).len() ==> vv_wf(
                                                #[trigger] map_view(entries@)[j].1,
                                            ));
                                    }
                                }
                                Ok(Value::Object(entries))
                            },
                            Err(child_orig) => {
                                entries.insert(idx, (k, child_orig));
                                proof {
                                    assert(map_view(entries@) =~= m);
                                }
                                Err(Value::Object(entries))
                            },
                        }
                    } else {
                        let child0 = if from + 1 < path.len() {
                            if next_is_field {
                                Value::Object(Vec::new())
                            } else {
                                Value::Array(Vec::new())
                            }
                        } else {
                            Value::Null
                        };
                        proof {
                            if from + 1 < path@.len() {
                                assert(child0@ == fresh_for(path@[from as int + 1]));
                            }
                            assert(entries_get(m, f@) is None);
                        }
                        match tree_set_value(child0, path, from + 1, leaf) {
                            Ok(c2) => {
                                let ghost c2v = c2@;
                                let key = f.clone();
                                entries.insert(idx, (key, c2));
                                proof {
                                    assert(map_view(entries@) =~= m.insert(idx as int, (f@, c2v)));
                                    lemma_map_set_insert(m, f@, c2v, idx as int);
                                    lemma_sorted_insert(m, idx as int, (f@, c2v));
                                    assert(vv_wf(ValueView::Object(map_view(entries@)))) by {
                                        assert(forall|j: int|
                                            0 <= j < map_view(entries@).len() ==> vv_wf(
                                                #[trigger] map_view(entries@)[j].1,
                                            ));
                                    }
                                }
                                Ok(Value::Object(entries))
                            },
                            Err(_) => {
                                Err(Value::Object(entries))
                            },
                        }
                    }
                },
                Segment::Index(_) => {
                    Err(Value::Object(entries))
                },
            }
        },
        Value::Array(mut items) => {
            let ghost a = crate::value::arr_view(items@);
            match path.get(from) {
                Segment::Index(n) => {
                    if *n < items.len() {
                        let child = items.remove(*n);
                        proof {
                            assert(child@ == a[*n as int]);
                            assert(vv_wf(child@));
                        }
                        match tree_set_value(child, path, from + 1, leaf) {
                            Ok(c2) => {
                                let ghost c2v = c2@;
                                let idx = *n;
                                items.insert(idx, c2);
                                proof {
                                    assert(crate::value::arr_view(items@) =~= a.update(
                                        idx as int,
                                        c2v,
                                    ));
                                    assert(vv_wf(ValueView::Array(crate::value::arr_view(
                                        items@,
                                    )))) by {
                                        assert(forall|j: int|
                                            0 <= j < crate::value::arr_view(items@).len()
                                                ==> vv_wf(
                                                #[trigger] crate::value::arr_view(items@)[j],
                                            ));
                                    }
                                }
                                Ok(Value::Array(items))
                            },
                            Err(child_orig) => {
                                let idx = *n;
                                items.insert(idx, child_orig);
                                proof {
                                    assert(crate::value::arr_view(items@) =~= a);
                                }
                                Err(Value::Array(items))
                            },
                        }
                    } else if *n == items.len() {
                        let child0 = if from + 1 < path.len() {
                            if next_is_field {
                                Value::Object(Vec::new())
                            } else {
                                Value::Array(Vec::new())
                            }
                        } else {
                            Value::Null
                        };
                        proof {
                            if from + 1 < path@.len() {
                                assert(child0@ == fresh_for(path@[from as int + 1]));
                            }
                        }
                        match tree_set_value(child0, path, from + 1, leaf) {
                            Ok(c2) => {
                                let ghost c2v = c2@;
                                items.push(c2);
                                proof {
                                    assert(crate::value::arr_view(items@) =~= a.push(c2v));
                                    assert(vv_wf(ValueView::Array(crate::value::arr_view(
                                        items@,
                                    )))) by {
                                        assert(forall|j: int|
                                            0 <= j < crate::value::arr_view(items@).len()
                                                ==> vv_wf(
                                                #[trigger] crate::value::arr_view(items@)[j],
                                            ));
                                    }
                                }
                                Ok(Value::Array(items))
                            },
                            Err(_) => {
                                Err(Value::Array(items))
                            },
                        }
                    } else {
                        Err(Value::Array(items))
                    }
                },
                Segment::Field(_) => {
                    Err(Value::Array(items))
                },
            }
        },
        other => {
            proof {
                assert(tree_set(other@, path@, from as int, leaf@) is None);
            }
            Err(other)
        },
    }
}

} // verus!

verus! {

proof fn lemma_map_remove_at(m: Seq<(Seq<char>, ValueView)>, key: Seq<char>, idx: int)
    requires
        entries_sorted(m),
        0 <= idx < m.len(),
        m[idx].0 == key,
    ensures
        map_remove(m, key) == m.remove(idx),
    decreases idx,
{
    lemma_str_lt_trichotomy(key, m[0].0);
    if idx == 0 {
        assert(map_remove(m, key) == m.skip(1));
        assert(m.skip(1) =~= m.remove(0));
    } else {
        assert(str_lt(m[0].0, m[idx].0));
        lemma_sorted_skip(m);
        assert(m.skip(1)[idx - 1] == m[idx]);
        lemma_map_remove_at(m.skip(1), key, idx - 1);
        assert(map_remove(m, key) == seq![m[0]] + map_remove(m.skip(1), key));
        assert(seq![m[0]] + m.skip(1).remove(idx - 1) =~= m.remove(idx));
    }
}

proof fn lemma_sorted_remove(m: Seq<(Seq<char>, ValueView)>, idx: int)
    requires
        entries_sorted(m),
        0 <= idx < m.len(),
    ensures
        entries_sorted(m.remove(idx)),
{
    let m2 = m.remove(idx);
    assert forall|i: int, j: int| 0 <= i < j < m2.len() implies str_lt(m2[i].0, m2[j].0) by {
        if i < idx {
            assert(m2[i] == m[i]);
        } else {
            assert(m2[i] == m[i + 1]);
        }
        if j < idx {
            assert(m2[j] == m[j]);
        } else {
            assert(m2[j] == m[j + 1]);
        }
    }
}

/// Whether a node is a map or sequence with nothing in it.
fn node_is_empty(v: &Value) -> (r: bool)
    ensures
        r == is_empty_node(v@),
{
    match v {
        Value::Object(es) => {
            proof {
                map_view_len(es@);
            }
            es.len() == 0
        },
        Value::Array(xs) => {
            proof {
                crate::value::arr_view_len(xs@);
            }
            xs.len() == 0
        },
        _ => false,
    }
}

/// The tree with the value at `path[from..]` taken out, and that value,
/// cloned nowhere: the removed subtree is handed back. With `prune`, a
/// composite node left empty by the removal is removed as well.
#[verifier::loop_isolation(false)]
pub fn tree_unset_value(v: Value, path: &Lookup, from: usize, prune: bool) -> (r: (
    Value,
    Option<Value>,
))
    requires
        from < path@.len(),
        vv_wf(v@),
    ensures
        r.0@ == tree_unset(v@, path@, from as int, prune).0,
        vv_wf(r.0@),
        match tree_unset(v@, path@, from as int, prune).1 {
            Some(x) => r.1 matches Some(c) && c@ == x && vv_wf(c@),
            None => r.1 is None,
        },
    decreases path@.len() - from,
{
    broadcast use map_view_len, map_view_index, crate::value::arr_view_len,
        crate::value::arr_view_index;

    let plen = path.len();
    match v {
        Value::Object(mut entries) => {
            let ghost ents0 = entries@;
            let ghost m = map_view(entries@);
            match path.get(from) {
                Segment::Field(f) => {
                    let (idx, found) = entries_locate(&entries, f.as_str());
                    if !found {
                        proof {
                            assert(tree_unset(v@, path@, from as int, prune).1 is None);
                        }
                        return (Value::Object(entries), None);
                    }
                    let (k, child) = entries.remove(idx);
                    proof {
                        assert(child@ == m[idx as int].1);
                        assert(vv_wf(child@));
                        assert(entries@ =~= ents0.remove(idx as int));
                        assert(map_view(entries@) =~= m.remove(idx as int));
                        lemma_map_remove_at(m, f@, idx as int);
                        lemma_sorted_remove(m, idx as int);
                        assert(vv_wf(ValueView::Object(map_view(entries@)))) by {
                            assert(forall|j: int|
                                0 <= j < map_view(entries@).len() ==> vv_wf(
                                    #[trigger] map_view(entries@)[j].1,
                                ));
                        }
                    }
                    if from + 1 == plen {
                        proof {
                            assert(ValueView::Object(map_view(entries@)) == tree_unset(
                                v@,
                                path@,
                                from as int,
                                prune,
                            ).0);
                        }
                        (Value::Object(entries), Some(child))
                    } else {
                        let (c2, removed) = tree_unset_value(child, path, from + 1, prune);
                        let ghost rs = tree_unset(m[idx as int].1, path@, (from + 1) as int, prune);
                        proof {
                            assert(c2@ == rs.0);
                            assert(entries_get(m, f@) == Some(m[idx as int].1));
                        }
                        let keep_child = match removed {
                            Some(_) => {
                                let empty_now = node_is_empty(&c2);
                                proof {
                                    assert(empty_now == is_empty_node(rs.0));
                                    assert(rs.1 is Some);
                                }
                                !(prune && empty_now)
                            },
                            None => {
                                proof {
                                    assert(rs.1 is None);
                                }
                                true
                            },
                        };
                        if keep_child {
                            let ghost c2v = c2@;
                            let ghost pre = entries@;
                            entries.insert(idx, (k, c2));
                            proof {
                                assert(entries@ =~= pre.insert(idx as int, entries@[idx as int]));
                                assert(entries@[idx as int].0@ == f@);
                                assert(entries@[idx as int].1@ == c2v);
                                assert(entries@ =~= ents0.update(
                                    idx as int,
                                    entries@[idx as int],
                                ));
                                assert(map_view(entries@) =~= m.update(idx as int, (f@, c2v)));
                                lemma_map_set_update(m, f@, c2v, idx as int);
                                lemma_sorted_update_same_key(m, idx as int, (f@, c2v));
                                assert(vv_wf(ValueView::Object(map_view(entries@)))) by {
                                    assert(forall|j: int|
                                        0 <= j < map_view(entries@).len() ==> vv_wf(
                                            #[trigger] map_view(entries@)[j].1,
                                        ));
                                }
                                if removed is None {
                                    assert(c2v == m[idx as int].1);
                                    assert(map_view(entries@) =~= m);
                                }
                            }
                            proof {
                                assert(ValueView::Object(map_view(entries@)) == tree_unset(
                                    v@,
                                    path@,
                                    from as int,
                                    prune,
                                ).0);
                            }
                            (Value::Object(entries), removed)
                        } else {
                            proof {
                                assert(ValueView::Object(map_view(entries@)) == tree_unset(
                                    v@,
                                    path@,
                                    from as int,
                                    prune,
                                ).0);
                            }
                            (Value::Object(entries), removed)
                        }
                    }
                },
                Segment::Index(_) => {
                    proof {
                        assert(tree_unset(v@, path@, from as int, prune).1 is None);
                        assert(ValueView::Object(map_view(entries@)) == tree_unset(
                            v@,
                            path@,
                            from as int,
                            prune,
                        ).0);
                    }
                    (Value::Object(entries), None)
                },
            }
        },
        Value::Array(mut items) => {
            let ghost a = crate::value::arr_view(items@);
            match path.get(from) {
                Segment::Index(n) => {
                    if *n >= items.len() {
                        return (Value::Array(items), None);
                    }
                    let idx = *n;
                    let child = items.remove(idx);
                    proof {
                        assert(child@ == a[idx as int]);
                        assert(vv_wf(child@));
                        assert(crate::value::arr_view(items@) =~= a.remove(idx as int));
                        assert(vv_wf(ValueView::Array(crate::value::arr_view(items@)))) by {
                            assert(forall|j: int|
                                0 <= j < crate::value::arr_view(items@).len() ==> vv_wf(
                                    #[trigger] crate::value::arr_view(items@)[j],
                                ));
                        }
                    }
                    if from + 1 == plen {
                        (Value::Array(items), Some(child))
                    } else {
                        let (c2, removed) = tree_unset_value(child, path, from + 1, prune);
                        let ghost rs = tree_unset(a[idx as int], path@, (from + 1) as int, prune);
                        proof {
                            assert(c2@ == rs.0);
                        }
                        let keep_child = match removed {
                            Some(_) => {
                                let empty_now = node_is_empty(&c2);
                                proof {
                                    assert(empty_now == is_empty_node(rs.0));
                                    assert(rs.1 is Some);
                                }
                                !(prune && empty_now)
                            },
                            None => {
                                proof {
                                    assert(rs.1 is None);
                                }
                                true
                            },
                        };
                        if keep_child {
                            let ghost c2v = c2@;
                            let ghost pre = crate::value::arr_view(items@);
                            items.insert(idx, c2);
                            proof {
                                assert(crate::value::arr_view(items@) =~= a.update(
                                    idx as int,
                                    c2v,
                                ));
                                assert(vv_wf(ValueView::Array(crate::value::arr_view(items@))))
                                    by {
                                    assert(forall|j: int|
                                        0 <= j < crate::value::arr_view(items@).len() ==> vv_wf(
                                            #[trigger] crate::value::arr_view(items@)[j],
                                        ));
                                }
                                if removed is None {
                                    assert(c2v == a[idx as int]);
                                    assert(crate::value::arr_view(items@) =~= a);
                                }
                            }
                            (Value::Array(items), removed)
                        } else {
                            (Value::Array(items), removed)
                        }
                    }
                },
                Segment::Field(_) => {
                    (Value::Array(items), None)
                },
            }
        },
        other => {
            proof {
                assert(tree_unset(other@, path@, from as int, prune).1 is None);
            }
            (other, None)
        },
    }
}

} // verus!
