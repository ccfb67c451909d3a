//! The structured value tree: a scalar, an ordered map with unique string
//! keys, or a dense sequence. Trees are addressed by [`Lookup`] paths: a
//! map node consumes a field segment, a sequence node an index segment.
//!
//! Floating-point scalars are carried as their IEEE 754 bit pattern and
//! compared bitwise, for determinism. Timestamps are nanoseconds since the
//! Unix epoch. Map iteration order is key sort order, by code point.

use vstd::prelude::*;
use vstd::string::StrSliceExecFns;

use crate::lookup::Lookup;

verus! {

broadcast use vstd::utf8::char_u32_cast, vstd::utf8::char_is_scalar;

/// A node of the value tree.
#[derive(Debug)]
pub enum Value {
    /// A string or byte scalar.
    Bytes(Vec<u8>),
    /// An integer scalar.
    Integer(i64),
    /// A floating-point scalar, held as its IEEE 754 bit pattern.
    Float(u64),
    /// A boolean scalar.
    Boolean(bool),
    /// A point in time, in nanoseconds since the Unix epoch.
    Timestamp(i64),
    /// The null scalar.
    Null,
    /// An ordered map: keys unique, sorted by code point.
    Object(Vec<(String, Value)>),
    /// A dense ordered sequence.
    Array(Vec<Value>),
}

/// The mathematical model of a [`Value`].
pub enum ValueView {
    Bytes(Seq<u8>),
    Integer(int),
    Float(u64),
    Boolean(bool),
    Timestamp(int),
    Null,
    Object(Seq<(Seq<char>, ValueView)>),
    Array(Seq<ValueView>),
}

/// The view of a map node's entry list.
pub open spec fn map_view(fields: Seq<(String, Value)>) -> Seq<(Seq<char>, ValueView)>
    decreases fields,
{
    if fields.len() == 0 {
        Seq::empty()
    } else {
        map_view(fields.drop_last()).push(
            (fields.last().0@, fields.last().1.view()),
        )
    }
}

/// The view of a sequence node's element list.
pub open spec fn arr_view(items: Seq<Value>) -> Seq<ValueView>
    decreases items,
{
    if items.len() == 0 {
        Seq::empty()
    } else {
        arr_view(items.drop_last()).push(items.last().view())
    }
}

impl View for Value {
    type V = ValueView;

    open spec fn view(&self) -> ValueView
        decreases self,
    {
        match self {
            Value::Bytes(b) => ValueView::Bytes(b@),
            Value::Integer(n) => ValueView::Integer(*n as int),
            Value::Float(bits) => ValueView::Float(*bits),
            Value::Boolean(b) => ValueView::Boolean(*b),
            Value::Timestamp(t) => ValueView::Timestamp(*t as int),
            Value::Null => ValueView::Null,
            Value::Object(fields) => ValueView::Object(map_view(fields@)),
            Value::Array(items) => ValueView::Array(arr_view(items@)),
        }
    }
}

pub broadcast proof fn map_view_len(fields: Seq<(String, Value)>)
    ensures
        #[trigger] map_view(fields).len() == fields.len(),
    decreases fields,
{
    if fields.len() > 0 {
        map_view_len(fields.drop_last());
        assert(map_view(fields) == map_view(fields.drop_last()).push(
            (fields.last().0@, fields.last().1.view()),
        ));
        assert(map_view(fields.drop_last()).len() == fields.drop_last().len());
        assert(fields.drop_last().len() == fields.len() - 1);
    }
}

pub broadcast proof fn map_view_index(fields: Seq<(String, Value)>, i: int)
    requires
        0 <= i < fields.len(),
    ensures
        #[trigger] map_view(fields)[i] == (fields[i].0@, fields[i].1.view()),
    decreases fields,
{
    map_view_len(fields);
    map_view_len(fields.drop_last());
    assert(map_view(fields) == map_view(fields.drop_last()).push(
        (fields.last().0@, fields.last().1.view()),
    ));
    if i < fields.len() - 1 {
        map_view_index(fields.drop_last(), i);
        assert(map_view(fields)[i] == map_view(fields.drop_last())[i]);
        assert(fields.drop_last()[i] == fields[i]);
    } else {
        assert(map_view(fields)[i] == (fields.last().0@, fields.last().1.view()));
        assert(fields.last() == fields[i]);
    }
}

pub broadcast proof fn arr_view_len(items: Seq<Value>)
    ensures
        #[trigger] arr_view(items).len() == items.len(),
    decreases items,
{
    if items.len() > 0 {
        arr_view_len(items.drop_last());
        assert(arr_view(items) == arr_view(items.drop_last()).push(items.last().view()));
        assert(arr_view(items.drop_last()).len() == items.drop_last().len());
        assert(items.drop_last().len() == items.len() - 1);
    }
}

pub broadcast proof fn arr_view_index(items: Seq<Value>, i: int)
    requires
        0 <= i < items.len(),
    ensures
        #[trigger] arr_view(items)[i] == items[i].view(),
    decreases items,
{
    arr_view_len(items);
    arr_view_len(items.drop_last());
    assert(arr_view(items) == arr_view(items.drop_last()).push(items.last().view()));
    if i < items.len() - 1 {
        arr_view_index(items.drop_last(), i);
        assert(arr_view(items)[i] == arr_view(items.drop_last())[i]);
        assert(items.drop_last()[i] == items[i]);
    } else {
        assert(arr_view(items)[i] == items.last().view());
        assert(items.last() == items[i]);
    }
}

/// Strict lexicographic order on strings, by code point.
pub open spec fn str_lt(a: Seq<char>, b: Seq<char>) -> bool
    decreases a.len(),
{
    if b.len() == 0 {
        false
    } else if a.len() == 0 {
        true
    } else if (a[0] as u32) < (b[0] as u32) {
        true
    } else if (a[0] as u32) > (b[0] as u32) {
        false
    } else {
        str_lt(a.skip(1), b.skip(1))
    }
}

/// Of two strings, exactly one of `str_lt(a, b)`, `a == b`, `str_lt(b, a)`
/// holds.
pub proof fn lemma_str_lt_trichotomy(a: Seq<char>, b: Seq<char>)
    ensures
        str_lt(a, b) || a == b || str_lt(b, a),
        str_lt(a, b) ==> a != b && !str_lt(b, a),
        a == b ==> !str_lt(a, b) && !str_lt(b, a),
    decreases a.len(),
{
    if a.len() == 0 && b.len() == 0 {
        assert(a =~= b);
    } else if a.len() > 0 && b.len() > 0 {
        vstd::utf8::char_is_scalar(a[0]);
        vstd::utf8::char_is_scalar(b[0]);
        if (a[0] as u32) == (b[0] as u32) {
            vstd::utf8::char_u32_cast(a[0], a[0] as u32);
            vstd::utf8::char_u32_cast(b[0], b[0] as u32);
            assert(a[0] == b[0]);
            lemma_str_lt_trichotomy(a.skip(1), b.skip(1));
            if a.skip(1) == b.skip(1) {
                assert forall|k: int| 0 <= k < a.len() implies a[k] == b[k] by {
                    if k > 0 {
                        assert(a.skip(1)[k - 1] == b.skip(1)[k - 1]);
                    }
                }
                assert(a =~= b);
            }
            if a == b {
                assert(a.skip(1) =~= b.skip(1));
            }
        } else {
            assert(a != b);
        }
    }
}

pub proof fn lemma_str_lt_transitive(a: Seq<char>, b: Seq<char>, c: Seq<char>)
    requires
        str_lt(a, b),
        str_lt(b, c),
    ensures
        str_lt(a, c),
    decreases a.len(),
{
    if a.len() > 0 && b.len() > 0 && c.len() > 0 {
        if (a[0] as u32) == (b[0] as u32) && (b[0] as u32) == (c[0] as u32) {
            lemma_str_lt_transitive(a.skip(1), b.skip(1), c.skip(1));
        }
    }
}

/// Order is decided after a common prefix is dropped.
pub proof fn lemma_str_lt_skip(a: Seq<char>, b: Seq<char>, i: int)
    requires
        0 <= i <= a.len(),
        i <= b.len(),
        a.subrange(0, i) == b.subrange(0, i),
    ensures
        str_lt(a, b) == str_lt(a.skip(i), b.skip(i)),
    decreases i,
{
    if i > 0 {
        assert(a.subrange(0, i)[0] == a[0]);
        assert(b.subrange(0, i)[0] == b[0]);
        assert(a[0] == b[0]);
        assert(a.skip(1).subrange(0, i - 1) =~= a.subrange(0, i).skip(1));
        assert(b.skip(1).subrange(0, i - 1) =~= b.subrange(0, i).skip(1));
        assert(a.skip(1).subrange(0, i - 1) == b.skip(1).subrange(0, i - 1));
        lemma_str_lt_skip(a.skip(1), b.skip(1), i - 1);
        assert(a.skip(1).skip(i - 1) =~= a.skip(i));
        assert(b.skip(1).skip(i - 1) =~= b.skip(i));
        assert(str_lt(a, b) == str_lt(a.skip(1), b.skip(1)));
    } else {
        assert(a.skip(0) =~= a);
        assert(b.skip(0) =~= b);
    }
}

/// Three-way string comparison in the order [`str_lt`] describes: negative
/// for less, zero for equal, positive for greater.
pub fn str_compare(a: &str, b: &str) -> (r: i8)
    ensures
        r == -1 ==> str_lt(a@, b@),
        r == 0 ==> a@ == b@,
        r == 1 ==> str_lt(b@, a@),
        r == -1 || r == 0 || r == 1,
{
    let an = a.unicode_len();
    let bn = b.unicode_len();
    let mut i: usize = 0;
    while i < an && i < bn
        invariant
            i <= an,
            i <= bn,
            an == a@.len(),
            bn == b@.len(),
            a@.subrange(0, i as int) == b@.subrange(0, i as int),
        decreases an - i,
    {
        let ca = a.get_char(i) as u32;
        let cb = b.get_char(i) as u32;
        if ca < cb {
            proof {
                lemma_str_lt_skip(a@, b@, i as int);
                assert(a@.skip(i as int)[0] == a@[i as int]);
                assert(b@.skip(i as int)[0] == b@[i as int]);
                assert(str_lt(a@.skip(i as int), b@.skip(i as int)));
            }
            return -1;
        }
        if ca > cb {
            proof {
                assert(b@.subrange(0, i as int) =~= a@.subrange(0, i as int));
                lemma_str_lt_skip(b@, a@, i as int);
                assert(a@.skip(i as int)[0] == a@[i as int]);
                assert(b@.skip(i as int)[0] == b@[i as int]);
                assert(str_lt(b@.skip(i as int), a@.skip(i as int)));
            }
            return 1;
        }
        proof {
            assert(a@[i as int] == b@[i as int]);
            assert(a@.subrange(0, (i + 1) as int) =~= b@.subrange(0, (i + 1) as int));
        }
        i = i + 1;
    }
    if i >= an && i >= bn {
        proof {
            assert forall|k: int| 0 <= k < a@.len() implies a@[k] == b@[k] by {
                assert(a@.subrange(0, i as int)[k] == b@.subrange(0, i as int)[k]);
            }
            assert(a@ =~= b@);
        }
        0
    } else if i >= an {
        proof {
            lemma_str_lt_skip(a@, b@, i as int);
            assert(a@.skip(i as int).len() == 0);
            assert(b@.skip(i as int).len() > 0);
            assert(str_lt(a@.skip(i as int), b@.skip(i as int)));
        }
        -1
    } else {
        proof {
            assert(b@.subrange(0, i as int) =~= a@.subrange(0, i as int));
            lemma_str_lt_skip(b@, a@, i as int);
            assert(b@.skip(i as int).len() == 0);
            assert(a@.skip(i as int).len() > 0);
            assert(str_lt(b@.skip(i as int), a@.skip(i as int)));
        }
        1
    }
}

/// Whether a map entry list is strictly sorted by key; such a list has
/// unique keys.
pub open spec fn entries_sorted(m: Seq<(Seq<char>, ValueView)>) -> bool {
    forall|i: int, j: int| 0 <= i < j < m.len() ==> str_lt(m[i].0, m[j].0)
}

/// Well-formedness of a value tree: every map node is strictly sorted by
/// key, recursively.
pub open spec fn vv_wf(v: ValueView) -> bool
    decreases v,
{
    match v {
        ValueView::Object(m) => entries_sorted(m) && (forall|i: int|
            0 <= i < m.len() ==> vv_wf(#[trigger] m[i].1)),
        ValueView::Array(items) => forall|i: int|
            0 <= i < items.len() ==> vv_wf(#[trigger] items[i]),
        _ => true,
    }
}

} // verus!

verus! {

fn clone_bytes(b: &Vec<u8>) -> (r: Vec<u8>)
    ensures
        r@ == b@,
{
    let mut out: Vec<u8> = Vec::new();
    let n = b.len();
    let mut i: usize = 0;
    while i < n
        invariant
            i <= n,
            n == b@.len(),
            out@ =~= b@.take(i as int),
        decreases n - i,
    {
        out.push(b[i]);
        proof {
            assert(out@ =~= b@.take((i + 1) as int));
        }
        i = i + 1;
    }
    proof {
        assert(out@ =~= b@);
    }
    out
}

impl Clone for Value {
    #[verifier::loop_isolation(false)]
    fn clone(&self) -> (r: Value)
        ensures
            r@ == self@,
        decreases self,
    {
        broadcast use map_view_len, map_view_index, arr_view_len, arr_view_index;

        match self {
            Value::Bytes(b) => Value::Bytes(clone_bytes(b)),
            Value::Integer(n) => Value::Integer(*n),
            Value::Float(bits) => Value::Float(*bits),
            Value::Boolean(b) => Value::Boolean(*b),
            Value::Timestamp(t) => Value::Timestamp(*t),
            Value::Null => Value::Null,
            Value::Object(fields) => {
                let mut out: Vec<(String, Value)> = Vec::new();
                let n = fields.len();
                let mut i: usize = 0;
                while i < n
                    invariant
                        i <= n,
                        n == fields@.len(),
                        out@.len() == i,
                        map_view(out@) =~= map_view(fields@).take(i as int),
                    decreases n - i,
                {
                    let ghost pre = out@;
                    proof {
                        assert(decreases_to!(self => fields));
                        assert(decreases_to!(fields => fields@));
                        assert(decreases_to!(fields@ => fields@[i as int]));
                        assert(decreases_to!(fields@[i as int] => fields@[i as int].1));
                    }
                    let key = fields[i].0.clone();
                    let child = fields[i].1.clone();
                    out.push((key, child));
                    proof {
                        assert(out@.drop_last() =~= pre);
                        assert(map_view(out@) =~= map_view(pre).push(
                            (out@.last().0@, out@.last().1.view()),
                        ));
                        assert(out@.last().0@ == fields@[i as int].0@);
                        assert(out@.last().1@ == fields@[i as int].1@);
                        assert(map_view(out@) =~= map_view(fields@).take((i + 1) as int));
                    }
                    i = i + 1;
                }
                proof {
                    assert(map_view(out@) =~= map_view(fields@));
                }
                Value::Object(out)
            },
            Value::Array(items) => {
                let mut out: Vec<Value> = Vec::new();
                let n = items.len();
                let mut i: usize = 0;
                while i < n
                    invariant
                        i <= n,
                        n == items@.len(),
                        out@.len() == i,
                        arr_view(out@) =~= arr_view(items@).take(i as int),
                    decreases n - i,
                {
                    let ghost pre = out@;
                    proof {
                        assert(decreases_to!(self => items));
                        assert(decreases_to!(items => items@));
                        assert(decreases_to!(items@ => items@[i as int]));
                    }
                    let child = items[i].clone();
                    out.push(child);
                    proof {
                        assert(out@.drop_last() =~= pre);
                        assert(arr_view(out@) =~= arr_view(pre).push(out@.last().view()));
                        assert(arr_view(out@) =~= arr_view(items@).take((i + 1) as int));
                    }
                    i = i + 1;
                }
                proof {
                    assert(arr_view(out@) =~= arr_view(items@));
                }
                Value::Array(out)
            },
        }
    }
}

fn bytes_eq(a: &Vec<u8>, b: &Vec<u8>) -> (r: bool)
    ensures
        r == (a@ == b@),
{
    let n = a.len();
    if n != b.len() {
        return false;
    }
    let mut i: usize = 0;
    while i < n
        invariant
            i <= n,
            n == a@.len() == b@.len(),
            forall|k: int| 0 <= k < i ==> a@[k] == b@[k],
        decreases n - i,
    {
        if a[i] != b[i] {
            return false;
        }
        i = i + 1;
    }
    proof {
        assert(a@ =~= b@);
    }
    true
}

/// Structural equality of two value trees. Floats are equal exactly when
/// their bit patterns are.
#[verifier::loop_isolation(false)]
pub fn value_eq(a: &Value, b: &Value) -> (r: bool)
    ensures
        r == (a@ == b@),
    decreases a,
{
    broadcast use map_view_len, map_view_index, arr_view_len, arr_view_index;

    match (a, b) {
        (Value::Bytes(x), Value::Bytes(y)) => bytes_eq(x, y),
        (Value::Integer(x), Value::Integer(y)) => *x == *y,
        (Value::Float(x), Value::Float(y)) => *x == *y,
        (Value::Boolean(x), Value::Boolean(y)) => *x == *y,
        (Value::Timestamp(x), Value::Timestamp(y)) => *x == *y,
        (Value::Null, Value::Null) => true,
        (Value::Object(xs), Value::Object(ys)) => {
            let n = xs.len();
            if n != ys.len() {
                proof {
                    assert(map_view(xs@).len() != map_view(ys@).len());
                }
                return false;
            }
            let mut i: usize = 0;
            while i < n
                invariant
                    i <= n,
                    n == xs@.len() == ys@.len(),
                    forall|k: int| 0 <= k < i ==> map_view(xs@)[k] == map_view(ys@)[k],
                decreases n - i,
            {
                proof {
                    assert(decreases_to!(a => xs));
                    assert(decreases_to!(xs => xs@));
                    assert(decreases_to!(xs@ => xs@[i as int]));
                    assert(decreases_to!(xs@[i as int] => xs@[i as int].1));
                }
                let keys_same = str_compare(xs[i].0.as_str(), ys[i].0.as_str()) == 0;
                if !keys_same {
                    proof {
                        lemma_str_lt_trichotomy(xs@[i as int].0@, ys@[i as int].0@);
                        assert(map_view(xs@)[i as int].0 != map_view(ys@)[i as int].0);
                    }
                    return false;
                }
                if !value_eq(&xs[i].1, &ys[i].1) {
                    proof {
                        assert(map_view(xs@)[i as int].1 != map_view(ys@)[i as int].1);
                    }
                    return false;
                }
                i = i + 1;
            }
            proof {
                assert(map_view(xs@) =~= map_view(ys@));
            }
            true
        },
        (Value::Array(xs), Value::Array(ys)) => {
            let n = xs.len();
            if n != ys.len() {
                proof {
                    assert(arr_view(xs@).len() != arr_view(ys@).len());
                }
                return false;
            }
            let mut i: usize = 0;
            while i < n
                invariant
                    i <= n,
                    n == xs@.len() == ys@.len(),
                    forall|k: int| 0 <= k < i ==> arr_view(xs@)[k] == arr_view(ys@)[k],
                decreases n - i,
            {
                proof {
                    assert(decreases_to!(a => xs));
                    assert(decreases_to!(xs => xs@));
                    assert(decreases_to!(xs@ => xs@[i as int]));
                }
                if !value_eq(&xs[i], &ys[i]) {
                    proof {
                        assert(arr_view(xs@)[i as int] != arr_view(ys@)[i as int]);
                    }
                    return false;
                }
                i = i + 1;
            }
            proof {
                assert(arr_view(xs@) =~= arr_view(ys@));
            }
            true
        },
        _ => {
            proof {
                assert(a@ != b@);
            }
            false
        },
    }
}

} // verus!
