//! The per-field merge algebra: each field of a bucket owns one merger, a
//! closed set of tagged variants with a uniform combine/finalize contract.
//! A mismatched contribution never aborts anything: it is reported as an
//! error and that one contribution is dropped.
//!
//! Numeric order on floating-point bit patterns is the sign-aware order on
//! the patterns themselves: it agrees with numeric order on ordinary
//! numbers, places negative zero below positive zero, and orders the
//! payloads of any two values of the same sign by their bits.

use vstd::prelude::*;

use crate::value::{arr_view, map_view, vv_wf, Value, ValueView};

verus! {

/// A named per-field merge behavior from the configuration surface.
#[derive(Debug, Clone, Copy, PartialEq, Eq, Structural)]
pub enum MergeStrategy {
    /// Keep the first value; drop every later contribution silently.
    Discard,
    /// Sum integer contributions, wrapping on overflow.
    Sum,
    /// Keep the largest numeric contribution.
    Max,
    /// Join strings with one space; concatenate sequences end to end.
    Concat,
    /// Append each contribution, whatever it is, as one element.
    Array,
}

/// Why a contribution was not merged.
#[derive(Debug, Clone, Copy, PartialEq, Eq, Structural)]
pub enum MergeError {
    /// The contribution's type does not fit the field's strategy.
    TypeMismatch,
}

/// A per-field accumulator: one strategy instance owning one field's
/// accumulated value.
#[derive(Debug)]
pub enum Merger {
    /// The first value, kept; later contributions are dropped silently.
    Discard(Value),
    /// A running integer sum, wrapping on overflow.
    Sum(i64),
    /// The largest numeric value seen: an integer or a float pattern.
    Max(Value),
    /// Byte strings joined by a single space, in arrival order.
    Concat(Vec<u8>),
    /// Sequences concatenated end to end; a scalar contribution is
    /// appended as one element.
    ConcatArray(Vec<Value>),
    /// Every contribution as one element, in arrival order.
    Array(Vec<Value>),
}

/// The mathematical model of a [`Merger`].
pub enum MergerView {
    Discard(ValueView),
    Sum(i64),
    Max(ValueView),
    Concat(Seq<u8>),
    ConcatArray(Seq<ValueView>),
    Array(Seq<ValueView>),
}

impl View for Merger {
    type V = MergerView;

    open spec fn view(&self) -> MergerView {
        match self {
            Merger::Discard(v) => MergerView::Discard(v@),
            Merger::Sum(n) => MergerView::Sum(*n),
            Merger::Max(v) => MergerView::Max(v@),
            Merger::Concat(b) => MergerView::Concat(b@),
            Merger::ConcatArray(items) => MergerView::ConcatArray(arr_view(items@)),
            Merger::Array(items) => MergerView::Array(arr_view(items@)),
        }
    }
}

/// Well-formedness of a merger: the values it holds are well-formed trees.
pub open spec fn merger_wf(m: MergerView) -> bool {
    match m {
        MergerView::Discard(v) => vv_wf(v),
        MergerView::Sum(_) => true,
        MergerView::Max(v) => vv_wf(v),
        MergerView::Concat(_) => true,
        MergerView::ConcatArray(items) => forall|i: int|
            0 <= i < items.len() ==> vv_wf(#[trigger] items[i]),
        MergerView::Array(items) => forall|i: int|
            0 <= i < items.len() ==> vv_wf(#[trigger] items[i]),
    }
}

/// Whether a value is numeric: an integer or a float pattern.
pub open spec fn is_numeric(v: ValueView) -> bool {
    v is Integer || v is Float
}

/// Sign-aware order on float bit patterns: negative sign class below
/// positive, then by payload, reversed on the negative side.
pub open spec fn float_bits_lt(a: u64, b: u64) -> bool {
    if (a >> 63) != (b >> 63) {
        (a >> 63) == 1
    } else if (a >> 63) == 0 {
        a < b
    } else {
        a > b
    }
}

/// The merger a first value opens under an explicit strategy, where the
/// value fits it.
pub open spec fn merger_new(v: ValueView, s: MergeStrategy) -> Option<MergerView> {
    match s {
        MergeStrategy::Discard => Some(MergerView::Discard(v)),
        MergeStrategy::Sum => match v {
            ValueView::Integer(n) => Some(MergerView::Sum(n as i64)),
            _ => None,
        },
        MergeStrategy::Max => if is_numeric(v) {
            Some(MergerView::Max(v))
        } else {
            None
        },
        MergeStrategy::Concat => match v {
            ValueView::Bytes(b) => Some(MergerView::Concat(b)),
            ValueView::Array(items) => Some(MergerView::ConcatArray(items)),
            _ => None,
        },
        MergeStrategy::Array => Some(MergerView::Array(seq![v])),
    }
}

/// The merger a first value opens with no configured strategy: integers
/// accumulate by summation, everything else keeps the first value.
pub open spec fn default_merger(v: ValueView) -> MergerView {
    match v {
        ValueView::Integer(n) => MergerView::Sum(n as i64),
        _ => MergerView::Discard(v),
    }
}

/// One combine step: the merger after a contribution, and whether the
/// contribution fit. A mismatched contribution leaves the merger as it
/// was.
pub open spec fn merger_add(m: MergerView, v: ValueView) -> (MergerView, bool) {
    match m {
        MergerView::Discard(cur) => (MergerView::Discard(cur), true),
        MergerView::Sum(acc) => match v {
            ValueView::Integer(n) => (MergerView::Sum(i64::wrapping_add(acc, n as i64)), true),
            _ => (m, false),
        },
        MergerView::Max(cur) => match (cur, v) {
            (ValueView::Integer(a), ValueView::Integer(b)) => if b > a {
                (MergerView::Max(ValueView::Integer(b)), true)
            } else {
                (m, true)
            },
            (ValueView::Float(a), ValueView::Float(b)) => if float_bits_lt(a, b) {
                (MergerView::Max(ValueView::Float(b)), true)
            } else {
                (m, true)
            },
            _ => (m, false),
        },
        MergerView::Concat(buf) => match v {
            ValueView::Bytes(b) => (MergerView::Concat(buf + seq![32u8] + b), true),
            _ => (m, false),
        },
        MergerView::ConcatArray(items) => match v {
            ValueView::Array(more) => (MergerView::ConcatArray(items + more), true),
            other => (MergerView::ConcatArray(items.push(other)), true),
        },
        MergerView::Array(items) => (MergerView::Array(items.push(v)), true),
    }
}

/// The value a merger closes into.
pub open spec fn merger_finalize(m: MergerView) -> ValueView {
    match m {
        MergerView::Discard(v) => v,
        MergerView::Sum(n) => ValueView::Integer(n as int),
        MergerView::Max(v) => v,
        MergerView::Concat(b) => ValueView::Bytes(b),
        MergerView::ConcatArray(items) => ValueView::Array(items),
        MergerView::Array(items) => ValueView::Array(items),
    }
}

/// The merger a first value opens under an explicit strategy; a value
/// that does not fit the strategy is a mismatch and opens nothing.
pub fn get_value_merger(v: Value, strategy: MergeStrategy) -> (r: Result<Merger, MergeError>)
    requires
        vv_wf(v@),
    ensures
        match merger_new(v@, strategy) {
            Some(m) => r matches Ok(g) && g@ == m && merger_wf(g@),
            None => r == Err::<Merger, MergeError>(MergeError::TypeMismatch),
        },
{
    broadcast use crate::value::arr_view_len, crate::value::arr_view_index;

    match strategy {
        MergeStrategy::Discard => Ok(Merger::Discard(v)),
        MergeStrategy::Sum => match v {
            Value::Integer(n) => Ok(Merger::Sum(n)),
            _ => Err(MergeError::TypeMismatch),
        },
        MergeStrategy::Max => match v {
            Value::Integer(_) => Ok(Merger::Max(v)),
            Value::Float(_) => Ok(Merger::Max(v)),
            _ => Err(MergeError::TypeMismatch),
        },
        MergeStrategy::Concat => match v {
            Value::Bytes(b) => Ok(Merger::Concat(b)),
            Value::Array(items) => Ok(Merger::ConcatArray(items)),
            _ => Err(MergeError::TypeMismatch),
        },
        MergeStrategy::Array => {
            let mut items: Vec<Value> = Vec::new();
            items.push(v);
            proof {
                assert(arr_view(items@) =~= seq![v@]);
            }
            Ok(Merger::Array(items))
        },
    }
}

impl Merger {
    /// The merger a first value opens with no configured strategy.
    pub fn from_value(v: Value) -> (r: Merger)
        requires
            vv_wf(v@),
        ensures
            r@ == default_merger(v@),
            merger_wf(r@),
    {
        match v {
            Value::Integer(n) => Merger::Sum(n),
            other => Merger::Discard(other),
        }
    }

    /// Combines one contribution into the merger. A contribution whose
    /// type does not fit is reported and dropped; the accumulated value
    /// stays as it was.
    pub fn add(&mut self, v: Value) -> (r: Result<(), MergeError>)
        requires
            merger_wf(old(self)@),
            vv_wf(v@),
        ensures
            final(self)@ == merger_add(old(self)@, v@).0,
            merger_wf(final(self)@),
            r matches Ok(()) <==> merger_add(old(self)@, v@).1,
            r matches Err(e) ==> e == MergeError::TypeMismatch,
    {
        broadcast use crate::value::arr_view_len, crate::value::arr_view_index;

        match self {
            Merger::Discard(_) => Ok(()),
            Merger::Sum(acc) => match v {
                Value::Integer(n) => {
                    *acc = i64::wrapping_add(*acc, n);
                    Ok(())
                },
                _ => Err(MergeError::TypeMismatch),
            },
            Merger::Max(cur) => {
                let replace = match (&*cur, &v) {
                    (Value::Integer(a), Value::Integer(b)) => *b > *a,
                    (Value::Float(a), Value::Float(b)) => {
                        let (sa, sb) = (*a >> 63u64, *b >> 63u64);
                        if sa != sb {
                            sa == 1
                        } else if sa == 0 {
                            *a < *b
                        } else {
                            *a > *b
                        }
                    },
                    _ => {
                        return Err(MergeError::TypeMismatch);
                    },
                };
                if replace {
                    *cur = v;
                }
                Ok(())
            },
            Merger::Concat(buf) => match v {
                Value::Bytes(b) => {
                    let ghost pre = buf@;
                    buf.push(32u8);
                    append_bytes(buf, &b);
                    proof {
                        assert(buf@ =~= pre + seq![32u8] + b@);
                    }
                    Ok(())
                },
                _ => Err(MergeError::TypeMismatch),
            },
            Merger::ConcatArray(items) => match v {
                Value::Array(more) => {
                    let ghost pre = arr_view(items@);
                    append_values(items, more);
                    proof {
                        assert(merger_wf(final(self)@)) by {
                            assert(forall|i: int|
                                0 <= i < arr_view(items@).len() ==> vv_wf(
                                    #[trigger] arr_view(items@)[i],
                                ));
                        }
                    }
                    Ok(())
                },
                other => {
                    let ghost pre = arr_view(items@);
                    items.push(other);
                    proof {
                        assert(arr_view(items@) =~= pre.push(other@));
                        assert(merger_wf(final(self)@)) by {
                            assert(forall|i: int|
                                0 <= i < arr_view(items@).len() ==> vv_wf(
                                    #[trigger] arr_view(items@)[i],
                                ));
                        }
                    }
                    Ok(())
                },
            },
            Merger::Array(items) => {
                let ghost pre = arr_view(items@);
                items.push(v);
                proof {
                    assert(arr_view(items@) =~= pre.push(v@));
                    assert(merger_wf(final(self)@)) by {
                        assert(forall|i: int|
                            0 <= i < arr_view(items@).len() ==> vv_wf(
                                #[trigger] arr_view(items@)[i],
                            ));
                    }
                }
                Ok(())
            },
        }
    }

    /// Closes the merger into the merged value.
    pub fn finalize(self) -> (r: Value)
        requires
            merger_wf(self@),
        ensures
            r@ == merger_finalize(self@),
            vv_wf(r@),
    {
        broadcast use crate::value::arr_view_len, crate::value::arr_view_index;

        match self {
            Merger::Discard(v) => v,
            Merger::Sum(n) => Value::Integer(n),
            Merger::Max(v) => v,
            Merger::Concat(b) => Value::Bytes(b),
            Merger::ConcatArray(items) => Value::Array(items),
            Merger::Array(items) => Value::Array(items),
        }
    }
}

#[verifier::loop_isolation(false)]
fn append_bytes(buf: &mut Vec<u8>, more: &Vec<u8>)
    ensures
        final(buf)@ == old(buf)@ + more@,
{
    let n = more.len();
    let mut i: usize = 0;
    while i < n
        invariant
            i <= n,
            n == more@.len(),
            buf@ =~= old(buf)@ + more@.take(i as int),
        decreases n - i,
    {
        buf.push(more[i]);
        proof {
            assert(buf@ =~= old(buf)@ + more@.take((i + 1) as int));
        }
        i = i + 1;
    }
    proof {
        assert(final(buf)@ =~= old(buf)@ + more@);
    }
}

#[verifier::loop_isolation(false)]
fn append_values(items: &mut Vec<Value>, more: Vec<Value>)
    ensures
        arr_view(final(items)@) == arr_view(old(items)@) + arr_view(more@),
{
    broadcast use crate::value::arr_view_len, crate::value::arr_view_index;

    let mut src = more;
    let n = src.len();
    let ghost morev = arr_view(src@);
    let mut i: usize = 0;
    while i < n
        invariant
            i <= n,
            n == src@.len(),
            morev == arr_view(src@),
            arr_view(items@) =~= arr_view(old(items)@) + morev.take(i as int),
        decreases n - i,
    {
        let ghost pre = arr_view(items@);
        let v = src[i].clone();
        proof {
            assert(v@ == morev[i as int]);
        }
        items.push(v);
        proof {
            assert(arr_view(items@) =~= pre.push(morev[i as int]));
            assert(arr_view(items@) =~= arr_view(old(items)@) + morev.take((i + 1) as int));
        }
        i = i + 1;
    }
    proof {
        assert(arr_view(final(items)@) =~= arr_view(old(items)@) + morev);
    }
}

} // verus!
