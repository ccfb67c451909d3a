//! Events: the log shape — a value tree rooted at an ordered map — and
//! the metric shape, under one envelope.

use vstd::prelude::*;

use crate::lookup::Lookup;
use crate::metric::Metric;
use crate::tree::{tree_get, tree_set, tree_unset};
use crate::value::{entries_sorted, map_view, vv_wf, Value, ValueView};

verus! {

/// Why an operation on an event was refused.
#[derive(Debug, Clone, Copy, PartialEq, Eq, Structural)]
pub enum EventError {
    /// A path step required a node kind the tree does not hold there, or
    /// a sequence index past the end.
    TypeMismatch,
}

/// The log shape of an event: a value tree rooted at an ordered map,
/// addressed by [`Lookup`] paths.
#[derive(Debug)]
pub struct LogEvent {
    root: Value,
}

impl View for LogEvent {
    type V = Seq<(Seq<char>, ValueView)>;

    closed spec fn view(&self) -> Seq<(Seq<char>, ValueView)> {
        match self.root@ {
            ValueView::Object(m) => m,
            _ => Seq::empty(),
        }
    }
}

impl LogEvent {
    /// Well-formedness: the root is a map and every map in the tree is
    /// strictly sorted by key.
    pub closed spec fn wf(&self) -> bool {
        self.root@ is Object && vv_wf(self.root@)
    }

    /// The whole tree as a value.
    pub closed spec fn root_view(&self) -> ValueView {
        self.root@
    }

    pub proof fn lemma_root_entries(&self)
        requires
            self.wf(),
        ensures
            self.root_view() == ValueView::Object(self@),
            vv_wf(self.root_view()),
            entries_sorted(self@),
    {
    }

    /// An event with no fields.
    pub fn new() -> (r: LogEvent)
        ensures
            r@ == Seq::<(Seq<char>, ValueView)>::empty(),
            r.wf(),
    {
        LogEvent { root: Value::Object(Vec::new()) }
    }

    /// Whether the event has no fields at all.
    pub fn is_empty(&self) -> (r: bool)
        requires
            self.wf(),
        ensures
            r == (self@.len() == 0),
    {
        proof {
            crate::value::map_view_len(
                match &self.root {
                    Value::Object(es) => es@,
                    _ => Seq::empty(),
                },
            );
        }
        match &self.root {
            Value::Object(entries) => entries.len() == 0,
            _ => true,
        }
    }

    /// The top-level entries, cloned, in key order.
    pub fn entries(&self) -> (r: Vec<(String, Value)>)
        requires
            self.wf(),
        ensures
            map_view(r@) == self@,
    {
        match &self.root {
            Value::Object(entries) => clone_entry_vec(entries),
            _ => Vec::new(),
        }
    }

    /// Sets the value at `path`, creating missing intermediate nodes; a
    /// node of the wrong kind in the way is a [`EventError::TypeMismatch`]
    /// and leaves the event unchanged.
    pub fn insert(&mut self, path: &Lookup, value: Value) -> (r: Result<(), EventError>)
        requires
            old(self).wf(),
            path@.len() >= 1,
            vv_wf(value@),
        ensures
            final(self).wf(),
            r matches Ok(()) ==> tree_set(
                ValueView::Object(old(self)@),
                path@,
                0,
                value@,
            ) == Some(ValueView::Object(final(self)@)),
            r matches Err(e) ==> e == EventError::TypeMismatch && tree_set(
                ValueView::Object(old(self)@),
                path@,
                0,
                value@,
            ) is None && final(self)@ == old(self)@,
    {
        let mut root = Value::Object(Vec::new());
        core::mem::swap(&mut self.root, &mut root);
        let ghost rv = root@;
        match crate::tree::tree_set_value(root, path, 0, value) {
            Ok(nv) => {
                proof {
                    assert(path@[0] is Field || path@[0] is Index);
                    assert(tree_set(rv, path@, 0, value@) == Some(nv@));
                    assert(nv@ is Object);
                }
                self.root = nv;
                Ok(())
            },
            Err(orig) => {
                self.root = orig;
                Err(EventError::TypeMismatch)
            },
        }
    }

    /// The value at `path`, cloned, if the tree holds one.
    pub fn get(&self, path: &Lookup) -> (r: Option<Value>)
        ensures
            self.wf() ==> match tree_get(ValueView::Object(self@), path@, 0) {
                Some(x) => r matches Some(c) && c@ == x,
                None => r is None,
            },
    {
        crate::tree::tree_get_cloned(&self.root, path, 0)
    }

    /// Takes the value at `path` out of the event and returns it; nothing
    /// changes when the path is not there. With `prune`, a map or
    /// sequence left empty by the removal is removed as well.
    pub fn remove(&mut self, path: &Lookup, prune: bool) -> (r: Option<Value>)
        requires
            old(self).wf(),
            path@.len() >= 1,
        ensures
            final(self).wf(),
            ValueView::Object(final(self)@) == tree_unset(
                ValueView::Object(old(self)@),
                path@,
                0,
                prune,
            ).0,
            match tree_unset(ValueView::Object(old(self)@), path@, 0, prune).1 {
                Some(x) => r matches Some(c) && c@ == x && vv_wf(c@),
                None => r is None,
            },
    {
        let mut root = Value::Object(Vec::new());
        core::mem::swap(&mut self.root, &mut root);
        let ghost rv = root@;
        let (nv, removed) = crate::tree::tree_unset_value(root, path, 0, prune);
        proof {
            assert(nv@ == tree_unset(rv, path@, 0, prune).0);
            assert(nv@ is Object) by {
                assert(path@[0] is Field || path@[0] is Index);
            }
        }
        self.root = nv;
        removed
    }
}

impl Clone for LogEvent {
    fn clone(&self) -> (r: LogEvent)
        ensures
            r@ == self@,
            r.wf() == self.wf(),
    {
        LogEvent { root: self.root.clone() }
    }
}

/// A fresh entry list with the same keys and values.
#[verifier::loop_isolation(false)]
pub fn clone_entry_vec(entries: &Vec<(String, Value)>) -> (r: Vec<(String, Value)>)
    ensures
        map_view(r@) == map_view(entries@),
        r@.len() == entries@.len(),
{
    broadcast use crate::value::map_view_len, crate::value::map_view_index;

    let mut out: Vec<(String, Value)> = Vec::new();
    let n = entries.len();
    let mut i: usize = 0;
    while i < n
        invariant
            i <= n,
            n == entries@.len(),
            out@.len() == i,
            map_view(out@) =~= map_view(entries@).take(i as int),
        decreases n - i,
    {
        let ghost pre = out@;
        let key = entries[i].0.clone();
        let val = entries[i].1.clone();
        out.push((key, val));
        proof {
            assert(out@.drop_last() =~= pre);
            assert(map_view(out@) =~= map_view(pre).push(
                (out@.last().0@, out@.last().1.view()),
            ));
            assert(map_view(out@) =~= map_view(entries@).take((i + 1) as int));
        }
        i = i + 1;
    }
    proof {
        assert(map_view(out@) =~= map_view(entries@));
    }
    out
}

/// The envelope: an event is a log or a metric.
#[derive(Debug)]
pub enum Event {
    Log(LogEvent),
    Metric(Metric),
}

impl Event {
    /// Whether this event is the log shape.
    pub fn is_log(&self) -> (r: bool)
        ensures
            r == (self matches Event::Log(_)),
    {
        match self {
            Event::Log(_) => true,
            Event::Metric(_) => false,
        }
    }

    /// The log inside; a metric is a precondition violation.
    pub fn into_log(self) -> (r: LogEvent)
        requires
            self matches Event::Log(_),
        ensures
            self matches Event::Log(l) && r == l,
    {
        match self {
            Event::Log(l) => l,
            Event::Metric(_) => {
                proof {
                    assert(false);
                }
                LogEvent::new()
            },
        }
    }
}

} // verus!
