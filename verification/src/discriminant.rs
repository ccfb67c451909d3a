//! The grouping key of an event: for each configured group-by path, the
//! value found there, or a distinct absent marker when the event has none.
//! Two events share a bucket exactly when their discriminants are
//! structurally equal — also when the same paths are absent in both, so
//! events uniformly missing a grouping field are bucketed together on
//! purpose. Floats compare bitwise.

use vstd::prelude::*;

use crate::event::LogEvent;
use crate::lookup::{Lookup, SegView};
use crate::tree::tree_get;
use crate::value::{value_eq, Value, ValueView};

verus! {

/// An ordered, fixed-length tuple of optional values, one slot per
/// configured group-by path.
#[derive(Debug)]
pub struct Discriminant {
    parts: Vec<Option<Value>>,
}

/// The views of the slots, in order.
pub open spec fn parts_view(parts: Seq<Option<Value>>) -> Seq<Option<ValueView>>
    decreases parts,
{
    if parts.len() == 0 {
        Seq::empty()
    } else {
        parts_view(parts.drop_last()).push(
            match parts.last() {
                Some(v) => Some(v.view()),
                None => None,
            },
        )
    }
}

pub broadcast proof fn parts_view_len(parts: Seq<Option<Value>>)
    ensures
        #[trigger] parts_view(parts).len() == parts.len(),
    decreases parts,
{
    if parts.len() > 0 {
        parts_view_len(parts.drop_last());
        assert(parts_view(parts) == parts_view(parts.drop_last()).push(
            match parts.last() {
                Some(v) => Some(v.view()),
                None => None,
            },
        ));
    }
}

pub broadcast proof fn parts_view_index(parts: Seq<Option<Value>>, i: int)
    requires
        0 <= i < parts.len(),
    ensures
        #[trigger] parts_view(parts)[i] == (match parts[i] {
            Some(v) => Some(v.view()),
            None => None,
        }),
    decreases parts,
{
    parts_view_len(parts);
    parts_view_len(parts.drop_last());
    assert(parts_view(parts) == parts_view(parts.drop_last()).push(
        match parts.last() {
            Some(v) => Some(v.view()),
            None => None,
        },
    ));
    if i < parts.len() - 1 {
        parts_view_index(parts.drop_last(), i);
        assert(parts.drop_last()[i] == parts[i]);
    } else {
        assert(parts.last() == parts[i]);
    }
}

impl View for Discriminant {
    type V = Seq<Option<ValueView>>;

    closed spec fn view(&self) -> Seq<Option<ValueView>> {
        parts_view(self.parts@)
    }
}

/// The paths of a group-by list, in order.
pub open spec fn paths_of(paths: Seq<Lookup>) -> Seq<Seq<SegView>> {
    Seq::new(paths.len(), |i: int| paths[i]@)
}

/// The discriminant an event yields under a group-by list: the value under
/// each path, or the absent marker.
pub open spec fn discriminant_of(
    entries: Seq<(Seq<char>, ValueView)>,
    paths: Seq<Seq<SegView>>,
) -> Seq<Option<ValueView>> {
    Seq::new(paths.len(), |i: int| tree_get(ValueView::Object(entries), paths[i], 0))
}

impl Discriminant {
    /// Computes the grouping key of an event under the configured
    /// group-by paths, in their order.
    #[verifier::loop_isolation(false)]
    pub fn from_log_event(event: &LogEvent, group_by: &Vec<Lookup>) -> (r: Discriminant)
        requires
            event.wf(),
        ensures
            r@ == discriminant_of(event@, paths_of(group_by@)),
    {
        broadcast use parts_view_len, parts_view_index;

        let ghost target = discriminant_of(event@, paths_of(group_by@));
        let mut parts: Vec<Option<Value>> = Vec::new();
        let n = group_by.len();
        let mut i: usize = 0;
        while i < n
            invariant
                i <= n,
                n == group_by@.len(),
                event.wf(),
                target == discriminant_of(event@, paths_of(group_by@)),
                parts@.len() == i,
                parts_view(parts@) =~= target.take(i as int),
            decreases n - i,
        {
            let ghost pre = parts@;
            let got = event.get(&group_by[i]);
            proof {
                assert(paths_of(group_by@)[i as int] == group_by@[i as int]@);
                assert(target[i as int] == tree_get(
                    ValueView::Object(event@),
                    group_by@[i as int]@,
                    0,
                ));
            }
            parts.push(got);
            proof {
                assert(parts@.drop_last() =~= pre);
                assert(parts_view(parts@) =~= target.take((i + 1) as int));
            }
            i = i + 1;
        }
        proof {
            assert(parts_view(parts@) =~= target);
        }
        Discriminant { parts }
    }

    /// A discriminant with the same slots.
    #[verifier::loop_isolation(false)]
    pub fn clone_parts(&self) -> (r: Discriminant)
        ensures
            r@ == self@,
    {
        broadcast use parts_view_len, parts_view_index;

        let mut parts: Vec<Option<Value>> = Vec::new();
        let n = self.parts.len();
        let mut i: usize = 0;
        while i < n
            invariant
                i <= n,
                n == self.parts@.len(),
                parts@.len() == i,
                parts_view(parts@) =~= parts_view(self.parts@).take(i as int),
            decreases n - i,
        {
            let ghost pre = parts_view(parts@);
            let slot = match &self.parts[i] {
                Some(v) => Some(v.clone()),
                None => None,
            };
            parts.push(slot);
            proof {
                assert(parts@.drop_last() =~= parts@.take(i as int));
                assert(parts_view(parts@) =~= pre.push(
                    match parts@.last() {
                        Some(v) => Some(v.view()),
                        None => None,
                    },
                ));
                assert(parts_view(parts@) =~= parts_view(self.parts@).take((i + 1) as int));
            }
            i = i + 1;
        }
        proof {
            assert(parts_view(parts@) =~= parts_view(self.parts@));
        }
        Discriminant { parts }
    }

    /// Structural equality over the full ordered tuple, absent markers
    /// included.
    #[verifier::loop_isolation(false)]
    pub fn same_as(&self, other: &Discriminant) -> (r: bool)
        ensures
            r == (self@ == other@),
    {
        broadcast use parts_view_len, parts_view_index;

        let n = self.parts.len();
        if n != other.parts.len() {
            proof {
                assert(self@.len() != other@.len());
            }
            return false;
        }
        let mut i: usize = 0;
        while i < n
            invariant
                i <= n,
                n == self.parts@.len() == other.parts@.len(),
                forall|k: int| 0 <= k < i ==> self@[k] == other@[k],
            decreases n - i,
        {
            let same = match (&self.parts[i], &other.parts[i]) {
                (Some(a), Some(b)) => value_eq(a, b),
                (None, None) => true,
                _ => false,
            };
            if !same {
                proof {
                    assert(self@[i as int] != other@[i as int]);
                }
                return false;
            }
            i = i + 1;
        }
        proof {
            assert(self@ =~= other@);
        }
        true
    }
}

} // verus!

verus! {

/// Events missing every group-by field entirely share one discriminant —
/// the all-absent tuple — and that discriminant differs from the one of
/// any event holding a value under some group-by path.
pub proof fn lemma_absent_discriminant_shared(
    e1: Seq<(Seq<char>, ValueView)>,
    e2: Seq<(Seq<char>, ValueView)>,
    e3: Seq<(Seq<char>, ValueView)>,
    paths: Seq<Seq<SegView>>,
)
    requires
        forall|i: int|
            0 <= i < paths.len() ==> tree_get(ValueView::Object(e1), #[trigger] paths[i], 0)
                is None,
        forall|i: int|
            0 <= i < paths.len() ==> tree_get(ValueView::Object(e2), #[trigger] paths[i], 0)
                is None,
        exists|i: int|
            0 <= i < paths.len() && tree_get(ValueView::Object(e3), #[trigger] paths[i], 0)
                is Some,
    ensures
        discriminant_of(e1, paths) == discriminant_of(e2, paths),
        discriminant_of(e1, paths) != discriminant_of(e3, paths),
{
    assert(discriminant_of(e1, paths) =~= discriminant_of(e2, paths));
    let i = choose|i: int|
        0 <= i < paths.len() && tree_get(ValueView::Object(e3), #[trigger] paths[i], 0) is Some;
    assert(discriminant_of(e1, paths)[i] is None);
    assert(discriminant_of(e3, paths)[i] is Some);
}

} // verus!
