//! The reduction state machine: groups a stream of log events into
//! per-discriminant buckets, merges each event into its bucket field by
//! field, and flushes buckets on boundary conditions, staleness timeouts,
//! or upstream completion.
//!
//! Buckets are held in insertion order and flushed in deterministic
//! order. Times are plain milliseconds handed in by the caller, so the
//! machine itself is a pure function of its inputs.

use vstd::prelude::*;

use crate::condition::Condition;
use crate::discriminant::{discriminant_of, paths_of, Discriminant};
use crate::event::{Event, LogEvent};
use crate::lookup::{Lookup, SegView};
use crate::merge::{
    default_merger, merger_add, merger_finalize, merger_new, merger_wf, MergeStrategy, Merger,
    MergerView,
};
use crate::path_text::parse_path;
use crate::tree::tree_set;
use crate::value::{Value, ValueView};

verus! {

/// Why the engine could not be built.
#[derive(Debug, Clone, Copy, PartialEq, Eq, Structural)]
pub enum ConfigError {
    /// Both `starts_when` and `ends_when` were configured; at most one
    /// boundary condition is permitted.
    InvalidConfiguration,
}

/// The views of a strategy table's rows, in order.
pub open spec fn strats_view(s: Seq<(Lookup, MergeStrategy)>) -> Seq<(Seq<SegView>, MergeStrategy)> {
    Seq::new(s.len(), |i: int| (s[i].0@, s[i].1))
}

/// The strategy configured for a path, if any: the first row that names
/// it.
pub open spec fn strat_get(
    s: Seq<(Seq<SegView>, MergeStrategy)>,
    path: Seq<SegView>,
) -> Option<MergeStrategy>
    decreases s.len(),
{
    if s.len() == 0 {
        None
    } else if s[0].0 == path {
        Some(s[0].1)
    } else {
        strat_get(s.skip(1), path)
    }
}

/// The path a top-level key stands for when a bucket is seeded: its parse
/// where the key parses, else the whole key as one raw field segment.
///
/// The asymmetry with merging is deliberate: only the seeding event's
/// keys are parsed into paths; the keys of every later event of the same
/// bucket are taken raw, one field segment each, as [`add_fields`] says.
pub open spec fn key_to_path(k: Seq<char>) -> Seq<SegView> {
    match parse_path(k) {
        Some(p) => p,
        None => seq![SegView::Field(k)],
    }
}

/// The merger a first value opens for a field: under the configured
/// strategy where one names the path — nothing where the value does not
/// fit it — else the type-dependent default.
pub open spec fn seed_merger(
    v: ValueView,
    path: Seq<SegView>,
    strats: Seq<(Seq<SegView>, MergeStrategy)>,
) -> Option<MergerView> {
    match strat_get(strats, path) {
        Some(s) => merger_new(v, s),
        None => Some(default_merger(v)),
    }
}

/// One seeding step: binds `path` to a fresh merger for `v`, replacing an
/// earlier binding in place; where the value does not fit the configured
/// strategy nothing changes.
pub open spec fn fields_seed_one(
    fields: Seq<(Seq<SegView>, MergerView)>,
    path: Seq<SegView>,
    v: ValueView,
    strats: Seq<(Seq<SegView>, MergeStrategy)>,
) -> Seq<(Seq<SegView>, MergerView)>
    decreases fields.len(),
{
    if fields.len() == 0 {
        match seed_merger(v, path, strats) {
            Some(m) => seq![(path, m)],
            None => fields,
        }
    } else if fields[0].0 == path {
        match seed_merger(v, path, strats) {
            Some(m) => seq![(path, m)] + fields.skip(1),
            None => fields,
        }
    } else {
        seq![fields[0]] + fields_seed_one(fields.skip(1), path, v, strats)
    }
}

/// The field table a first event seeds: one merger per top-level field,
/// keys parsed into paths, in field order.
pub open spec fn seed_fields(
    entries: Seq<(Seq<char>, ValueView)>,
    strats: Seq<(Seq<SegView>, MergeStrategy)>,
) -> Seq<(Seq<SegView>, MergerView)>
    decreases entries.len(),
{
    if entries.len() == 0 {
        Seq::empty()
    } else {
        fields_seed_one(
            seed_fields(entries.drop_last(), strats),
            key_to_path(entries.last().0),
            entries.last().1,
            strats,
        )
    }
}

/// One merging step: combines `v` into the merger bound to `path`, or
/// opens one — under the configured strategy, else the default — where
/// the path is new. The key is taken raw, one field segment.
pub open spec fn fields_add_one(
    fields: Seq<(Seq<SegView>, MergerView)>,
    path: Seq<SegView>,
    v: ValueView,
    strats: Seq<(Seq<SegView>, MergeStrategy)>,
) -> Seq<(Seq<SegView>, MergerView)>
    decreases fields.len(),
{
    if fields.len() == 0 {
        match seed_merger(v, path, strats) {
            Some(m) => seq![(path, m)],
            None => fields,
        }
    } else if fields[0].0 == path {
        seq![(fields[0].0, merger_add(fields[0].1, v).0)] + fields.skip(1)
    } else {
        seq![fields[0]] + fields_add_one(fields.skip(1), path, v, strats)
    }
}

/// The field table after a later event of the same bucket: each top-level
/// field combined in, in field order. Unlike seeding, the keys are taken
/// raw — one field segment each, never parsed.
pub open spec fn add_fields(
    fields: Seq<(Seq<SegView>, MergerView)>,
    entries: Seq<(Seq<char>, ValueView)>,
    strats: Seq<(Seq<SegView>, MergeStrategy)>,
) -> Seq<(Seq<SegView>, MergerView)>
    decreases entries.len(),
{
    if entries.len() == 0 {
        fields
    } else {
        fields_add_one(
            add_fields(fields, entries.drop_last(), strats),
            seq![SegView::Field(entries.last().0)],
            entries.last().1,
            strats,
        )
    }
}

/// One flushing step: the finalized merger written back into the event
/// under its path; a path the tree refuses is skipped and the event left
/// as it was.
pub open spec fn flush_step(
    entries: Seq<(Seq<char>, ValueView)>,
    path: Seq<SegView>,
    m: MergerView,
) -> Seq<(Seq<char>, ValueView)> {
    match tree_set(ValueView::Object(entries), path, 0, merger_finalize(m)) {
        Some(nv) => match nv {
            ValueView::Object(m2) => m2,
            _ => entries,
        },
        None => entries,
    }
}

/// The output event a bucket flushes into: every field's merger
/// finalized and written back under its original path, in field order,
/// into a fresh event.
pub open spec fn flush_fields(fields: Seq<(Seq<SegView>, MergerView)>) -> Seq<
    (Seq<char>, ValueView),
>
    decreases fields.len(),
{
    if fields.len() == 0 {
        Seq::empty()
    } else {
        flush_step(flush_fields(fields.drop_last()), fields.last().0, fields.last().1)
    }
}

/// Well-formedness of a bucket's field table: paths nonempty, mergers
/// holding well-formed values.
pub open spec fn fields_wf(fields: Seq<(Seq<SegView>, MergerView)>) -> bool {
    forall|i: int|
        0 <= i < fields.len() ==> (#[trigger] fields[i]).0.len() >= 1 && merger_wf(fields[i].1)
}

/// The mathematical model of a bucket.
pub struct StateView {
    pub fields: Seq<(Seq<SegView>, MergerView)>,
    pub stale_since: int,
}

/// The views of a bucket's field rows, in order.
pub open spec fn pfields_view(fields: Seq<(Lookup, Merger)>) -> Seq<(Seq<SegView>, MergerView)>
    decreases fields,
{
    if fields.len() == 0 {
        Seq::empty()
    } else {
        pfields_view(fields.drop_last()).push(
            (fields.last().0@, fields.last().1.view()),
        )
    }
}

pub broadcast proof fn pfields_view_len(fields: Seq<(Lookup, Merger)>)
    ensures
        #[trigger] pfields_view(fields).len() == fields.len(),
    decreases fields,
{
    if fields.len() > 0 {
        pfields_view_len(fields.drop_last());
    }
}

pub broadcast proof fn pfields_view_index(fields: Seq<(Lookup, Merger)>, i: int)
    requires
        0 <= i < fields.len(),
    ensures
        #[trigger] pfields_view(fields)[i] == (fields[i].0@, fields[i].1.view()),
    decreases fields,
{
    pfields_view_len(fields);
    pfields_view_len(fields.drop_last());
    if i < fields.len() - 1 {
        pfields_view_index(fields.drop_last(), i);
        assert(fields.drop_last()[i] == fields[i]);
    } else {
        assert(fields.last() == fields[i]);
    }
}

/// An aggregation bucket: one merger per observed field path, and when
/// the bucket was last touched, in milliseconds.
#[derive(Debug)]
pub struct ReduceState {
    fields: Vec<(Lookup, Merger)>,
    stale_since: u64,
}

impl View for ReduceState {
    type V = StateView;

    closed spec fn view(&self) -> StateView {
        StateView { fields: pfields_view(self.fields@), stale_since: self.stale_since as int }
    }
}

impl ReduceState {
    /// Well-formedness of the bucket.
    pub open spec fn wf(&self) -> bool {
        fields_wf(self@.fields)
    }

    /// Opens a bucket seeded from a first event's fields, stamped with
    /// the current time.
    #[verifier::loop_isolation(false)]
    pub fn new(e: LogEvent, strategies: &Vec<(Lookup, MergeStrategy)>, now_ms: u64) -> (r:
        ReduceState)
        requires
            e.wf(),
        ensures
            r@.fields == seed_fields(e@, strats_view(strategies@)),
            r@.stale_since == now_ms,
            r.wf(),
    {
        broadcast use pfields_view_len, pfields_view_index, crate::value::map_view_len,
            crate::value::map_view_index;

        let ghost sv = strats_view(strategies@);
        proof {
            e.lemma_root_entries();
        }
        let entries = e.entries();
        let ghost evs = crate::value::map_view(entries@);
        proof {
            assert(evs == e@);
        }
        let n = entries.len();
        let mut fields: Vec<(Lookup, Merger)> = Vec::new();
        let mut i: usize = 0;
        while i < n
            invariant
                i <= n,
                n == entries@.len(),
                evs.len() == n,
                pfields_view(fields@) =~= seed_fields(evs.take(i as int), sv),
                fields_wf(pfields_view(fields@)),
            decreases n - i,
        {
            let (k, v) = entry_at(&entries, i);
            proof {
                assert(evs[i as int] == (entries@[i as int].0@, entries@[i as int].1.view()));
                assert(k@ == evs[i as int].0);
                assert(v@ == evs[i as int].1);
                assert(crate::value::vv_wf(ValueView::Object(e@)));
                assert(crate::value::vv_wf(e@[i as int].1));
            }
            let path = match Lookup::from_str(k.as_str()) {
                Ok(l) => l,
                Err(_) => Lookup::from(k.as_str()),
            };
            proof {
                assert(path@ == key_to_path(k@));
                assert(path@.len() >= 1);
            }
            seed_into(&mut fields, path, v, strategies);
            proof {
                assert(evs.take((i + 1) as int).drop_last() =~= evs.take(i as int));
                assert(evs.take((i + 1) as int).last() == evs[i as int]);
                assert(pfields_view(fields@) =~= seed_fields(evs.take((i + 1) as int), sv));
            }
            i = i + 1;
        }
        proof {
            assert(evs.take(n as int) =~= evs);
        }
        ReduceState { fields, stale_since: now_ms }
    }

    /// Merges a later event of the same bucket in, field by field, and
    /// refreshes the staleness stamp. A mismatched field contribution is
    /// dropped; the other fields still merge.
    #[verifier::loop_isolation(false)]
    pub fn add_event(&mut self, e: LogEvent, strategies: &Vec<(Lookup, MergeStrategy)>, now_ms: u64)
        requires
            e.wf(),
            old(self).wf(),
        ensures
            final(self)@.fields == add_fields(old(self)@.fields, e@, strats_view(strategies@)),
            final(self)@.stale_since == now_ms,
            final(self).wf(),
    {
        broadcast use pfields_view_len, pfields_view_index, crate::value::map_view_len,
            crate::value::map_view_index;

        let ghost sv = strats_view(strategies@);
        let ghost fields0 = old(self)@.fields;
        proof {
            e.lemma_root_entries();
        }
        let entries = e.entries();
        let ghost evs = crate::value::map_view(entries@);
        proof {
            assert(evs == e@);
        }
        let n = entries.len();
        let mut i: usize = 0;
        while i < n
            invariant
                i <= n,
                n == entries@.len(),
                evs.len() == n,
                pfields_view(self.fields@) =~= add_fields(fields0, evs.take(i as int), sv),
                fields_wf(pfields_view(self.fields@)),
            decreases n - i,
        {
            let (k, v) = entry_at(&entries, i);
            proof {
                assert(evs[i as int] == (entries@[i as int].0@, entries@[i as int].1.view()));
                assert(k@ == evs[i as int].0);
                assert(v@ == evs[i as int].1);
                assert(crate::value::vv_wf(ValueView::Object(e@)));
                assert(crate::value::vv_wf(e@[i as int].1));
            }
            let path = Lookup::from(k.as_str());
            add_into(&mut self.fields, path, v, strategies);
            proof {
                assert(evs.take((i + 1) as int).drop_last() =~= evs.take(i as int));
                assert(evs.take((i + 1) as int).last() == evs[i as int]);
                assert(pfields_view(self.fields@) =~= add_fields(
                    fields0,
                    evs.take((i + 1) as int),
                    sv,
                ));
            }
            i = i + 1;
        }
        proof {
            assert(evs.take(n as int) =~= evs);
        }
        self.stale_since = now_ms;
    }

    /// A bucket with the same field table and stamp.
    #[verifier::loop_isolation(false)]
    pub fn clone_parts(&self) -> (r: ReduceState)
        ensures
            r@ == self@,
    {
        broadcast use pfields_view_len, pfields_view_index;

        let mut fields: Vec<(Lookup, Merger)> = Vec::new();
        let n = self.fields.len();
        let mut i: usize = 0;
        while i < n
            invariant
                i <= n,
                n == self.fields@.len(),
                fields@.len() == i,
                pfields_view(fields@) =~= pfields_view(self.fields@).take(i as int),
            decreases n - i,
        {
            let ghost pre = pfields_view(fields@);
            let ghost prevec = fields@;
            let row = field_at(&self.fields, i);
            fields.push(row);
            proof {
                assert(fields@.drop_last() =~= prevec);
                assert(pfields_view(fields@) =~= pre.push(
                    (fields@.last().0@, fields@.last().1.view()),
                ));
                assert(pfields_view(fields@) =~= pfields_view(self.fields@).take((i + 1) as int));
            }
            i = i + 1;
        }
        proof {
            assert(pfields_view(fields@) =~= pfields_view(self.fields@));
        }
        ReduceState { fields, stale_since: self.stale_since }
    }

    /// When the bucket was last touched, in milliseconds.
    pub fn stale_since(&self) -> (r: u64)
        ensures
            r == self@.stale_since,
    {
        self.stale_since
    }

    /// Converts the bucket into one output event: every field's merger
    /// finalized and written back under its original path.
    #[verifier::loop_isolation(false)]
    pub fn flush(self) -> (r: LogEvent)
        requires
            self.wf(),
        ensures
            r@ == flush_fields(self@.fields),
            r.wf(),
    {
        broadcast use pfields_view_len, pfields_view_index;

        let ghost fv = self@.fields;
        let mut event = LogEvent::new();
        let mut rest = self.fields;
        let n = rest.len();
        let mut i: usize = 0;
        while i < n
            invariant
                i <= n,
                n == rest@.len(),
                fv == pfields_view(rest@),
                fields_wf(fv),
                event@ =~= flush_fields(fv.take(i as int)),
                event.wf(),
            decreases n - i,
        {
            let (path, merger) = field_at(&rest, i);
            proof {
                assert(path@ == fv[i as int].0);
                assert(merger@ == fv[i as int].1);
                assert(fv[i as int].0.len() >= 1 && merger_wf(fv[i as int].1));
            }
            let merged = merger.finalize();
            let ghost pre = event@;
            let set_result = event.insert(&path, merged);
            proof {
                assert(fv.take((i + 1) as int).drop_last() =~= fv.take(i as int));
                assert(fv.take((i + 1) as int).last() == fv[i as int]);
                assert(event@ =~= flush_step(pre, fv[i as int].0, fv[i as int].1));
            }
            i = i + 1;
        }
        proof {
            assert(fv.take(n as int) =~= fv);
        }
        event
    }
}

/// The entry at a position, keys and values cloned.
fn entry_at(entries: &Vec<(String, Value)>, i: usize) -> (r: (String, Value))
    requires
        i < entries@.len(),
    ensures
        r.0@ == entries@[i as int].0@,
        r.1@ == entries@[i as int].1@,
{
    let key = entries[i].0.clone();
    let val = entries[i].1.clone();
    (key, val)
}

/// The field row at a position, cloned.
fn field_at(fields: &Vec<(Lookup, Merger)>, i: usize) -> (r: (Lookup, Merger))
    requires
        i < fields@.len(),
    ensures
        r.0@ == fields@[i as int].0@,
        r.1@ == fields@[i as int].1@,
{
    let path = fields[i].0.clone();
    let merger = clone_merger(&fields[i].1);
    (path, merger)
}

/// A merger with the same accumulated value.
fn clone_merger(m: &Merger) -> (r: Merger)
    ensures
        r@ == m@,
{
    broadcast use crate::value::arr_view_len, crate::value::arr_view_index;

    match m {
        Merger::Discard(v) => Merger::Discard(v.clone()),
        Merger::Sum(n) => Merger::Sum(*n),
        Merger::Max(v) => Merger::Max(v.clone()),
        Merger::Concat(b) => Merger::Concat(clone_byte_vec(b)),
        Merger::ConcatArray(items) => Merger::ConcatArray(clone_value_vec(items)),
        Merger::Array(items) => Merger::Array(clone_value_vec(items)),
    }
}

#[verifier::loop_isolation(false)]
fn clone_byte_vec(b: &Vec<u8>) -> (r: Vec<u8>)
    ensures
        r@ == b@,
{
    let mut out: Vec<u8> = Vec::new();
    let n = b.len();
    let mut i: usize = 0;
    while i < n
        invariant
            i <= n,
            n == b@.len(),
            out@ =~= b@.take(i as int),
        decreases n - i,
    {
        out.push(b[i]);
        proof {
            assert(out@ =~= b@.take((i + 1) as int));
        }
        i = i + 1;
    }
    proof {
        assert(out@ =~= b@);
    }
    out
}

#[verifier::loop_isolation(false)]
fn clone_value_vec(items: &Vec<Value>) -> (r: Vec<Value>)
    ensures
        crate::value::arr_view(r@) == crate::value::arr_view(items@),
{
    broadcast use crate::value::arr_view_len, crate::value::arr_view_index;

    let mut out: Vec<Value> = Vec::new();
    let n = items.len();
    let mut i: usize = 0;
    while i < n
        invariant
            i <= n,
            n == items@.len(),
            out@.len() == i,
            crate::value::arr_view(out@) =~= crate::value::arr_view(items@).take(i as int),
        decreases n - i,
    {
        let ghost pre = crate::value::arr_view(out@);
        let v = items[i].clone();
        out.push(v);
        proof {
            assert(crate::value::arr_view(out@) =~= pre.push(items@[i as int]@));
            assert(crate::value::arr_view(out@) =~= crate::value::arr_view(items@).take(
                (i + 1) as int,
            ));
        }
        i = i + 1;
    }
    proof {
        assert(crate::value::arr_view(out@) =~= crate::value::arr_view(items@));
    }
    out
}

proof fn lemma_fields_seed_at(
    fields: Seq<(Seq<SegView>, MergerView)>,
    path: Seq<SegView>,
    v: ValueView,
    strats: Seq<(Seq<SegView>, MergeStrategy)>,
    idx: int,
)
    requires
        0 <= idx <= fields.len(),
        forall|k: int| 0 <= k < idx ==> (#[trigger] fields[k]).0 != path,
        idx < fields.len() ==> fields[idx].0 == path,
    ensures
        idx < fields.len() ==> fields_seed_one(fields, path, v, strats) == (match seed_merger(
            v,
            path,
            strats,
        ) {
            Some(m) => fields.update(idx, (path, m)),
            None => fields,
        }),
        idx == fields.len() ==> fields_seed_one(fields, path, v, strats) == (match seed_merger(
            v,
            path,
            strats,
        ) {
            Some(m) => fields.push((path, m)),
            None => fields,
        }),
    decreases idx,
{
    if fields.len() == 0 {
        match seed_merger(v, path, strats) {
            Some(m) => {
                assert(fields_seed_one(fields, path, v, strats) =~= fields.push((path, m)));
            },
            None => {},
        }
    } else if idx == 0 {
    } else {
        assert(fields[0].0 != path);
        lemma_fields_seed_at(fields.skip(1), path, v, strats, idx - 1);
        assert(forall|k: int|
            0 <= k < idx - 1 ==> (#[trigger] fields.skip(1)[k]) == fields[k + 1]);
        match seed_merger(v, path, strats) {
            Some(m) => {
                if idx < fields.len() {
                    assert(fields.skip(1)[idx - 1] == fields[idx]);
                    assert(seq![fields[0]] + fields.skip(1).update(idx - 1, (path, m))
                        =~= fields.update(idx, (path, m)));
                } else {
                    assert(seq![fields[0]] + fields.skip(1).push((path, m)) =~= fields.push(
                        (path, m),
                    ));
                }
            },
            None => {
                assert(seq![fields[0]] + fields.skip(1) =~= fields);
            },
        }
    }
}

proof fn lemma_fields_add_at(
    fields: Seq<(Seq<SegView>, MergerView)>,
    path: Seq<SegView>,
    v: ValueView,
    strats: Seq<(Seq<SegView>, MergeStrategy)>,
    idx: int,
)
    requires
        0 <= idx <= fields.len(),
        forall|k: int| 0 <= k < idx ==> (#[trigger] fields[k]).0 != path,
        idx < fields.len() ==> fields[idx].0 == path,
    ensures
        idx < fields.len() ==> fields_add_one(fields, path, v, strats) == fields.update(
            idx,
            (fields[idx].0, merger_add(fields[idx].1, v).0),
        ),
        idx == fields.len() ==> fields_add_one(fields, path, v, strats) == (match seed_merger(
            v,
            path,
            strats,
        ) {
            Some(m) => fields.push((path, m)),
            None => fields,
        }),
    decreases idx,
{
    if fields.len() == 0 {
        match seed_merger(v, path, strats) {
            Some(m) => {
                assert(fields_add_one(fields, path, v, strats) =~= fields.push((path, m)));
            },
            None => {},
        }
    } else if idx == 0 {
        if idx < fields.len() {
            assert(seq![(fields[0].0, merger_add(fields[0].1, v).0)] + fields.skip(1)
                =~= fields.update(0, (fields[0].0, merger_add(fields[0].1, v).0)));
        }
    } else {
        assert(fields[0].0 != path);
        lemma_fields_add_at(fields.skip(1), path, v, strats, idx - 1);
        assert(forall|k: int|
            0 <= k < idx - 1 ==> (#[trigger] fields.skip(1)[k]) == fields[k + 1]);
        if idx < fields.len() {
            assert(fields.skip(1)[idx - 1] == fields[idx]);
            assert(seq![fields[0]] + fields.skip(1).update(
                idx - 1,
                (fields[idx].0, merger_add(fields[idx].1, v).0),
            ) =~= fields.update(idx, (fields[idx].0, merger_add(fields[idx].1, v).0)));
        } else {
            match seed_merger(v, path, strats) {
                Some(m) => {
                    assert(seq![fields[0]] + fields.skip(1).push((path, m)) =~= fields.push(
                        (path, m),
                    ));
                },
                None => {
                    assert(seq![fields[0]] + fields.skip(1) =~= fields);
                },
            }
        }
    }
}

/// Where a path stands in the field table: the first row holding it.
#[verifier::loop_isolation(false)]
fn fields_find(fields: &Vec<(Lookup, Merger)>, path: &Lookup) -> (r: Option<usize>)
    ensures
        r matches Some(i) ==> i < fields@.len() && pfields_view(fields@)[i as int].0 == path@
            && (forall|k: int|
            0 <= k < i ==> (#[trigger] pfields_view(fields@)[k]).0 != path@),
        r is None ==> forall|k: int|
            0 <= k < fields@.len() ==> (#[trigger] pfields_view(fields@)[k]).0 != path@,
{
    broadcast use pfields_view_len, pfields_view_index;

    let n = fields.len();
    let mut i: usize = 0;
    while i < n
        invariant
            i <= n,
            n == fields@.len(),
            forall|k: int| 0 <= k < i ==> (#[trigger] pfields_view(fields@)[k]).0 != path@,
        decreases n - i,
    {
        if fields[i].0 == *path {
            return Some(i);
        }
        i = i + 1;
    }
    None
}

/// The configured strategy for a path, if any row names it.
#[verifier::loop_isolation(false)]
fn find_strategy(strategies: &Vec<(Lookup, MergeStrategy)>, path: &Lookup) -> (r: Option<
    MergeStrategy,
>)
    ensures
        r == strat_get(strats_view(strategies@), path@),
{
    let ghost sv = strats_view(strategies@);
    proof {
        assert(sv.skip(0) =~= sv);
    }
    let n = strategies.len();
    let mut i: usize = 0;
    while i < n
        invariant
            i <= n,
            n == strategies@.len(),
            sv == strats_view(strategies@),
            forall|k: int| 0 <= k < i ==> (#[trigger] sv[k]).0 != path@,
            strat_get(sv, path@) == strat_get(sv.skip(i as int), path@),
        decreases n - i,
    {
        proof {
            assert(sv[i as int] == (strategies@[i as int].0@, strategies@[i as int].1));
            assert(sv.skip(i as int)[0] == sv[i as int]);
        }
        if strategies[i].0 == *path {
            return Some(strategies[i].1);
        }
        proof {
            assert(sv.skip(i as int).skip(1) =~= sv.skip((i + 1) as int));
        }
        i = i + 1;
    }
    proof {
        assert(sv.skip(n as int) =~= Seq::<(Seq<SegView>, MergeStrategy)>::empty());
    }
    None
}

/// Opens the merger a value seeds for a path, under the configured
/// strategy or the default; nothing where the value does not fit.
fn seed_merger_exec(v: Value, path: &Lookup, strategies: &Vec<(Lookup, MergeStrategy)>) -> (r:
    Option<Merger>)
    requires
        crate::value::vv_wf(v@),
    ensures
        match seed_merger(v@, path@, strats_view(strategies@)) {
            Some(m) => r matches Some(g) && g@ == m && merger_wf(g@),
            None => r is None,
        },
{
    match find_strategy(strategies, path) {
        Some(s) => match crate::merge::get_value_merger(v, s) {
            Ok(m) => Some(m),
            Err(_) => None,
        },
        None => Some(Merger::from_value(v)),
    }
}

/// One seeding step on the table itself.
fn seed_into(
    fields: &mut Vec<(Lookup, Merger)>,
    path: Lookup,
    v: Value,
    strategies: &Vec<(Lookup, MergeStrategy)>,
)
    requires
        crate::value::vv_wf(v@),
        path@.len() >= 1,
        fields_wf(pfields_view(old(fields)@)),
    ensures
        pfields_view(final(fields)@) == fields_seed_one(
            pfields_view(old(fields)@),
            path@,
            v@,
            strats_view(strategies@),
        ),
        fields_wf(pfields_view(final(fields)@)),
{
    broadcast use pfields_view_len, pfields_view_index;

    let ghost fv = pfields_view(fields@);
    let ghost sv = strats_view(strategies@);
    match fields_find(fields, &path) {
        Some(idx) => {
            proof {
                lemma_fields_seed_at(fv, path@, v@, sv, idx as int);
            }
            match seed_merger_exec(v, &path, strategies) {
                Some(m) => {
                    let ghost mv = m@;
                    let (_oldp, _oldm) = fields.remove(idx);
                    fields.insert(idx, (path, m));
                    proof {
                        assert(pfields_view(fields@) =~= fv.update(idx as int, (path@, mv)));
                        assert(fields_wf(pfields_view(fields@)));
                    }
                },
                None => {},
            }
        },
        None => {
            proof {
                lemma_fields_seed_at(fv, path@, v@, sv, fields@.len() as int);
            }
            match seed_merger_exec(v, &path, strategies) {
                Some(m) => {
                    let ghost mv = m@;
                    fields.push((path, m));
                    proof {
                        assert(pfields_view(fields@) =~= fv.push((path@, mv)));
                        assert(fields_wf(pfields_view(fields@)));
                    }
                },
                None => {},
            }
        },
    }
}

/// One merging step on the table itself.
#[verifier::rlimit(50)]
fn add_into(
    fields: &mut Vec<(Lookup, Merger)>,
    path: Lookup,
    v: Value,
    strategies: &Vec<(Lookup, MergeStrategy)>,
)
    requires
        crate::value::vv_wf(v@),
        path@.len() >= 1,
        fields_wf(pfields_view(old(fields)@)),
    ensures
        pfields_view(final(fields)@) == fields_add_one(
            pfields_view(old(fields)@),
            path@,
            v@,
            strats_view(strategies@),
        ),
        fields_wf(pfields_view(final(fields)@)),
{
    broadcast use pfields_view_len, pfields_view_index;

    let ghost fv = pfields_view(fields@);
    let ghost sv = strats_view(strategies@);
    match fields_find(fields, &path) {
        Some(idx) => {
            proof {
                lemma_fields_add_at(fv, path@, v@, sv, idx as int);
            }
            let (oldp, mut m) = fields.remove(idx);
            proof {
                assert(oldp@ == fv[idx as int].0);
                assert(m@ == fv[idx as int].1);
                assert(merger_wf(m@));
            }
            let _merge_result = m.add(v);
            let ghost mv = m@;
            fields.insert(idx, (oldp, m));
            proof {
                assert(pfields_view(fields@) =~= fv.update(
                    idx as int,
                    (fv[idx as int].0, merger_add(fv[idx as int].1, v@).0),
                ));
                assert(fields_wf(pfields_view(fields@)));
            }
        },
        None => {
            proof {
                lemma_fields_add_at(fv, path@, v@, sv, fields@.len() as int);
            }
            match seed_merger_exec(v, &path, strategies) {
                Some(m) => {
                    let ghost mv = m@;
                    fields.push((path, m));
                    proof {
                        assert(pfields_view(fields@) =~= fv.push((path@, mv)));
                        assert(fields_wf(pfields_view(fields@)));
                    }
                },
                None => {},
            }
        },
    }
}

} // verus!

verus! {

/// The views of the bucket table's rows, in order.
pub open spec fn sviews(states: Seq<(Discriminant, ReduceState)>) -> Seq<
    (Seq<Option<ValueView>>, StateView),
>
    decreases states,
{
    if states.len() == 0 {
        Seq::empty()
    } else {
        sviews(states.drop_last()).push(
            (states.last().0@, states.last().1@),
        )
    }
}

pub broadcast proof fn sviews_len(states: Seq<(Discriminant, ReduceState)>)
    ensures
        #[trigger] sviews(states).len() == states.len(),
    decreases states,
{
    if states.len() > 0 {
        sviews_len(states.drop_last());
    }
}

pub broadcast proof fn sviews_index(states: Seq<(Discriminant, ReduceState)>, i: int)
    requires
        0 <= i < states.len(),
    ensures
        #[trigger] sviews(states)[i] == (states[i].0@, states[i].1@),
    decreases states,
{
    sviews_len(states);
    sviews_len(states.drop_last());
    if i < states.len() - 1 {
        sviews_index(states.drop_last(), i);
        assert(states.drop_last()[i] == states[i]);
    } else {
        assert(states.last() == states[i]);
    }
}

/// The bucket open under a discriminant, if any: the first row holding it.
pub open spec fn states_get(
    states: Seq<(Seq<Option<ValueView>>, StateView)>,
    d: Seq<Option<ValueView>>,
) -> Option<StateView>
    decreases states.len(),
{
    if states.len() == 0 {
        None
    } else if states[0].0 == d {
        Some(states[0].1)
    } else {
        states_get(states.skip(1), d)
    }
}

/// The bucket table without the bucket under a discriminant.
pub open spec fn states_remove(
    states: Seq<(Seq<Option<ValueView>>, StateView)>,
    d: Seq<Option<ValueView>>,
) -> Seq<(Seq<Option<ValueView>>, StateView)>
    decreases states.len(),
{
    if states.len() == 0 {
        states
    } else if states[0].0 == d {
        states.skip(1)
    } else {
        seq![states[0]] + states_remove(states.skip(1), d)
    }
}

/// The bucket table after one event lands under a discriminant: the open
/// bucket merges the event in place, or a new bucket seeded from it is
/// appended.
pub open spec fn states_push_or_new(
    states: Seq<(Seq<Option<ValueView>>, StateView)>,
    d: Seq<Option<ValueView>>,
    entries: Seq<(Seq<char>, ValueView)>,
    strats: Seq<(Seq<SegView>, MergeStrategy)>,
    now: int,
) -> Seq<(Seq<Option<ValueView>>, StateView)>
    decreases states.len(),
{
    if states.len() == 0 {
        seq![(d, StateView { fields: seed_fields(entries, strats), stale_since: now })]
    } else if states[0].0 == d {
        seq![
            (
                d,
                StateView {
                    fields: add_fields(states[0].1.fields, entries, strats),
                    stale_since: now,
                },
            ),
        ] + states.skip(1)
    } else {
        seq![states[0]] + states_push_or_new(states.skip(1), d, entries, strats, now)
    }
}

/// Whether a bucket's last touch lies at least `expire` before `now`.
pub open spec fn state_is_stale(st: StateView, now: int, expire: int) -> bool {
    st.stale_since + expire <= now
}

/// The buckets a staleness sweep keeps, in their order.
pub open spec fn fresh_states(
    states: Seq<(Seq<Option<ValueView>>, StateView)>,
    now: int,
    expire: int,
) -> Seq<(Seq<Option<ValueView>>, StateView)>
    decreases states.len(),
{
    if states.len() == 0 {
        states
    } else if state_is_stale(states.last().1, now, expire) {
        fresh_states(states.drop_last(), now, expire)
    } else {
        fresh_states(states.drop_last(), now, expire).push(states.last())
    }
}

/// The events a staleness sweep flushes, one per stale bucket, in bucket
/// order.
pub open spec fn stale_flushes(
    states: Seq<(Seq<Option<ValueView>>, StateView)>,
    now: int,
    expire: int,
) -> Seq<Seq<(Seq<char>, ValueView)>>
    decreases states.len(),
{
    if states.len() == 0 {
        Seq::empty()
    } else if state_is_stale(states.last().1, now, expire) {
        stale_flushes(states.drop_last(), now, expire).push(flush_fields(states.last().1.fields))
    } else {
        stale_flushes(states.drop_last(), now, expire)
    }
}

/// The events a final drain flushes: one per bucket, each exactly once,
/// in bucket order.
pub open spec fn all_flushes(states: Seq<(Seq<Option<ValueView>>, StateView)>) -> Seq<
    Seq<(Seq<char>, ValueView)>,
>
    decreases states.len(),
{
    if states.len() == 0 {
        Seq::empty()
    } else {
        all_flushes(states.drop_last()).push(flush_fields(states.last().1.fields))
    }
}

/// That `new_out` is `old_out` with exactly the given well-formed log
/// events appended, in order.
pub open spec fn pushed_logs(
    old_out: Seq<Event>,
    new_out: Seq<Event>,
    logs: Seq<Seq<(Seq<char>, ValueView)>>,
) -> bool {
    &&& new_out.len() == old_out.len() + logs.len()
    &&& new_out.take(old_out.len() as int) == old_out
    &&& forall|i: int|
        0 <= i < logs.len() ==> ((#[trigger] new_out[old_out.len() + i]) matches Event::Log(l)
            && l@ == logs[i] && l.wf())
}

/// Well-formedness of a bucket table.
pub open spec fn states_wf(states: Seq<(Seq<Option<ValueView>>, StateView)>) -> bool {
    forall|i: int| 0 <= i < states.len() ==> fields_wf((#[trigger] states[i]).1.fields)
}

/// The bucket table after the boundary logic of one event, before the
/// staleness sweep.
pub open spec fn spec_transform_states(
    states: Seq<(Seq<Option<ValueView>>, StateView)>,
    d: Seq<Option<ValueView>>,
    entries: Seq<(Seq<char>, ValueView)>,
    strats: Seq<(Seq<SegView>, MergeStrategy)>,
    starts: bool,
    ends: bool,
    now: int,
) -> Seq<(Seq<Option<ValueView>>, StateView)> {
    if starts {
        states_push_or_new(states_remove(states, d), d, entries, strats, now)
    } else if ends {
        states_remove(states, d)
    } else {
        states_push_or_new(states, d, entries, strats, now)
    }
}

/// The events the boundary logic of one event flushes: on a start, the
/// bucket the triggering event supersedes, without that event; on an end,
/// the bucket with the triggering event merged in, or one seeded from it
/// alone.
pub open spec fn spec_transform_out(
    states: Seq<(Seq<Option<ValueView>>, StateView)>,
    d: Seq<Option<ValueView>>,
    entries: Seq<(Seq<char>, ValueView)>,
    strats: Seq<(Seq<SegView>, MergeStrategy)>,
    starts: bool,
    ends: bool,
) -> Seq<Seq<(Seq<char>, ValueView)>> {
    if starts {
        match states_get(states, d) {
            Some(st) => seq![flush_fields(st.fields)],
            None => Seq::empty(),
        }
    } else if ends {
        seq![
            flush_fields(
                match states_get(states, d) {
                    Some(st) => add_fields(st.fields, entries, strats),
                    None => seed_fields(entries, strats),
                },
            ),
        ]
    } else {
        Seq::empty()
    }
}

/// Configuration for the reduction engine. At most one boundary condition
/// may be set.
#[derive(Debug)]
pub struct ReduceConfig<C: Condition> {
    /// Staleness threshold, milliseconds; 30000 when unset.
    pub expire_after_ms: Option<u64>,
    /// Eviction-sweep interval, milliseconds; 1000 when unset.
    pub flush_period_ms: Option<u64>,
    /// The ordered group-by paths defining the bucket key; empty groups
    /// every event into one bucket.
    pub group_by: Vec<Lookup>,
    /// Per-path strategy overrides of the type-dependent default.
    pub merge_strategies: Vec<(Lookup, MergeStrategy)>,
    /// Merge the matching event, then flush its bucket.
    pub ends_when: Option<C>,
    /// Flush the matching event's bucket, then open a new one from it.
    pub starts_when: Option<C>,
}

impl<C: Condition> Default for ReduceConfig<C> {
    /// The configuration with nothing set: every event in one bucket,
    /// default strategies, no boundary condition, default timing.
    fn default() -> (r: ReduceConfig<C>)
        ensures
            r.expire_after_ms is None,
            r.flush_period_ms is None,
            r.group_by@.len() == 0,
            r.merge_strategies@.len() == 0,
            r.ends_when is None,
            r.starts_when is None,
    {
        ReduceConfig {
            expire_after_ms: None,
            flush_period_ms: None,
            group_by: Vec::new(),
            merge_strategies: Vec::new(),
            ends_when: None,
            starts_when: None,
        }
    }
}

/// One readiness event of the engine's loop: an upstream item, a periodic
/// tick, or upstream completion.
pub enum StreamInput {
    Item(Event),
    Tick,
    Closed,
}

/// The reduction engine: the mapping from discriminant to open bucket,
/// the boundary conditions, and the staleness clockwork.
pub struct Reduce<C: Condition> {
    expire_after_ms: u64,
    flush_period_ms: u64,
    group_by: Vec<Lookup>,
    merge_strategies: Vec<(Lookup, MergeStrategy)>,
    states: Vec<(Discriminant, ReduceState)>,
    ends_when: Option<C>,
    starts_when: Option<C>,
}

impl<C: Condition> Reduce<C> {
    /// The open buckets, in insertion order.
    pub closed spec fn states_view(&self) -> Seq<(Seq<Option<ValueView>>, StateView)> {
        sviews(self.states@)
    }

    /// The configured group-by paths.
    pub closed spec fn group_paths(&self) -> Seq<Seq<SegView>> {
        paths_of(self.group_by@)
    }

    /// The configured per-path strategies.
    pub closed spec fn strategies_view(&self) -> Seq<(Seq<SegView>, MergeStrategy)> {
        strats_view(self.merge_strategies@)
    }

    /// The staleness threshold, milliseconds.
    pub closed spec fn expire_after(&self) -> int {
        self.expire_after_ms as int
    }

    /// The eviction-sweep interval, milliseconds.
    pub closed spec fn flush_period(&self) -> int {
        self.flush_period_ms as int
    }

    /// Whether a start boundary is configured.
    pub closed spec fn has_starts(&self) -> bool {
        self.starts_when is Some
    }

    /// Whether an end boundary is configured.
    pub closed spec fn has_ends(&self) -> bool {
        self.ends_when is Some
    }

    /// Well-formedness: every bucket well-formed, and at most one
    /// boundary condition.
    pub open spec fn wf(&self) -> bool {
        states_wf(self.states_view()) && !(self.has_starts() && self.has_ends())
    }

    /// That the engine's configuration is the same in two moments.
    pub open spec fn same_config(&self, other: &Self) -> bool {
        &&& self.group_paths() == other.group_paths()
        &&& self.strategies_view() == other.strategies_view()
        &&& self.expire_after() == other.expire_after()
        &&& self.flush_period() == other.flush_period()
        &&& self.has_starts() == other.has_starts()
        &&& self.has_ends() == other.has_ends()
    }

    /// Builds the engine. Fails, before any event is processed, exactly
    /// when both `starts_when` and `ends_when` are configured.
    pub fn new(config: ReduceConfig<C>) -> (r: Result<Reduce<C>, ConfigError>)
        ensures
            config.starts_when is Some && config.ends_when is Some ==> r == Err::<
                Reduce<C>,
                ConfigError,
            >(ConfigError::InvalidConfiguration),
            !(config.starts_when is Some && config.ends_when is Some) ==> (r matches Ok(e)
                && e.group_paths() == paths_of(config.group_by@) && e.strategies_view()
                == strats_view(config.merge_strategies@) && e.expire_after() == (match config
                .expire_after_ms {
                Some(v) => v as int,
                None => 30000,
            }) && e.flush_period() == (match config.flush_period_ms {
                Some(v) => v as int,
                None => 1000,
            }) && e.has_starts() == (config.starts_when is Some) && e.has_ends() == (
            config.ends_when is Some) && e.states_view() == Seq::<
                (Seq<Option<ValueView>>, StateView),
            >::empty() && e.wf()),
    {
        if config.ends_when.is_some() && config.starts_when.is_some() {
            return Err(ConfigError::InvalidConfiguration);
        }
        let expire_after_ms = match config.expire_after_ms {
            Some(v) => v,
            None => 30000,
        };
        let flush_period_ms = match config.flush_period_ms {
            Some(v) => v,
            None => 1000,
        };
        Ok(
            Reduce {
                expire_after_ms,
                flush_period_ms,
                group_by: config.group_by,
                merge_strategies: config.merge_strategies,
                states: Vec::new(),
                ends_when: config.ends_when,
                starts_when: config.starts_when,
            },
        )
    }
}

} // verus!

verus! {

proof fn lemma_states_at(
    states: Seq<(Seq<Option<ValueView>>, StateView)>,
    d: Seq<Option<ValueView>>,
    idx: int,
)
    requires
        0 <= idx <= states.len(),
        forall|k: int| 0 <= k < idx ==> (#[trigger] states[k]).0 != d,
        idx < states.len() ==> states[idx].0 == d,
    ensures
        idx < states.len() ==> states_get(states, d) == Some(states[idx].1) && states_remove(
            states,
            d,
        ) == states.remove(idx),
        idx == states.len() ==> states_get(states, d) is None && states_remove(states, d)
            == states,
    decreases idx,
{
    if states.len() == 0 {
    } else if idx == 0 {
        if idx < states.len() {
            assert(states.skip(1) =~= states.remove(0));
        }
    } else {
        assert(states[0].0 != d);
        lemma_states_at(states.skip(1), d, idx - 1);
        assert(forall|k: int|
            0 <= k < idx - 1 ==> (#[trigger] states.skip(1)[k]) == states[k + 1]);
        if idx < states.len() {
            assert(states.skip(1)[idx - 1] == states[idx]);
            assert(seq![states[0]] + states.skip(1).remove(idx - 1) =~= states.remove(idx));
        } else {
            assert(seq![states[0]] + states.skip(1) =~= states);
        }
    }
}

proof fn lemma_states_upsert_at(
    states: Seq<(Seq<Option<ValueView>>, StateView)>,
    d: Seq<Option<ValueView>>,
    entries: Seq<(Seq<char>, ValueView)>,
    strats: Seq<(Seq<SegView>, MergeStrategy)>,
    now: int,
    idx: int,
)
    requires
        0 <= idx <= states.len(),
        forall|k: int| 0 <= k < idx ==> (#[trigger] states[k]).0 != d,
        idx < states.len() ==> states[idx].0 == d,
    ensures
        idx < states.len() ==> states_push_or_new(states, d, entries, strats, now)
            == states.update(
            idx,
            (
                d,
                StateView {
                    fields: add_fields(states[idx].1.fields, entries, strats),
                    stale_since: now,
                },
            ),
        ),
        idx == states.len() ==> states_push_or_new(states, d, entries, strats, now)
            == states.push(
            (d, StateView { fields: seed_fields(entries, strats), stale_since: now }),
        ),
    decreases idx,
{
    if states.len() == 0 {
        assert(states_push_or_new(states, d, entries, strats, now) =~= states.push(
            (d, StateView { fields: seed_fields(entries, strats), stale_since: now }),
        ));
    } else if idx == 0 {
        if idx < states.len() {
            let st2 = StateView {
                fields: add_fields(states[0].1.fields, entries, strats),
                stale_since: now,
            };
            assert(seq![(d, st2)] + states.skip(1) =~= states.update(0, (d, st2)));
        }
    } else {
        assert(states[0].0 != d);
        lemma_states_upsert_at(states.skip(1), d, entries, strats, now, idx - 1);
        assert(forall|k: int|
            0 <= k < idx - 1 ==> (#[trigger] states.skip(1)[k]) == states[k + 1]);
        if idx < states.len() {
            assert(states.skip(1)[idx - 1] == states[idx]);
            let st2 = StateView {
                fields: add_fields(states[idx].1.fields, entries, strats),
                stale_since: now,
            };
            assert(seq![states[0]] + states.skip(1).update(idx - 1, (d, st2)) =~= states.update(
                idx,
                (d, st2),
            ));
        } else {
            let st2 = StateView { fields: seed_fields(entries, strats), stale_since: now };
            assert(seq![states[0]] + states.skip(1).push((d, st2)) =~= states.push((d, st2)));
        }
    }
}

impl<C: Condition> Reduce<C> {
    /// Where a discriminant's bucket stands: the first row holding it.
    #[verifier::loop_isolation(false)]
    fn states_find(&self, d: &Discriminant) -> (r: Option<usize>)
        ensures
            r matches Some(i) ==> i < self.states_view().len() && self.states_view()[i as int].0
                == d@ && (forall|k: int|
                0 <= k < i ==> (#[trigger] self.states_view()[k]).0 != d@),
            r is None ==> forall|k: int|
                0 <= k < self.states_view().len() ==> (#[trigger] self.states_view()[k]).0 != d@,
    {
        broadcast use sviews_len, sviews_index;

        let n = self.states.len();
        let mut i: usize = 0;
        while i < n
            invariant
                i <= n,
                n == self.states@.len(),
                forall|k: int| 0 <= k < i ==> (#[trigger] self.states_view()[k]).0 != d@,
            decreases n - i,
        {
            if self.states[i].0.same_as(d) {
                return Some(i);
            }
            i = i + 1;
        }
        None
    }

    /// Lands one event in its bucket: merges it into the open bucket, or
    /// opens one seeded from it.
    #[verifier::loop_isolation(false)]
    pub fn push_or_new_reduce_state(
        &mut self,
        event: LogEvent,
        discriminant: Discriminant,
        now_ms: u64,
    )
        requires
            old(self).wf(),
            event.wf(),
        ensures
            final(self).wf(),
            old(self).same_config(final(self)),
            final(self).states_view() == states_push_or_new(
                old(self).states_view(),
                discriminant@,
                event@,
                old(self).strategies_view(),
                now_ms as int,
            ),
    {
        broadcast use sviews_len, sviews_index;

        let ghost sv0 = self.states_view();
        let ghost d = discriminant@;
        match self.states_find(&discriminant) {
            Some(idx) => {
                proof {
                    lemma_states_upsert_at(
                        sv0,
                        d,
                        event@,
                        self.strategies_view(),
                        now_ms as int,
                        idx as int,
                    );
                }
                let (dk, mut st) = self.states.remove(idx);
                proof {
                    assert(dk@ == sv0[idx as int].0);
                    assert(st@ == sv0[idx as int].1);
                    assert(fields_wf(st@.fields));
                }
                st.add_event(event, &self.merge_strategies, now_ms);
                self.states.insert(idx, (dk, st));
                proof {
                    assert(sviews(self.states@) =~= sv0.update(
                        idx as int,
                        (
                            sv0[idx as int].0,
                            StateView {
                                fields: add_fields(
                                    sv0[idx as int].1.fields,
                                    event@,
                                    self.strategies_view(),
                                ),
                                stale_since: now_ms as int,
                            },
                        ),
                    ));
                    assert(states_wf(self.states_view()));
                }
            },
            None => {
                proof {
                    lemma_states_upsert_at(
                        sv0,
                        d,
                        event@,
                        self.strategies_view(),
                        now_ms as int,
                        sv0.len() as int,
                    );
                }
                let st = ReduceState::new(event, &self.merge_strategies, now_ms);
                self.states.push((discriminant, st));
                proof {
                    assert(sviews(self.states@) =~= sv0.push(
                        (
                            d,
                            StateView {
                                fields: seed_fields(event@, self.strategies_view()),
                                stale_since: now_ms as int,
                            },
                        ),
                    ));
                    assert(states_wf(self.states_view()));
                }
            },
        }
    }

    /// The staleness sweep: flushes, in bucket order, every bucket whose
    /// time since last update has reached the staleness threshold, and
    /// keeps the rest.
    #[verifier::loop_isolation(false)]
    pub fn flush_into(&mut self, output: &mut Vec<Event>, now_ms: u64)
        requires
            old(self).wf(),
        ensures
            final(self).wf(),
            old(self).same_config(final(self)),
            final(self).states_view() == fresh_states(
                old(self).states_view(),
                now_ms as int,
                old(self).expire_after(),
            ),
            pushed_logs(
                old(output)@,
                final(output)@,
                stale_flushes(old(self).states_view(), now_ms as int, old(self).expire_after()),
            ),
    {
        broadcast use sviews_len, sviews_index;

        let ghost sv0 = self.states_view();
        let ghost expire = self.expire_after();
        let ghost out0 = output@;
        let mut pending: Vec<(Discriminant, ReduceState)> = Vec::new();
        core::mem::swap(&mut self.states, &mut pending);
        proof {
            assert(sviews(self.states@) =~= Seq::<(Seq<Option<ValueView>>, StateView)>::empty());
            assert(sv0.take(0) =~= Seq::<(Seq<Option<ValueView>>, StateView)>::empty());
            assert(output@.take(out0.len() as int) =~= out0);
        }
        let n = pending.len();
        let mut i: usize = 0;
        while i < n
            invariant
                i <= n,
                n == pending@.len(),
                sv0 == sviews(pending@),
                states_wf(sv0),
                expire == self.expire_after(),
                old(self).same_config(self),
                states_wf(sviews(self.states@)),
                sviews(self.states@) =~= fresh_states(sv0.take(i as int), now_ms as int, expire),
                pushed_logs(out0, output@, stale_flushes(sv0.take(i as int), now_ms as int, expire)),
            decreases n - i,
        {
            let ghost kept0 = sviews(self.states@);
            let ghost flushed0 = stale_flushes(sv0.take(i as int), now_ms as int, expire);
            let (dk, st) = state_at(&pending, i);
            proof {
                assert(dk@ == sv0[i as int].0);
                assert(st@ == sv0[i as int].1);
                assert(fields_wf(st@.fields));
                assert(sv0.take((i + 1) as int).drop_last() =~= sv0.take(i as int));
                assert(sv0.take((i + 1) as int).last() == sv0[i as int]);
            }
            let since = st.stale_since();
            let stale = since <= now_ms && now_ms - since >= self.expire_after_ms;
            proof {
                assert(stale == state_is_stale(sv0[i as int].1, now_ms as int, expire));
            }
            if stale {
                let ghost preout = output@;
                let flushed = st.flush();
                output.push(Event::Log(flushed));
                proof {
                    assert(pushed_logs(
                        out0,
                        output@,
                        stale_flushes(sv0.take((i + 1) as int), now_ms as int, expire),
                    )) by {
                        let logs = stale_flushes(sv0.take((i + 1) as int), now_ms as int, expire);
                        assert(logs =~= flushed0.push(flush_fields(sv0[i as int].1.fields)));
                        assert(output@ == preout.push(Event::Log(flushed)));
                        assert(output@.take(out0.len() as int) =~= out0);
                        assert forall|j: int| 0 <= j < logs.len() implies ((
                        #[trigger] output@[out0.len() + j]) matches Event::Log(l) && l@ == logs[j]
                            && l.wf()) by {
                            if j < flushed0.len() {
                                assert(output@[out0.len() + j] == preout[out0.len() + j]);
                            } else {
                                assert(output@[out0.len() + j] == Event::Log(flushed));
                            }
                        }
                    }
                }
            } else {
                let ghost prevec = self.states@;
                self.states.push((dk, st));
                proof {
                    assert(self.states@.drop_last() =~= prevec);
                    assert(sviews(self.states@) =~= kept0.push((sv0[i as int].0, sv0[i as int].1)));
                    assert(states_wf(sviews(self.states@)));
                    assert(sviews(self.states@) =~= fresh_states(
                        sv0.take((i + 1) as int),
                        now_ms as int,
                        expire,
                    ));
                    assert(stale_flushes(sv0.take((i + 1) as int), now_ms as int, expire)
                        =~= flushed0);
                }
            }
            i = i + 1;
        }
        proof {
            assert(sv0.take(n as int) =~= sv0);
        }
    }

    /// The final drain on upstream completion: flushes every remaining
    /// bucket exactly once, in bucket order, leaving none open.
    #[verifier::loop_isolation(false)]
    pub fn flush_all_into(&mut self, output: &mut Vec<Event>)
        requires
            old(self).wf(),
        ensures
            final(self).wf(),
            old(self).same_config(final(self)),
            final(self).states_view() == Seq::<(Seq<Option<ValueView>>, StateView)>::empty(),
            pushed_logs(old(output)@, final(output)@, all_flushes(old(self).states_view())),
            final(output)@.len() == old(output)@.len() + old(self).states_view().len(),
    {
        broadcast use sviews_len, sviews_index;

        let ghost sv0 = self.states_view();
        let ghost out0 = output@;
        let mut pending: Vec<(Discriminant, ReduceState)> = Vec::new();
        core::mem::swap(&mut self.states, &mut pending);
        proof {
            assert(sviews(self.states@) =~= Seq::<(Seq<Option<ValueView>>, StateView)>::empty());
            assert(sv0.take(0) =~= Seq::<(Seq<Option<ValueView>>, StateView)>::empty());
            assert(output@.take(out0.len() as int) =~= out0);
        }
        let n = pending.len();
        let mut i: usize = 0;
        while i < n
            invariant
                i <= n,
                n == pending@.len(),
                sv0 == sviews(pending@),
                states_wf(sv0),
                old(self).same_config(self),
                sviews(self.states@) =~= Seq::<(Seq<Option<ValueView>>, StateView)>::empty(),
                pushed_logs(out0, output@, all_flushes(sv0.take(i as int))),
            decreases n - i,
        {
            let ghost flushed0 = all_flushes(sv0.take(i as int));
            let (_dk, st) = state_at(&pending, i);
            proof {
                assert(st@ == sv0[i as int].1);
                assert(fields_wf(st@.fields));
                assert(sv0.take((i + 1) as int).drop_last() =~= sv0.take(i as int));
                assert(sv0.take((i + 1) as int).last() == sv0[i as int]);
            }
            let ghost preout = output@;
            let flushed = st.flush();
            output.push(Event::Log(flushed));
            proof {
                assert(pushed_logs(out0, output@, all_flushes(sv0.take((i + 1) as int)))) by {
                    let logs = all_flushes(sv0.take((i + 1) as int));
                    assert(logs =~= flushed0.push(flush_fields(sv0[i as int].1.fields)));
                    assert(output@ == preout.push(Event::Log(flushed)));
                    assert(output@.take(out0.len() as int) =~= out0);
                    assert forall|j: int| 0 <= j < logs.len() implies ((
                    #[trigger] output@[out0.len() + j]) matches Event::Log(l) && l@ == logs[j]
                        && l.wf()) by {
                        if j < flushed0.len() {
                            assert(output@[out0.len() + j] == preout[out0.len() + j]);
                        } else {
                            assert(output@[out0.len() + j] == Event::Log(flushed));
                        }
                    }
                }
            }
            i = i + 1;
        }
        proof {
            assert(sv0.take(n as int) =~= sv0);
            lemma_all_flushes_len(sv0);
        }
    }
}

proof fn lemma_all_flushes_len(states: Seq<(Seq<Option<ValueView>>, StateView)>)
    ensures
        all_flushes(states).len() == states.len(),
    decreases states.len(),
{
    if states.len() > 0 {
        lemma_all_flushes_len(states.drop_last());
    }
}

/// The bucket row at a position, the discriminant cloned, the bucket
/// itself taken apart and rebuilt.
fn state_at(states: &Vec<(Discriminant, ReduceState)>, i: usize) -> (r: (Discriminant, ReduceState))
    requires
        i < states@.len(),
    ensures
        r.0@ == sviews(states@)[i as int].0,
        r.1@ == sviews(states@)[i as int].1,
{
    proof {
        sviews_index(states@, i as int);
    }
    let d = clone_discriminant(&states[i].0);
    let st = clone_state(&states[i].1);
    (d, st)
}

/// A discriminant with the same slots.
fn clone_discriminant(d: &Discriminant) -> (r: Discriminant)
    ensures
        r@ == d@,
{
    d.clone_parts()
}

/// A bucket with the same field table and stamp.
fn clone_state(st: &ReduceState) -> (r: ReduceState)
    ensures
        r@ == st@,
{
    st.clone_parts()
}

} // verus!

verus! {

impl<C: Condition> Reduce<C> {
    /// The boundary logic of one event, decided by the two given boundary
    /// answers, followed by the staleness sweep: a start flushes the
    /// event's old bucket without the event and opens a new one from it;
    /// an end merges the event in — opening a bucket if none is — and
    /// flushes it at once; otherwise the event just lands in its bucket.
    pub fn transform_one_with(
        &mut self,
        output: &mut Vec<Event>,
        event: LogEvent,
        starts_here: bool,
        ends_here: bool,
        now_ms: u64,
    )
        requires
            old(self).wf(),
            event.wf(),
        ensures
            final(self).wf(),
            old(self).same_config(final(self)),
            ({
                let d = discriminant_of(event@, old(self).group_paths());
                let strats = old(self).strategies_view();
                let mid = spec_transform_states(
                    old(self).states_view(),
                    d,
                    event@,
                    strats,
                    starts_here,
                    ends_here,
                    now_ms as int,
                );
                final(self).states_view() == fresh_states(
                    mid,
                    now_ms as int,
                    old(self).expire_after(),
                ) && pushed_logs(
                    old(output)@,
                    final(output)@,
                    spec_transform_out(
                        old(self).states_view(),
                        d,
                        event@,
                        strats,
                        starts_here,
                        ends_here,
                    ) + stale_flushes(mid, now_ms as int, old(self).expire_after()),
                )
            }),
    {
        broadcast use sviews_len, sviews_index;

        let ghost sv0 = self.states_view();
        let ghost strats = self.strategies_view();
        let ghost out0 = output@;
        let discriminant = Discriminant::from_log_event(&event, &self.group_by);
        let ghost d = discriminant@;
        let ghost boundary_out = spec_transform_out(
            sv0,
            d,
            event@,
            strats,
            starts_here,
            ends_here,
        );
        if starts_here {
            match self.states_find(&discriminant) {
                Some(idx) => {
                    proof {
                        lemma_states_at(sv0, d, idx as int);
                    }
                    let (_dk, st) = self.states.remove(idx);
                    proof {
                        assert(st@ == sv0[idx as int].1);
                        assert(fields_wf(st@.fields));
                        assert(sviews(self.states@) =~= sv0.remove(idx as int));
                        assert(states_wf(sviews(self.states@)));
                    }
                    let flushed = st.flush();
                    output.push(Event::Log(flushed));
                    proof {
                        assert(output@.take(out0.len() as int) =~= out0);
                        assert(boundary_out =~= seq![flush_fields(sv0[idx as int].1.fields)]);
                        assert(pushed_logs(out0, output@, boundary_out));
                    }
                },
                None => {
                    proof {
                        lemma_states_at(sv0, d, sv0.len() as int);
                        assert(states_remove(sv0, d) == sv0);
                        assert(boundary_out =~= Seq::<Seq<(Seq<char>, ValueView)>>::empty());
                        assert(output@.take(out0.len() as int) =~= out0);
                        assert(pushed_logs(out0, output@, boundary_out));
                    }
                },
            }
            self.push_or_new_reduce_state(event, discriminant, now_ms);
        } else if ends_here {
            match self.states_find(&discriminant) {
                Some(idx) => {
                    proof {
                        lemma_states_at(sv0, d, idx as int);
                    }
                    let (_dk, mut st) = self.states.remove(idx);
                    proof {
                        assert(st@ == sv0[idx as int].1);
                        assert(fields_wf(st@.fields));
                        assert(sviews(self.states@) =~= sv0.remove(idx as int));
                        assert(states_wf(sviews(self.states@)));
                    }
                    st.add_event(event, &self.merge_strategies, now_ms);
                    let flushed = st.flush();
                    output.push(Event::Log(flushed));
                    proof {
                        assert(output@.take(out0.len() as int) =~= out0);
                        assert(boundary_out =~= seq![
                            flush_fields(add_fields(sv0[idx as int].1.fields, event@, strats)),
                        ]);
                        assert(pushed_logs(out0, output@, boundary_out));
                    }
                },
                None => {
                    proof {
                        lemma_states_at(sv0, d, sv0.len() as int);
                        assert(states_remove(sv0, d) == sv0);
                    }
                    let st = ReduceState::new(event, &self.merge_strategies, now_ms);
                    let flushed = st.flush();
                    output.push(Event::Log(flushed));
                    proof {
                        assert(output@.take(out0.len() as int) =~= out0);
                        assert(boundary_out =~= seq![flush_fields(seed_fields(event@, strats))]);
                        assert(pushed_logs(out0, output@, boundary_out));
                    }
                },
            }
        } else {
            proof {
                assert(boundary_out =~= Seq::<Seq<(Seq<char>, ValueView)>>::empty());
                assert(output@.take(out0.len() as int) =~= out0);
                assert(pushed_logs(out0, output@, boundary_out));
            }
            self.push_or_new_reduce_state(event, discriminant, now_ms);
        }
        let ghost mid = sviews(self.states@);
        let ghost out_mid = output@;
        proof {
            assert(mid == spec_transform_states(
                sv0,
                d,
                event@,
                strats,
                starts_here,
                ends_here,
                now_ms as int,
            ));
            assert(pushed_logs(out0, out_mid, boundary_out));
        }
        self.flush_into(output, now_ms);
        proof {
            let sweep = stale_flushes(mid, now_ms as int, self.expire_after());
            assert(pushed_logs(out_mid, output@, sweep));
            assert(pushed_logs(out0, output@, boundary_out + sweep)) by {
                assert(output@.take(out0.len() as int) =~= out0) by {
                    assert forall|k: int| 0 <= k < out0.len() implies output@[k] == out0[k] by {
                        assert(out_mid.take(out0.len() as int)[k] == out0[k]);
                        assert(output@.take(out_mid.len() as int)[k] == out_mid[k]);
                    }
                }
                assert forall|j: int| 0 <= j < (boundary_out + sweep).len() implies ((
                #[trigger] output@[out0.len() + j]) matches Event::Log(l) && l@ == (boundary_out
                    + sweep)[j] && l.wf()) by {
                    if j < boundary_out.len() {
                        assert(out_mid[out0.len() + j] matches Event::Log(l) && l@
                            == boundary_out[j] && l.wf());
                        assert(output@.take(out_mid.len() as int)[out0.len() + j] == out_mid[out0.len()
                            + j]);
                        assert((boundary_out + sweep)[j] == boundary_out[j]);
                    } else {
                        assert(output@[out_mid.len() + (j - boundary_out.len())] matches Event::Log(
                            l,
                        ) && l@ == sweep[j - boundary_out.len()] && l.wf());
                        assert((boundary_out + sweep)[j] == sweep[j - boundary_out.len()]);
                    }
                }
            }
        }
    }

    /// The outcome the boundary logic and staleness sweep leave behind
    /// under the two given boundary answers: the relation between the
    /// engine and output before and after one event.
    pub open spec fn event_outcome(
        self,
        post: Self,
        out0: Seq<Event>,
        out1: Seq<Event>,
        entries: Seq<(Seq<char>, ValueView)>,
        starts_here: bool,
        ends_here: bool,
        now: int,
    ) -> bool {
        let d = discriminant_of(entries, self.group_paths());
        let strats = self.strategies_view();
        let mid = spec_transform_states(
            self.states_view(),
            d,
            entries,
            strats,
            starts_here,
            ends_here,
            now,
        );
        &&& post.states_view() == fresh_states(mid, now, self.expire_after())
        &&& pushed_logs(
            out0,
            out1,
            spec_transform_out(self.states_view(), d, entries, strats, starts_here, ends_here)
                + stale_flushes(mid, now, self.expire_after()),
        )
    }

    /// Takes in one upstream event: evaluates the configured boundary
    /// conditions on it, then runs the boundary logic and the staleness
    /// sweep. The input stream carries logs only. The two boundary
    /// answers come from the injected conditions; what holds is stated
    /// for whatever they answered, and an unconfigured boundary answers
    /// no.
    pub fn transform_one(&mut self, output: &mut Vec<Event>, event: Event, now_ms: u64)
        requires
            old(self).wf(),
            event matches Event::Log(l) && l.wf(),
        ensures
            final(self).wf(),
            old(self).same_config(final(self)),
            exists|starts_here: bool, ends_here: bool|
                {
                    &&& #[trigger] old(self).event_outcome(
                        *final(self),
                        old(output)@,
                        final(output)@,
                        event->Log_0@,
                        starts_here,
                        ends_here,
                        now_ms as int,
                    )
                    &&& (!old(self).has_starts() ==> starts_here == false)
                    &&& (!old(self).has_ends() ==> ends_here == false)
                },
    {
        let starts_here = match &self.starts_when {
            Some(c) => c.check(&event),
            None => false,
        };
        let ends_here = match &self.ends_when {
            Some(c) => c.check(&event),
            None => false,
        };
        let log = event.into_log();
        self.transform_one_with(output, log, starts_here, ends_here, now_ms);
        proof {
            assert(old(self).event_outcome(
                *self,
                old(output)@,
                output@,
                event->Log_0@,
                starts_here,
                ends_here,
                now_ms as int,
            ));
        }
    }

    /// One iteration of the engine's loop, on whichever readiness event
    /// came first: an item is taken in; a tick runs the staleness sweep;
    /// upstream completion drains every open bucket and ends the loop.
    /// Returns whether the machine is done.
    pub fn transform_step(&mut self, input: StreamInput, output: &mut Vec<Event>, now_ms: u64) -> (
        done: bool)
        requires
            old(self).wf(),
            input matches StreamInput::Item(e) ==> e matches Event::Log(l) && l.wf(),
        ensures
            final(self).wf(),
            old(self).same_config(final(self)),
            done == (input is Closed),
            input is Tick ==> final(self).states_view() == fresh_states(
                old(self).states_view(),
                now_ms as int,
                old(self).expire_after(),
            ) && pushed_logs(
                old(output)@,
                final(output)@,
                stale_flushes(old(self).states_view(), now_ms as int, old(self).expire_after()),
            ),
            input is Closed ==> final(self).states_view() == Seq::<
                (Seq<Option<ValueView>>, StateView),
            >::empty() && pushed_logs(
                old(output)@,
                final(output)@,
                all_flushes(old(self).states_view()),
            ),
            input matches StreamInput::Item(ev) ==> exists|starts_here: bool, ends_here: bool|
                {
                    &&& #[trigger] old(self).event_outcome(
                        *final(self),
                        old(output)@,
                        final(output)@,
                        ev->Log_0@,
                        starts_here,
                        ends_here,
                        now_ms as int,
                    )
                    &&& (!old(self).has_starts() ==> starts_here == false)
                    &&& (!old(self).has_ends() ==> ends_here == false)
                },
    {
        match input {
            StreamInput::Item(event) => {
                self.transform_one(output, event, now_ms);
                false
            },
            StreamInput::Tick => {
                self.flush_into(output, now_ms);
                false
            },
            StreamInput::Closed => {
                self.flush_all_into(output);
                true
            },
        }
    }
}

} // verus!

verus! {

impl<C: Condition> Reduce<C> {
    /// What one loop iteration at some moment leaves behind: the relation
    /// between the engine and output before and after a readiness event
    /// handled at that moment.
    pub open spec fn step_outcome(
        self,
        post: Self,
        out0: Seq<Event>,
        out1: Seq<Event>,
        input: StreamInput,
        done: bool,
        now: int,
    ) -> bool {
        &&& done == (input is Closed)
        &&& (input is Tick ==> post.states_view() == fresh_states(
            self.states_view(),
            now,
            self.expire_after(),
        ) && pushed_logs(out0, out1, stale_flushes(self.states_view(), now, self.expire_after())))
        &&& (input is Closed ==> post.states_view() == Seq::<
            (Seq<Option<ValueView>>, StateView),
        >::empty() && pushed_logs(out0, out1, all_flushes(self.states_view())))
        &&& (input matches StreamInput::Item(ev) ==> exists|starts_here: bool, ends_here: bool|
            {
                &&& #[trigger] self.event_outcome(
                    post,
                    out0,
                    out1,
                    ev->Log_0@,
                    starts_here,
                    ends_here,
                    now,
                )
                &&& (!self.has_starts() ==> starts_here == false)
                &&& (!self.has_ends() ==> ends_here == false)
            })
    }

    /// One iteration of the engine's loop, stamped with the wall clock:
    /// what holds is stated for whatever moment the clock answered.
    pub fn transform_step_now(&mut self, input: StreamInput, output: &mut Vec<Event>) -> (done:
        bool)
        requires
            old(self).wf(),
            input matches StreamInput::Item(e) ==> e matches Event::Log(l) && l.wf(),
        ensures
            final(self).wf(),
            old(self).same_config(final(self)),
            exists|now: int|
                #[trigger] old(self).step_outcome(
                    *final(self),
                    old(output)@,
                    final(output)@,
                    input,
                    done,
                    now,
                ),
    {
        let now_ms = crate::clock::now_timestamp_millis();
        let done = self.transform_step(input, output, now_ms);
        proof {
            assert(old(self).step_outcome(
                *self,
                old(output)@,
                output@,
                input,
                done,
                now_ms as int,
            ));
        }
        done
    }
}

} // verus!
