//! The metric shape of an event: a named measurement with tags, a kind,
//! and one of a fixed set of value forms. Floating-point measurements are
//! carried as IEEE 754 bit patterns; timestamps as nanoseconds since the
//! Unix epoch.

use vstd::prelude::*;
use vstd::string::StrSliceExecFns;
use vstd::utf8::encode_utf8;

use crate::event::{Event, LogEvent};
use crate::lookup::{Lookup, SegView, Segment};
use crate::tree::{tree_set, tree_unset};
use crate::value::{vv_wf, Value, ValueView};

verus! {

/// Whether a metric value is a delta or a level.
#[derive(Debug, Clone, Copy, PartialEq, Eq, Structural)]
pub enum MetricKind {
    Incremental,
    Absolute,
}

/// Which statistic a distribution carries.
#[derive(Debug, Clone, Copy, PartialEq, Eq, Structural)]
pub enum StatisticKind {
    Histogram,
    Summary,
}

/// One of the fixed value forms of a metric. Numeric measurements are
/// IEEE 754 bit patterns.
#[derive(Debug)]
pub enum MetricValue {
    Counter { value: u64 },
    Gauge { value: u64 },
    Uniques { values: Vec<String> },
    Distribution { values: Vec<u64>, sample_rates: Vec<u32>, statistic: StatisticKind },
    AggregatedHistogram { buckets: Vec<u64>, counts: Vec<u32>, count: u32, sum: u64 },
    AggregatedSummary { quantiles: Vec<u64>, values: Vec<u64>, count: u32, sum: u64 },
}

/// The mathematical model of a [`MetricValue`]. String contents are
/// carried as their encoded bytes, as they stand in a log event.
pub enum MetricValueView {
    Counter { value: u64 },
    Gauge { value: u64 },
    Uniques { values: Seq<Seq<char>> },
    Distribution { values: Seq<u64>, sample_rates: Seq<u32>, statistic: StatisticKind },
    AggregatedHistogram { buckets: Seq<u64>, counts: Seq<u32>, count: u32, sum: u64 },
    AggregatedSummary { quantiles: Seq<u64>, values: Seq<u64>, count: u32, sum: u64 },
}

impl View for MetricValue {
    type V = MetricValueView;

    open spec fn view(&self) -> MetricValueView {
        match self {
            MetricValue::Counter { value } => MetricValueView::Counter { value: *value },
            MetricValue::Gauge { value } => MetricValueView::Gauge { value: *value },
            MetricValue::Uniques { values } => MetricValueView::Uniques {
                values: values@.map_values(|s: String| s@),
            },
            MetricValue::Distribution { values, sample_rates, statistic } => {
                MetricValueView::Distribution {
                    values: values@,
                    sample_rates: sample_rates@,
                    statistic: *statistic,
                }
            },
            MetricValue::AggregatedHistogram { buckets, counts, count, sum } => {
                MetricValueView::AggregatedHistogram {
                    buckets: buckets@,
                    counts: counts@,
                    count: *count,
                    sum: *sum,
                }
            },
            MetricValue::AggregatedSummary { quantiles, values, count, sum } => {
                MetricValueView::AggregatedSummary {
                    quantiles: quantiles@,
                    values: values@,
                    count: *count,
                    sum: *sum,
                }
            },
        }
    }
}

/// A named measurement: the metric shape of an event.
#[derive(Debug)]
pub struct Metric {
    pub name: String,
    pub namespace: Option<String>,
    /// Nanoseconds since the Unix epoch, if the source stamped one.
    pub timestamp: Option<i64>,
    /// Tag names and values, sorted by name, unique.
    pub tags: Option<Vec<(String, String)>>,
    pub kind: MetricKind,
    pub value: MetricValue,
}

/// The mathematical model of a [`Metric`].
pub struct MetricView {
    pub name: Seq<char>,
    pub namespace: Option<Seq<char>>,
    pub timestamp: Option<int>,
    pub tags: Option<Seq<(Seq<char>, Seq<char>)>>,
    pub kind: MetricKind,
    pub value: MetricValueView,
}

impl View for Metric {
    type V = MetricView;

    open spec fn view(&self) -> MetricView {
        MetricView {
            name: self.name@,
            namespace: match &self.namespace {
                Some(ns) => Some(ns@),
                None => None,
            },
            timestamp: match self.timestamp {
                Some(t) => Some(t as int),
                None => None,
            },
            tags: match &self.tags {
                Some(tags) => Some(tags@.map_values(|t: (String, String)| (t.0@, t.1@))),
                None => None,
            },
            kind: self.kind,
            value: self.value@,
        }
    }
}

} // verus!

verus! {

/// The views of a list of float bit patterns, as float scalars.
pub open spec fn float_views(s: Seq<u64>) -> Seq<ValueView> {
    Seq::new(s.len(), |i: int| ValueView::Float(s[i]))
}

/// The views of a list of counts, as integer scalars.
pub open spec fn int_views(s: Seq<u32>) -> Seq<ValueView> {
    Seq::new(s.len(), |i: int| ValueView::Integer(s[i] as int))
}

/// The views of a list of strings, as byte-string scalars.
pub open spec fn bytes_views(s: Seq<Seq<char>>) -> Seq<ValueView> {
    Seq::new(s.len(), |i: int| ValueView::Bytes(encode_utf8(s[i])))
}

/// One field segment as a whole path.
pub open spec fn seg1(k: Seq<char>) -> Seq<SegView> {
    seq![SegView::Field(k)]
}

/// Two field segments as a path.
pub open spec fn seg2(a: Seq<char>, b: Seq<char>) -> Seq<SegView> {
    seq![SegView::Field(a), SegView::Field(b)]
}

/// The flat (path, leaf) pairs a metric's value form contributes, under
/// the key of its form.
pub open spec fn value_pairs(v: MetricValueView) -> Seq<(Seq<SegView>, ValueView)> {
    match v {
        MetricValueView::Counter { value } => seq![
            (seg2("counter"@, "value"@), ValueView::Float(value)),
        ],
        MetricValueView::Gauge { value } => seq![
            (seg2("gauge"@, "value"@), ValueView::Float(value)),
        ],
        MetricValueView::Uniques { values } => seq![
            (seg2("set"@, "values"@), ValueView::Array(bytes_views(values))),
        ],
        MetricValueView::Distribution { values, sample_rates, statistic } => seq![
            (seg2("distribution"@, "values"@), ValueView::Array(float_views(values))),
            (seg2("distribution"@, "sample_rates"@), ValueView::Array(int_views(sample_rates))),
            (
                seg2("distribution"@, "statistic"@),
                ValueView::Bytes(
                    match statistic {
                        StatisticKind::Histogram => encode_utf8("histogram"@),
                        StatisticKind::Summary => encode_utf8("summary"@),
                    },
                ),
            ),
        ],
        MetricValueView::AggregatedHistogram { buckets, counts, count, sum } => seq![
            (seg2("aggregated_histogram"@, "buckets"@), ValueView::Array(float_views(buckets))),
            (seg2("aggregated_histogram"@, "counts"@), ValueView::Array(int_views(counts))),
            (seg2("aggregated_histogram"@, "count"@), ValueView::Integer(count as int)),
            (seg2("aggregated_histogram"@, "sum"@), ValueView::Float(sum)),
        ],
        MetricValueView::AggregatedSummary { quantiles, values, count, sum } => seq![
            (seg2("aggregated_summary"@, "quantiles"@), ValueView::Array(float_views(quantiles))),
            (seg2("aggregated_summary"@, "values"@), ValueView::Array(float_views(values))),
            (seg2("aggregated_summary"@, "count"@), ValueView::Integer(count as int)),
            (seg2("aggregated_summary"@, "sum"@), ValueView::Float(sum)),
        ],
    }
}

/// The flat pairs of a metric's tags, each under `tags.<name>`.
pub open spec fn tag_pairs(tags: Seq<(Seq<char>, Seq<char>)>) -> Seq<(Seq<SegView>, ValueView)> {
    Seq::new(
        tags.len(),
        |i: int| (seg2("tags"@, tags[i].0), ValueView::Bytes(encode_utf8(tags[i].1))),
    )
}

/// All the flat (path, leaf) pairs of a metric's log shape, in the order
/// they are written.
pub open spec fn metric_pairs(m: MetricView) -> Seq<(Seq<SegView>, ValueView)> {
    seq![(seg1("name"@), ValueView::Bytes(encode_utf8(m.name)))] + (match m.namespace {
        Some(ns) => seq![(seg1("namespace"@), ValueView::Bytes(encode_utf8(ns)))],
        None => Seq::empty(),
    }) + (match m.timestamp {
        Some(t) => seq![(seg1("timestamp"@), ValueView::Timestamp(t))],
        None => Seq::empty(),
    }) + (match m.tags {
        Some(tags) => tag_pairs(tags),
        None => Seq::empty(),
    }) + seq![
        (
            seg1("kind"@),
            ValueView::Bytes(
                match m.kind {
                    MetricKind::Absolute => encode_utf8("absolute"@),
                    MetricKind::Incremental => encode_utf8("incremental"@),
                },
            ),
        ),
    ] + value_pairs(m.value)
}

/// The entries that writing flat pairs into an event, in order, leaves: a
/// pair whose path the tree refuses is skipped.
pub open spec fn apply_pairs(
    entries: Seq<(Seq<char>, ValueView)>,
    pairs: Seq<(Seq<SegView>, ValueView)>,
) -> Seq<(Seq<char>, ValueView)>
    decreases pairs.len(),
{
    if pairs.len() == 0 {
        entries
    } else {
        let prev = apply_pairs(entries, pairs.drop_last());
        match tree_set(ValueView::Object(prev), pairs.last().0, 0, pairs.last().1) {
            Some(nv) => match nv {
                ValueView::Object(m2) => m2,
                _ => prev,
            },
            None => prev,
        }
    }
}

/// The log shape of a metric: its flat pairs written into a fresh event.
pub open spec fn metric_log_entries(m: MetricView) -> Seq<(Seq<char>, ValueView)> {
    apply_pairs(Seq::empty(), metric_pairs(m))
}

} // verus!

verus! {

/// The encoded bytes of a string, as a fresh vector.
pub fn bytes_of_str(s: &str) -> (r: Vec<u8>)
    ensures
        r@ == encode_utf8(s@),
{
    s.as_bytes_vec()
}

#[verifier::loop_isolation(false)]
fn floats_array(values: &Vec<u64>) -> (r: Value)
    ensures
        r@ == ValueView::Array(float_views(values@)),
        vv_wf(r@),
{
    broadcast use crate::value::arr_view_len, crate::value::arr_view_index;

    let mut out: Vec<Value> = Vec::new();
    let n = values.len();
    let mut i: usize = 0;
    while i < n
        invariant
            i <= n,
            n == values@.len(),
            out@.len() == i,
            crate::value::arr_view(out@) =~= float_views(values@).take(i as int),
        decreases n - i,
    {
        let ghost pre = crate::value::arr_view(out@);
        out.push(Value::Float(values[i]));
        proof {
            assert(crate::value::arr_view(out@) =~= pre.push(ValueView::Float(values@[i as int])));
            assert(crate::value::arr_view(out@) =~= float_views(values@).take((i + 1) as int));
        }
        i = i + 1;
    }
    proof {
        assert(crate::value::arr_view(out@) =~= float_views(values@));
        assert forall|j: int| 0 <= j < crate::value::arr_view(out@).len() implies vv_wf(
            #[trigger] crate::value::arr_view(out@)[j],
        ) by {
            assert(crate::value::arr_view(out@)[j] == float_views(values@)[j]);
        }
        assert(vv_wf(ValueView::Array(crate::value::arr_view(out@))));
    }
    Value::Array(out)
}

#[verifier::loop_isolation(false)]
fn ints_array(values: &Vec<u32>) -> (r: Value)
    ensures
        r@ == ValueView::Array(int_views(values@)),
        vv_wf(r@),
{
    broadcast use crate::value::arr_view_len, crate::value::arr_view_index;

    let mut out: Vec<Value> = Vec::new();
    let n = values.len();
    let mut i: usize = 0;
    while i < n
        invariant
            i <= n,
            n == values@.len(),
            out@.len() == i,
            crate::value::arr_view(out@) =~= int_views(values@).take(i as int),
        decreases n - i,
    {
        let ghost pre = crate::value::arr_view(out@);
        out.push(Value::Integer(values[i] as i64));
        proof {
            assert(crate::value::arr_view(out@) =~= pre.push(
                ValueView::Integer(values@[i as int] as int),
            ));
            assert(crate::value::arr_view(out@) =~= int_views(values@).take((i + 1) as int));
        }
        i = i + 1;
    }
    proof {
        assert(crate::value::arr_view(out@) =~= int_views(values@));
        assert forall|j: int| 0 <= j < crate::value::arr_view(out@).len() implies vv_wf(
            #[trigger] crate::value::arr_view(out@)[j],
        ) by {
            assert(crate::value::arr_view(out@)[j] == int_views(values@)[j]);
        }
        assert(vv_wf(ValueView::Array(crate::value::arr_view(out@))));
    }
    Value::Array(out)
}

#[verifier::loop_isolation(false)]
fn strings_array(values: &Vec<String>) -> (r: Value)
    ensures
        r@ == ValueView::Array(bytes_views(values@.map_values(|s: String| s@))),
        vv_wf(r@),
{
    broadcast use crate::value::arr_view_len, crate::value::arr_view_index;

    let ghost target = bytes_views(values@.map_values(|s: String| s@));
    let mut out: Vec<Value> = Vec::new();
    let n = values.len();
    let mut i: usize = 0;
    while i < n
        invariant
            i <= n,
            n == values@.len(),
            out@.len() == i,
            target == bytes_views(values@.map_values(|s: String| s@)),
            target.len() == n,
            crate::value::arr_view(out@) =~= target.take(i as int),
        decreases n - i,
    {
        let ghost pre = crate::value::arr_view(out@);
        let b = bytes_of_str(values[i].as_str());
        proof {
            assert(values@.map_values(|s: String| s@)[i as int] == values@[i as int]@);
            assert(target[i as int] == ValueView::Bytes(encode_utf8(values@[i as int]@)));
        }
        out.push(Value::Bytes(b));
        proof {
            assert(crate::value::arr_view(out@) =~= pre.push(target[i as int]));
            assert(crate::value::arr_view(out@) =~= target.take((i + 1) as int));
        }
        i = i + 1;
    }
    proof {
        assert(crate::value::arr_view(out@) =~= target);
        assert forall|j: int| 0 <= j < crate::value::arr_view(out@).len() implies vv_wf(
            #[trigger] crate::value::arr_view(out@)[j],
        ) by {
            assert(crate::value::arr_view(out@)[j] == target[j]);
            assert(target[j] == ValueView::Bytes(
                encode_utf8(values@.map_values(|s: String| s@)[j]),
            ));
        }
        assert(vv_wf(ValueView::Array(crate::value::arr_view(out@))));
    }
    Value::Array(out)
}

/// One write of a flat pair into the log shape being built: a refused
/// path is skipped, as [`apply_pairs`] says.
fn put_pair(log: &mut LogEvent, path: &Lookup, value: Value)
    requires
        old(log).wf(),
        path@.len() >= 1,
        vv_wf(value@),
    ensures
        final(log).wf(),
        ValueView::Object(final(log)@) == (match tree_set(
            ValueView::Object(old(log)@),
            path@,
            0,
            value@,
        ) {
            Some(nv) => nv,
            None => ValueView::Object(old(log)@),
        }),
{
    let _write = log.insert(path, value);
}

/// Configuration for the metric-to-log transform: where the host tag
/// lives among the metric's tags.
#[derive(Debug)]
pub struct MetricToLogConfig {
    pub host_tag: Option<Lookup>,
}

impl MetricToLogConfig {
    /// A configuration that names a host tag, exercising every field.
    pub fn generate_config() -> (r: MetricToLogConfig)
        ensures
            r.host_tag matches Some(p) && p@ == seq![SegView::Field("host-tag"@)],
    {
        MetricToLogConfig { host_tag: Some(Lookup::from("host-tag")) }
    }

    /// Builds the transform from this configuration.
    pub fn build(self) -> (r: MetricToLog)
        ensures
            r.host_path() == seq![SegView::Field("tags"@)] + (match self.host_tag {
                Some(p) => p@,
                None => seq![SegView::Field("host"@)],
            }),
    {
        MetricToLog::new(self.host_tag)
    }
}

/// Turns a metric event into its log shape: the metric's fields written
/// into a fresh event, the timestamp normalized, and the host tag moved
/// to the top-level host key.
#[derive(Debug)]
pub struct MetricToLog {
    timestamp_key: Lookup,
    host_tag: Lookup,
}

impl MetricToLog {
    /// The path the timestamp is normalized at.
    pub closed spec fn timestamp_path(&self) -> Seq<SegView> {
        self.timestamp_key@
    }

    /// The tag path the host is taken from.
    pub closed spec fn host_path(&self) -> Seq<SegView> {
        self.host_tag@
    }

    /// Well-formedness: both configured paths have at least one segment.
    pub open spec fn wf(&self) -> bool {
        self.timestamp_path().len() >= 1 && self.host_path().len() >= 1
    }

    /// A transform that takes the host from `tags.<host_tag>`, or from
    /// `tags.host` when none is named.
    pub fn new(host_tag: Option<Lookup>) -> (r: MetricToLog)
        ensures
            r.wf(),
            r.timestamp_path() == seq![SegView::Field("timestamp"@)],
            r.host_path() == seq![SegView::Field("tags"@)] + (match host_tag {
                Some(p) => p@,
                None => seq![SegView::Field("host"@)],
            }),
    {
        let host_key = match host_tag {
            Some(p) => p,
            None => Lookup::from("host"),
        };
        let mut tag_lookup = Lookup::from("tags");
        tag_lookup.extend(host_key);
        MetricToLog { timestamp_key: Lookup::from("timestamp"), host_tag: tag_lookup }
    }
}

} // verus!

verus! {

/// The log shape a metric transforms into: its flat pairs written into a
/// fresh event, the timestamp taken out and written back — the stream's
/// time when the metric carried none — and the host tag moved, with
/// pruning, to the top-level host key.
pub open spec fn transform_entries(
    m: MetricView,
    ts_path: Seq<SegView>,
    host_path: Seq<SegView>,
    now: int,
) -> Seq<(Seq<char>, ValueView)> {
    let base = metric_log_entries(m);
    let removed = tree_unset(ValueView::Object(base), ts_path, 0, false);
    let ts = match removed.1 {
        Some(v) => match v {
            ValueView::Timestamp(t) => ValueView::Timestamp(t),
            _ => ValueView::Timestamp(now),
        },
        None => ValueView::Timestamp(now),
    };
    let with_ts = match tree_set(removed.0, ts_path, 0, ts) {
        Some(nv) => nv,
        None => removed.0,
    };
    let hosted = tree_unset(with_ts, host_path, 0, true);
    let final_tree = match hosted.1 {
        Some(h) => match tree_set(hosted.0, seg1("host"@), 0, h) {
            Some(nv) => nv,
            None => hosted.0,
        },
        None => hosted.0,
    };
    match final_tree {
        ValueView::Object(entries) => entries,
        _ => Seq::empty(),
    }
}

proof fn lemma_apply_pairs_concat(
    entries: Seq<(Seq<char>, ValueView)>,
    p: Seq<(Seq<SegView>, ValueView)>,
    q: Seq<(Seq<SegView>, ValueView)>,
)
    ensures
        apply_pairs(entries, p + q) == apply_pairs(apply_pairs(entries, p), q),
    decreases q.len(),
{
    if q.len() == 0 {
        assert(p + q =~= p);
    } else {
        lemma_apply_pairs_concat(entries, p, q.drop_last());
        assert((p + q).drop_last() =~= p + q.drop_last());
        assert((p + q).last() == q.last());
    }
}

/// The head pairs of a metric's log shape: everything before the value
/// form's own pairs, in the order they are written.
pub open spec fn head_pairs(m: MetricView) -> Seq<(Seq<SegView>, ValueView)> {
    seq![(seg1("name"@), ValueView::Bytes(encode_utf8(m.name)))] + (match m.namespace {
        Some(ns) => seq![(seg1("namespace"@), ValueView::Bytes(encode_utf8(ns)))],
        None => Seq::empty(),
    }) + (match m.timestamp {
        Some(t) => seq![(seg1("timestamp"@), ValueView::Timestamp(t))],
        None => Seq::empty(),
    }) + (match m.tags {
        Some(tags) => tag_pairs(tags),
        None => Seq::empty(),
    }) + seq![
        (
            seg1("kind"@),
            ValueView::Bytes(
                match m.kind {
                    MetricKind::Absolute => encode_utf8("absolute"@),
                    MetricKind::Incremental => encode_utf8("incremental"@),
                },
            ),
        ),
    ]
}

/// Writes a metric's head pairs into the event being built.
#[verifier::loop_isolation(false)]
#[verifier::rlimit(80)]
fn write_head_pairs(log: &mut LogEvent, metric: &Metric)
    requires
        old(log).wf(),
    ensures
        final(log).wf(),
        ValueView::Object(final(log)@) == ValueView::Object(apply_pairs(
            old(log)@,
            head_pairs(metric@),
        )),
{
    let ghost base = old(log)@;
    let ghost mv = metric@;
    let mut written: Ghost<Seq<(Seq<SegView>, ValueView)>> = Ghost(Seq::empty());
    let name_path = Lookup::from("name");
    let name_bytes = bytes_of_str(metric.name.as_str());
    let ghost namev = ValueView::Bytes(name_bytes@);
    put_pair(log, &name_path, Value::Bytes(name_bytes));
    proof {
        written@ = written@.push((seg1("name"@), namev));
        assert(namev == ValueView::Bytes(encode_utf8(mv.name)));
        assert(written@.drop_last() =~= Seq::<(Seq<SegView>, ValueView)>::empty());
                assert(apply_pairs(base, written@.drop_last()) == base);
        assert(apply_pairs(base, written@.drop_last()) == base);
        assert(written@.last() == (seg1("name"@), namev));
        assert(name_path@ == seg1("name"@));
        assert(ValueView::Object(log@) == (match tree_set(
            ValueView::Object(base),
            seg1("name"@),
            0,
            namev,
        ) {
            Some(nv) => nv,
            None => ValueView::Object(base),
        }));
        assert(ValueView::Object(log@) == ValueView::Object(apply_pairs(base, written@)));
    }
    let ghost head_ns = written@;
    match &metric.namespace {
        Some(ns) => {
            let ns_path = Lookup::from("namespace");
            let ns_bytes = bytes_of_str(ns.as_str());
            put_pair(log, &ns_path, Value::Bytes(ns_bytes));
            proof {
                written@ = written@.push(
                    (seg1("namespace"@), ValueView::Bytes(encode_utf8(mv.namespace->0))),
                );
                assert(written@.drop_last() =~= head_ns);
                    assert(apply_pairs(base, written@.drop_last()) == apply_pairs(base, head_ns));
                assert(ValueView::Object(log@) == ValueView::Object(apply_pairs(base, written@)));
            }
        },
        None => {},
    }
    let ghost head_ts = written@;
    match metric.timestamp {
        Some(t) => {
            let ts_path = Lookup::from("timestamp");
            put_pair(log, &ts_path, Value::Timestamp(t));
            proof {
                written@ = written@.push(
                    (seg1("timestamp"@), ValueView::Timestamp(mv.timestamp->0)),
                );
                assert(written@.drop_last() =~= head_ts);
                    assert(apply_pairs(base, written@.drop_last()) == apply_pairs(base, head_ts));
                assert(ValueView::Object(log@) == ValueView::Object(apply_pairs(base, written@)));
            }
        },
        None => {},
    }
    let ghost head_tags = written@;
    match &metric.tags {
        Some(tags) => {
            let ghost tagsv = mv.tags->0;
            proof {
                assert(tagsv.len() == tags@.len());
                assert(forall|j: int|
                    0 <= j < tags@.len() ==> tagsv[j] == ((#[trigger] tags@[j]).0@, tags@[j].1@));
                assert(written@ =~= head_tags + tag_pairs(tagsv).take(0));
            }
            let n = tags.len();
            let mut i: usize = 0;
            while i < n
                invariant
                    i <= n,
                    n == tags@.len(),
                    log.wf(),
                    ValueView::Object(log@) == ValueView::Object(apply_pairs(base, written@)),
                    written@ =~= head_tags + tag_pairs(tagsv).take(i as int),
                decreases n - i,
            {
                let ghost pre = written@;
                let mut tag_path = Lookup::from("tags");
                tag_path.push(Segment::field(tags[i].0.as_str()));
                let tag_bytes = bytes_of_str(tags[i].1.as_str());
                proof {
                    assert(tag_path@ =~= seg2("tags"@, tagsv[i as int].0));
                }
                put_pair(log, &tag_path, Value::Bytes(tag_bytes));
                proof {
                    written@ = written@.push(
                        (
                            seg2("tags"@, tagsv[i as int].0),
                            ValueView::Bytes(encode_utf8(tagsv[i as int].1)),
                        ),
                    );
                    assert(written@.drop_last() =~= pre);
                    assert(apply_pairs(base, written@.drop_last()) == apply_pairs(base, pre));
                    assert(ValueView::Object(log@) == ValueView::Object(apply_pairs(
                        base,
                        written@,
                    )));
                    assert(tag_pairs(tagsv)[i as int] == (
                        seg2("tags"@, tagsv[i as int].0),
                        ValueView::Bytes(encode_utf8(tagsv[i as int].1)),
                    ));
                    assert(written@ =~= head_tags + tag_pairs(tagsv).take((i + 1) as int));
                }
                i = i + 1;
            }
            proof {
                assert(tag_pairs(tagsv).take(n as int) =~= tag_pairs(tagsv));
            }
        },
        None => {},
    }
    let ghost head_kind = written@;
    let kind_path = Lookup::from("kind");
    let kind_bytes = match metric.kind {
        MetricKind::Absolute => bytes_of_str("absolute"),
        MetricKind::Incremental => bytes_of_str("incremental"),
    };
    put_pair(log, &kind_path, Value::Bytes(kind_bytes));
    proof {
        written@ = written@.push(
            (
                seg1("kind"@),
                ValueView::Bytes(
                    match mv.kind {
                        MetricKind::Absolute => encode_utf8("absolute"@),
                        MetricKind::Incremental => encode_utf8("incremental"@),
                    },
                ),
            ),
        );
        assert(written@.drop_last() =~= head_kind);
                    assert(apply_pairs(base, written@.drop_last()) == apply_pairs(base, head_kind));
        assert(ValueView::Object(log@) == ValueView::Object(apply_pairs(base, written@)));
        assert(written@ =~= head_pairs(mv));
    }
}

/// Writes the pairs of a metric's value form into the event being built.
#[verifier::rlimit(80)]
fn write_value_pairs(log: &mut LogEvent, value: MetricValue)
    requires
        old(log).wf(),
    ensures
        final(log).wf(),
        ValueView::Object(final(log)@) == ValueView::Object(apply_pairs(
            old(log)@,
            value_pairs(value@),
        )),
{
    let ghost base = old(log)@;
    let ghost vv = value@;
    let mut written: Ghost<Seq<(Seq<SegView>, ValueView)>> = Ghost(Seq::empty());
    match value {
        MetricValue::Counter { value: v } => {
            let p = two_field_path("counter", "value");
            put_pair(log, &p, Value::Float(v));
            proof {
                written@ = written@.push((seg2("counter"@, "value"@), ValueView::Float(v)));
                assert(written@.drop_last() =~= Seq::<(Seq<SegView>, ValueView)>::empty());
                assert(apply_pairs(base, written@.drop_last()) == base);
                assert(ValueView::Object(log@) == ValueView::Object(apply_pairs(base, written@)));
                assert(written@ =~= value_pairs(vv));
            }
        },
        MetricValue::Gauge { value: v } => {
            let p = two_field_path("gauge", "value");
            put_pair(log, &p, Value::Float(v));
            proof {
                written@ = written@.push((seg2("gauge"@, "value"@), ValueView::Float(v)));
                assert(written@.drop_last() =~= Seq::<(Seq<SegView>, ValueView)>::empty());
                assert(apply_pairs(base, written@.drop_last()) == base);
                assert(ValueView::Object(log@) == ValueView::Object(apply_pairs(base, written@)));
                assert(written@ =~= value_pairs(vv));
            }
        },
        MetricValue::Uniques { values } => {
            let p = two_field_path("set", "values");
            let arr = strings_array(&values);
            let ghost arrv = arr@;
            put_pair(log, &p, arr);
            proof {
                written@ = written@.push((seg2("set"@, "values"@), arrv));
                assert(written@.drop_last() =~= Seq::<(Seq<SegView>, ValueView)>::empty());
                assert(apply_pairs(base, written@.drop_last()) == base);
                assert(ValueView::Object(log@) == ValueView::Object(apply_pairs(base, written@)));
                assert(written@ =~= value_pairs(vv));
            }
        },
        MetricValue::Distribution { values, sample_rates, statistic } => {
            let p1 = two_field_path("distribution", "values");
            let a1 = floats_array(&values);
            put_pair(log, &p1, a1);
            proof {
                written@ = written@.push(
                    (seg2("distribution"@, "values"@), ValueView::Array(float_views(values@))),
                );
                assert(written@.drop_last() =~= Seq::<(Seq<SegView>, ValueView)>::empty());
                assert(apply_pairs(base, written@.drop_last()) == base);
                assert(ValueView::Object(log@) == ValueView::Object(apply_pairs(base, written@)));
            }
            let ghost h2 = written@;
            let p2 = two_field_path("distribution", "sample_rates");
            let a2 = ints_array(&sample_rates);
            put_pair(log, &p2, a2);
            proof {
                written@ = written@.push(
                    (
                        seg2("distribution"@, "sample_rates"@),
                        ValueView::Array(int_views(sample_rates@)),
                    ),
                );
                assert(written@.drop_last() =~= h2);
                    assert(apply_pairs(base, written@.drop_last()) == apply_pairs(base, h2));
                assert(ValueView::Object(log@) == ValueView::Object(apply_pairs(base, written@)));
            }
            let ghost h3 = written@;
            let p3 = two_field_path("distribution", "statistic");
            let stat_bytes = match statistic {
                StatisticKind::Histogram => bytes_of_str("histogram"),
                StatisticKind::Summary => bytes_of_str("summary"),
            };
            put_pair(log, &p3, Value::Bytes(stat_bytes));
            proof {
                written@ = written@.push(
                    (
                        seg2("distribution"@, "statistic"@),
                        ValueView::Bytes(
                            match statistic {
                                StatisticKind::Histogram => encode_utf8("histogram"@),
                                StatisticKind::Summary => encode_utf8("summary"@),
                            },
                        ),
                    ),
                );
                assert(written@.drop_last() =~= h3);
                    assert(apply_pairs(base, written@.drop_last()) == apply_pairs(base, h3));
                assert(ValueView::Object(log@) == ValueView::Object(apply_pairs(base, written@)));
                assert(written@ =~= value_pairs(vv));
            }
        },
        MetricValue::AggregatedHistogram { buckets, counts, count, sum } => {
            let p1 = two_field_path("aggregated_histogram", "buckets");
            let a1 = floats_array(&buckets);
            put_pair(log, &p1, a1);
            proof {
                written@ = written@.push(
                    (
                        seg2("aggregated_histogram"@, "buckets"@),
                        ValueView::Array(float_views(buckets@)),
                    ),
                );
                assert(written@.drop_last() =~= Seq::<(Seq<SegView>, ValueView)>::empty());
                assert(apply_pairs(base, written@.drop_last()) == base);
                assert(ValueView::Object(log@) == ValueView::Object(apply_pairs(base, written@)));
            }
            let ghost h2 = written@;
            let p2 = two_field_path("aggregated_histogram", "counts");
            let a2 = ints_array(&counts);
            put_pair(log, &p2, a2);
            proof {
                written@ = written@.push(
                    (
                        seg2("aggregated_histogram"@, "counts"@),
                        ValueView::Array(int_views(counts@)),
                    ),
                );
                assert(written@.drop_last() =~= h2);
                    assert(apply_pairs(base, written@.drop_last()) == apply_pairs(base, h2));
                assert(ValueView::Object(log@) == ValueView::Object(apply_pairs(base, written@)));
            }
            let ghost h3 = written@;
            let p3 = two_field_path("aggregated_histogram", "count");
            put_pair(log, &p3, Value::Integer(count as i64));
            proof {
                written@ = written@.push(
                    (seg2("aggregated_histogram"@, "count"@), ValueView::Integer(count as int)),
                );
                assert(written@.drop_last() =~= h3);
                    assert(apply_pairs(base, written@.drop_last()) == apply_pairs(base, h3));
                assert(ValueView::Object(log@) == ValueView::Object(apply_pairs(base, written@)));
            }
            let ghost h4 = written@;
            let p4 = two_field_path("aggregated_histogram", "sum");
            put_pair(log, &p4, Value::Float(sum));
            proof {
                written@ = written@.push(
                    (seg2("aggregated_histogram"@, "sum"@), ValueView::Float(sum)),
                );
                assert(written@.drop_last() =~= h4);
                    assert(apply_pairs(base, written@.drop_last()) == apply_pairs(base, h4));
                assert(ValueView::Object(log@) == ValueView::Object(apply_pairs(base, written@)));
                assert(written@ =~= value_pairs(vv));
            }
        },
        MetricValue::AggregatedSummary { quantiles, values, count, sum } => {
            let p1 = two_field_path("aggregated_summary", "quantiles");
            let a1 = floats_array(&quantiles);
            put_pair(log, &p1, a1);
            proof {
                written@ = written@.push(
                    (
                        seg2("aggregated_summary"@, "quantiles"@),
                        ValueView::Array(float_views(quantiles@)),
                    ),
                );
                assert(written@.drop_last() =~= Seq::<(Seq<SegView>, ValueView)>::empty());
                assert(apply_pairs(base, written@.drop_last()) == base);
                assert(ValueView::Object(log@) == ValueView::Object(apply_pairs(base, written@)));
            }
            let ghost h2 = written@;
            let p2 = two_field_path("aggregated_summary", "values");
            let a2 = floats_array(&values);
            put_pair(log, &p2, a2);
            proof {
                written@ = written@.push(
                    (
                        seg2("aggregated_summary"@, "values"@),
                        ValueView::Array(float_views(values@)),
                    ),
                );
                assert(written@.drop_last() =~= h2);
                    assert(apply_pairs(base, written@.drop_last()) == apply_pairs(base, h2));
                assert(ValueView::Object(log@) == ValueView::Object(apply_pairs(base, written@)));
            }
            let ghost h3 = written@;
            let p3 = two_field_path("aggregated_summary", "count");
            put_pair(log, &p3, Value::Integer(count as i64));
            proof {
                written@ = written@.push(
                    (seg2("aggregated_summary"@, "count"@), ValueView::Integer(count as int)),
                );
                assert(written@.drop_last() =~= h3);
                    assert(apply_pairs(base, written@.drop_last()) == apply_pairs(base, h3));
                assert(ValueView::Object(log@) == ValueView::Object(apply_pairs(base, written@)));
            }
            let ghost h4 = written@;
            let p4 = two_field_path("aggregated_summary", "sum");
            put_pair(log, &p4, Value::Float(sum));
            proof {
                written@ = written@.push(
                    (seg2("aggregated_summary"@, "sum"@), ValueView::Float(sum)),
                );
                assert(written@.drop_last() =~= h4);
                    assert(apply_pairs(base, written@.drop_last()) == apply_pairs(base, h4));
                assert(ValueView::Object(log@) == ValueView::Object(apply_pairs(base, written@)));
                assert(written@ =~= value_pairs(vv));
            }
        },
    }
}

impl MetricToLog {
    /// Writes the metric's flat pairs into a fresh event.
    fn metric_to_log_event(&self, metric: Metric) -> (r: LogEvent)
        ensures
            r.wf(),
            r@ == metric_log_entries(metric@),
    {
        let ghost mv = metric@;
        let mut log = LogEvent::new();
        write_head_pairs(&mut log, &metric);
        proof {
            assert(log@ == apply_pairs(Seq::empty(), head_pairs(mv)));
        }
        write_value_pairs(&mut log, metric.value);
        proof {
            lemma_apply_pairs_concat(Seq::empty(), head_pairs(mv), value_pairs(mv.value));
            assert(head_pairs(mv) + value_pairs(mv.value) =~= metric_pairs(mv));
        }
        log
    }
}

/// A two-field path, both keys taken verbatim.
fn two_field_path(a: &str, b: &str) -> (r: Lookup)
    ensures
        r@ == seg2(a@, b@),
{
    let mut p = Lookup::from(a);
    p.push(Segment::field(b));
    proof {
        assert(p@ =~= seg2(a@, b@));
    }
    p
}

} // verus!
verus! {

impl MetricToLog {
    /// Turns one metric into its log shape, stamping `now_ts` — in
    /// nanoseconds since the Unix epoch — where the metric carried no
    /// timestamp of its own.
    pub fn transform_at(&self, metric: Metric, now_ts: i64) -> (r: Option<LogEvent>)
        requires
            self.wf(),
        ensures
            r matches Some(log) && log.wf() && log@ == transform_entries(
                metric@,
                self.timestamp_path(),
                self.host_path(),
                now_ts as int,
            ),
    {
        let ghost mv = metric@;
        let mut log = self.metric_to_log_event(metric);
        let removed = log.remove(&self.timestamp_key, false);
        let ts_value = match removed {
            Some(v) => match v {
                Value::Timestamp(t) => Value::Timestamp(t),
                _ => Value::Timestamp(now_ts),
            },
            None => Value::Timestamp(now_ts),
        };
        let _ts_write = log.insert(&self.timestamp_key, ts_value);
        match log.remove(&self.host_tag, true) {
            Some(host) => {
                let host_key = Lookup::from("host");
                let _host_write = log.insert(&host_key, host);
            },
            None => {},
        }
        Some(log)
    }

    /// Turns one metric event into its log shape. The input stream
    /// carries metrics only.
    pub fn transform(&self, event: Event, now_ts: i64) -> (r: Option<LogEvent>)
        requires
            self.wf(),
            event matches Event::Metric(_),
        ensures
            r matches Some(log) && log.wf() && log@ == transform_entries(
                event->Metric_0@,
                self.timestamp_path(),
                self.host_path(),
                now_ts as int,
            ),
    {
        match event {
            Event::Metric(metric) => self.transform_at(metric, now_ts),
            Event::Log(_) => {
                proof {
                    assert(false);
                }
                None
            },
        }
    }
}

} // verus!
