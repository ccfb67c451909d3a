//! The compute half of a line-based source: configuration and the shaping
//! of one read line into a log event. Reading the lines themselves is I/O
//! and stays with the caller.

use vstd::prelude::*;

use crate::clock::now_timestamp_nanos;
use crate::event::{Event, LogEvent};
use crate::lookup::{Lookup, SegView};
use crate::tree::tree_set;
use crate::value::{Value, ValueView};
use vstd::utf8::encode_utf8;

verus! {

/// The default largest accepted line length: one hundred binary kilobytes.
pub fn default_max_length() -> (r: usize)
    ensures
        r == 102400,
{
    102400
}

/// Configuration for the line source.
#[derive(Debug)]
pub struct StdinConfig {
    /// The largest accepted line length, in bytes.
    pub max_length: usize,
    /// Where the reading machine's name is written; the top-level host
    /// key when unset.
    pub host_key: Option<Lookup>,
}

impl Default for StdinConfig {
    fn default() -> (r: StdinConfig)
        ensures
            r.max_length == 102400,
            r.host_key is None,
    {
        StdinConfig { max_length: default_max_length(), host_key: None }
    }
}

/// The host key a configuration resolves to: the configured one, or the
/// top-level host key.
pub fn resolve_host_key(host_key: Option<Lookup>) -> (r: Lookup)
    ensures
        host_key matches Some(p) ==> r@ == p@,
        host_key is None ==> r@ == seq![SegView::Field("host"@)],
{
    match host_key {
        Some(p) => p,
        None => Lookup::from("host"),
    }
}

/// The entries of the event one read line becomes.
pub open spec fn created_event_entries(
    line: Seq<u8>,
    host_key: Seq<SegView>,
    hostname: Option<Seq<char>>,
    now: int,
) -> Seq<(Seq<char>, ValueView)> {
    let e0 = Seq::<(Seq<char>, ValueView)>::empty();
    let e1 = set_or_keep(e0, seq![SegView::Field("message"@)], ValueView::Bytes(line));
    let e2 = set_or_keep(e1, seq![SegView::Field("timestamp"@)], ValueView::Timestamp(now));
    let e3 = set_or_keep(
        e2,
        seq![SegView::Field("source_type"@)],
        ValueView::Bytes(encode_utf8("stdin"@)),
    );
    match hostname {
        Some(h) => set_or_keep(e3, host_key, ValueView::Bytes(encode_utf8(h))),
        None => e3,
    }
}

/// One write into an event's entries; a refused path leaves them as they
/// were.
pub open spec fn set_or_keep(
    entries: Seq<(Seq<char>, ValueView)>,
    path: Seq<SegView>,
    value: ValueView,
) -> Seq<(Seq<char>, ValueView)> {
    match tree_set(ValueView::Object(entries), path, 0, value) {
        Some(nv) => match nv {
            ValueView::Object(m2) => m2,
            _ => entries,
        },
        None => entries,
    }
}

/// Shapes one read line into a log event: the line as the message, the
/// given time as the timestamp, the source type, and — when the machine's
/// name is known — that name under the host key.
pub fn create_event(line: Vec<u8>, host_key: Lookup, hostname: Option<String>, now_ts: i64) -> (r:
    Event)
    requires
        host_key@.len() >= 1,
    ensures
        r matches Event::Log(l) && l.wf() && l@ == created_event_entries(
            line@,
            host_key@,
            match hostname {
                Some(h) => Some(h@),
                None => None,
            },
            now_ts as int,
        ),
{
    let mut log = LogEvent::new();
    let message_key = Lookup::from("message");
    let _m = log.insert(&message_key, Value::Bytes(line));
    let timestamp_key = Lookup::from("timestamp");
    let _t = log.insert(&timestamp_key, Value::Timestamp(now_ts));
    let source_type_key = Lookup::from("source_type");
    let source_type = crate::metric::bytes_of_str("stdin");
    let _s = log.insert(&source_type_key, Value::Bytes(source_type));
    match hostname {
        Some(h) => {
            let host_bytes = crate::metric::bytes_of_str(h.as_str());
            let _h = log.insert(&host_key, Value::Bytes(host_bytes));
        },
        None => {},
    }
    Event::Log(log)
}

/// That an event is the log one read line becomes, at some moment.
pub open spec fn created_from(
    r: Event,
    line: Seq<u8>,
    host_key: Seq<SegView>,
    hostname: Option<String>,
    now: int,
) -> bool {
    r matches Event::Log(l) && l.wf() && l@ == created_event_entries(
        line,
        host_key,
        match hostname {
            Some(h) => Some(h@),
            None => None,
        },
        now,
    )
}

/// As [`create_event`], stamped with the wall clock: what comes back is
/// the line's event at some moment.
pub fn create_event_now(line: Vec<u8>, host_key: Lookup, hostname: Option<String>) -> (r: Event)
    requires
        host_key@.len() >= 1,
    ensures
        exists|now: int| #[trigger] created_from(r, line@, host_key@, hostname, now),
{
    let now_ts = now_timestamp_nanos();
    let r = create_event(line, host_key, hostname, now_ts);
    proof {
        assert(created_from(r, line@, host_key@, hostname, now_ts as int));
    }
    r
}

} // verus!
