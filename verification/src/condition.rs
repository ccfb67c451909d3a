//! Conditions: an injected capability deciding a yes/no question about an
//! event. The engine only ever sees the boolean; condition internals stay
//! with the caller.

use vstd::prelude::*;

use crate::event::Event;
use crate::lookup::Lookup;
use crate::tree::tree_get;
use crate::value::ValueView;

verus! {

/// A yes/no question about an event, evaluated outside the engine.
pub trait Condition {
    fn check(&self, e: &Event) -> bool;
}

/// Configuration for the condition that an event is the log shape.
#[derive(Debug, Clone, Copy, Default, PartialEq, Eq, Structural)]
pub struct IsLogConfig {}

impl IsLogConfig {
    /// Builds the condition; never fails.
    pub fn build(&self) -> (r: Result<IsLog, String>)
        ensures
            r matches Ok(c),
    {
        Ok(IsLog {  })
    }
}

/// The condition that an event is the log shape.
#[derive(Debug, Clone, Copy)]
pub struct IsLog {}

impl IsLog {
    /// Whether the event is a log.
    pub fn check(&self, e: &Event) -> (r: bool)
        ensures
            r == (e matches Event::Log(_)),
    {
        e.is_log()
    }

    /// As [`IsLog::check`], with the reason on the no side.
    pub fn check_with_context(&self, e: &Event) -> (r: Result<(), String>)
        ensures
            r matches Ok(()) <==> e matches Event::Log(_),
            e matches Event::Metric(_) ==> (r matches Err(m) && m@ == "event is not a log type"@),
    {
        if self.check(e) {
            Ok(())
        } else {
            Err(String::from_str("event is not a log type"))
        }
    }
}

impl Condition for IsLog {
    fn check(&self, e: &Event) -> (r: bool)
        ensures
            r == (e matches Event::Log(_)),
    {
        IsLog::check(self, e)
    }
}

/// The condition that a log event holds any value under a path; a metric
/// holds none.
#[derive(Debug)]
pub struct FieldExists {
    pub path: Lookup,
}

impl Condition for FieldExists {
    fn check(&self, e: &Event) -> (r: bool)
        ensures
            match e {
                Event::Log(l) => l.wf() ==> r == (tree_get(
                    ValueView::Object(l@),
                    self.path@,
                    0,
                ) is Some),
                Event::Metric(_) => r == false,
            },
    {
        match e {
            Event::Log(l) => {
                let got = l.get(&self.path);
                match got {
                    Some(_) => true,
                    None => false,
                }
            },
            Event::Metric(_) => false,
        }
    }
}

} // verus!
