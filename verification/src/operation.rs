//! Operation spans: one attempted or observed action on the register,
//! together with the window of time during which it was outstanding.

use crate::text::{decimal, push_decimal};
use vstd::prelude::*;
use vstd::string::StringExecFns;

verus! {

/// Payload written by a Put and observed by a Get.
pub type Value = u64;

/// Index of a node; nodes are numbered from zero.
pub type Node = usize;

/// A clock reading. Readings are unique and grow over time.
pub type Timestamp = u64;

/// What an operation asked for.
#[derive(Debug, Clone, Copy, PartialEq, Eq, Structural)]
pub enum OpInputs {
    /// Write `val` to the register.
    Put { val: Value },
    /// Read the register.
    Get,
    /// A write whose outcome is unknown: it may or may not have happened.
    Fail,
    /// The node stopped submitting operations.
    Stopped,
    /// The node resumed after a stop.
    Resumed,
}

/// What an operation was answered with.
#[derive(Debug, Clone, Copy, PartialEq, Eq, Structural)]
pub enum OpResult {
    /// Acknowledgement of a Put.
    Put,
    /// Answer to a Get; `None` when the register held nothing.
    Get { val: Option<Value> },
    /// No answer: carried by Fail, Stopped and Resumed.
    Dummy,
}

/// One operation with the window `[ts_req, ts_ack)` in which it was outstanding.
#[derive(Debug, Clone, Copy, PartialEq, Eq, Structural)]
pub struct OpSpan {
    /// What was asked for.
    pub inputs: OpInputs,
    /// What it was answered with.
    pub result: OpResult,
    /// When the request was made.
    pub ts_req: Timestamp,
    /// When the answer came. A marker has no duration: both times are equal.
    pub ts_ack: Timestamp,
}

impl OpSpan {
    /// Normal operations are Put, Get and Fail; Stopped and Resumed are markers.
    pub open spec fn normal(&self) -> bool {
        self.inputs is Put || self.inputs is Get || self.inputs is Fail
    }

    /// A span is well formed when its answer has the shape its request calls
    /// for, a normal operation takes time, and a marker is instantaneous.
    pub open spec fn wf(&self) -> bool {
        match self.inputs {
            OpInputs::Put { .. } => self.result is Put && self.ts_req < self.ts_ack,
            OpInputs::Get => self.result is Get && self.ts_req < self.ts_ack,
            OpInputs::Fail => self.result is Dummy && self.ts_req < self.ts_ack,
            OpInputs::Stopped | OpInputs::Resumed => self.result is Dummy && self.ts_req
                == self.ts_ack,
        }
    }

    /// The value that a Get's answer gives; `None` when nothing was found
    /// (and for every span that is not an answered Get).
    pub open spec fn observed(&self) -> Option<Value> {
        match self.result {
            OpResult::Get { val } => val,
            _ => None,
        }
    }

    /// A successful Put of `val_i`, outstanding over `[ts_req, ts_ack)`.
    pub fn put(val_i: Value, ts_req: Timestamp, ts_ack: Timestamp) -> (span: Self)
        requires
            ts_ack > ts_req,
        ensures
            span == (OpSpan {
                inputs: OpInputs::Put { val: val_i },
                result: OpResult::Put,
                ts_req,
                ts_ack,
            }),
            span.wf(),
    {
        OpSpan { inputs: OpInputs::Put { val: val_i }, result: OpResult::Put, ts_req, ts_ack }
    }

    /// A successful Get that observed `val_o` (`None`: nothing found),
    /// outstanding over `[ts_req, ts_ack)`.
    pub fn get(val_o: Option<Value>, ts_req: Timestamp, ts_ack: Timestamp) -> (span: Self)
        requires
            ts_ack > ts_req,
        ensures
            span == (OpSpan {
                inputs: OpInputs::Get,
                result: OpResult::Get { val: val_o },
                ts_req,
                ts_ack,
            }),
            span.wf(),
    {
        OpSpan { inputs: OpInputs::Get, result: OpResult::Get { val: val_o }, ts_req, ts_ack }
    }

    /// A failed operation, outstanding over `[ts_req, ts_ack)`; it leaves the
    /// register's content uncertain.
    pub fn fail(ts_req: Timestamp, ts_ack: Timestamp) -> (span: Self)
        requires
            ts_ack > ts_req,
        ensures
            span == (OpSpan { inputs: OpInputs::Fail, result: OpResult::Dummy, ts_req, ts_ack }),
            span.wf(),
    {
        OpSpan { inputs: OpInputs::Fail, result: OpResult::Dummy, ts_req, ts_ack }
    }

    /// The marker that a node stopped at time `ts`.
    pub fn stopped(ts: Timestamp) -> (span: Self)
        ensures
            span == (OpSpan {
                inputs: OpInputs::Stopped,
                result: OpResult::Dummy,
                ts_req: ts,
                ts_ack: ts,
            }),
            span.wf(),
    {
        OpSpan { inputs: OpInputs::Stopped, result: OpResult::Dummy, ts_req: ts, ts_ack: ts }
    }

    /// The marker that a node resumed at time `ts`.
    pub fn resumed(ts: Timestamp) -> (span: Self)
        ensures
            span == (OpSpan {
                inputs: OpInputs::Resumed,
                result: OpResult::Dummy,
                ts_req: ts,
                ts_ack: ts,
            }),
            span.wf(),
    {
        OpSpan { inputs: OpInputs::Resumed, result: OpResult::Dummy, ts_req: ts, ts_ack: ts }
    }

    /// Whether this is a normal operation rather than a marker.
    #[verifier::when_used_as_spec(normal)]
    pub fn is_normal(&self) -> (b: bool)
        ensures
            b == self.normal(),
    {
        match self.inputs {
            OpInputs::Put { .. } | OpInputs::Get | OpInputs::Fail => true,
            _ => false,
        }
    }

    /// Whether the span is well formed.
    pub fn is_well_formed(&self) -> (ok: bool)
        ensures
            ok == self.wf(),
    {
        match self.inputs {
            OpInputs::Put { .. } => match self.result {
                OpResult::Put => self.ts_req < self.ts_ack,
                _ => false,
            },
            OpInputs::Get => match self.result {
                OpResult::Get { .. } => self.ts_req < self.ts_ack,
                _ => false,
            },
            OpInputs::Fail => match self.result {
                OpResult::Dummy => self.ts_req < self.ts_ack,
                _ => false,
            },
            OpInputs::Stopped | OpInputs::Resumed => match self.result {
                OpResult::Dummy => self.ts_req == self.ts_ack,
                _ => false,
            },
        }
    }

    /// The span as text: what it asked for, followed, for an answered Get, by
    /// what it observed in brackets.
    pub open spec fn text(&self) -> Seq<char> {
        (match self.inputs {
            OpInputs::Put { val } => "Put("@ + decimal(val as nat) + ")"@,
            OpInputs::Get => "Get"@,
            OpInputs::Fail => "Fail"@,
            OpInputs::Stopped => "Stopped"@,
            OpInputs::Resumed => "Resumed"@,
        }) + (match self.result {
            OpResult::Get { val: Some(v) } => "("@ + decimal(v as nat) + ")"@,
            OpResult::Get { val: None } => "(nil)"@,
            _ => Seq::empty(),
        })
    }

    /// The span as text, followed by its window.
    pub open spec fn timed_text(&self) -> Seq<char> {
        self.text() + "<"@ + decimal(self.ts_req as nat) + ">-<"@ + decimal(self.ts_ack as nat)
            + ">"@
    }

    /// Appends the span as text to `out`.
    pub fn push_text(&self, out: &mut String)
        ensures
            final(out)@ == old(out)@ + self.text(),
    {
        match self.inputs {
            OpInputs::Put { val } => {
                out.append("Put(");
                push_decimal(out, val);
                out.append(")");
            },
            OpInputs::Get => {
                out.append("Get");
            },
            OpInputs::Fail => {
                out.append("Fail");
            },
            OpInputs::Stopped => {
                out.append("Stopped");
            },
            OpInputs::Resumed => {
                out.append("Resumed");
            },
        }
        match self.result {
            OpResult::Get { val: Some(v) } => {
                out.append("(");
                push_decimal(out, v);
                out.append(")");
            },
            OpResult::Get { val: None } => {
                out.append("(nil)");
            },
            _ => {},
        }
    }

    /// The span as text, such as `Put(8)`, `Get(7)`, `Get(nil)` or `Stopped`.
    pub fn to_string(&self) -> (s: String)
        ensures
            s@ == self.text(),
    {
        let mut s = String::new();
        self.push_text(&mut s);
        s
    }

    /// The span as text with its window, such as `Put(8)<100>-<105>`.
    pub fn to_debug_string(&self) -> (s: String)
        ensures
            s@ == self.timed_text(),
    {
        let mut s = String::new();
        self.push_text(&mut s);
        s.append("<");
        push_decimal(&mut s, self.ts_req);
        s.append(">-<");
        push_decimal(&mut s, self.ts_ack);
        s.append(">");
        s
    }
}

} // verus!
