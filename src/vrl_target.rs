use crate::access::{get_at, opt_view};
use crate::error::{accepted_text, kind_text, Access, ValueKind};
use crate::log_event::{empty_fields, key_path, log_insert, EventMetadata, LogEvent};
use crate::log_target::{
    target_insert, target_remove, target_root, Target as LogTarget, TargetView as LogTargetView,
};
use crate::metric::Metric;
use crate::metric_target::{
    metric_field, metric_read, metric_remove, metric_root, metric_write, removable, writable,
    Target as MetricTarget,
};
use crate::path::{path_text, Path, SegmentView};
use crate::value::{lemma_value_view, Value, ValueView};
use vstd::prelude::*;

verus! {

broadcast use lemma_value_view;

/// The field names that records use for their message and capture time,
/// settled once at startup.
#[derive(Clone, Debug)]
pub struct LogSchema {
    message_key: String,
    timestamp_key: String,
}

impl LogSchema {
    pub closed spec fn spec_message_key(&self) -> Seq<char> {
        self.message_key@
    }

    pub closed spec fn spec_timestamp_key(&self) -> Seq<char> {
        self.timestamp_key@
    }

    pub fn new(message_key: String, timestamp_key: String) -> (r: LogSchema)
        ensures
            r.spec_message_key() == message_key@,
            r.spec_timestamp_key() == timestamp_key@,
    {
        LogSchema { message_key, timestamp_key }
    }

    /// The usual names, `message` and `timestamp`.
    pub fn standard() -> (r: LogSchema)
        ensures
            r.spec_message_key() == "message"@,
            r.spec_timestamp_key() == "timestamp"@,
    {
        LogSchema { message_key: "message".to_owned(), timestamp_key: "timestamp".to_owned() }
    }

    pub fn message_key(&self) -> (r: &str)
        ensures
            r@ == self.spec_message_key(),
    {
        self.message_key.as_str()
    }

    pub fn timestamp_key(&self) -> (r: &str)
        ensures
            r@ == self.spec_timestamp_key(),
    {
        self.timestamp_key.as_str()
    }
}

/// An event: a log record or a metric.
#[derive(Clone, Debug, PartialEq)]
pub enum Event {
    Log(LogEvent),
    Metric(Metric),
}

/// The fields of a record made to carry `x` as its message.
pub open spec fn message_fields(schema: LogSchema, x: ValueView) -> Map<Seq<char>, ValueView> {
    log_insert(empty_fields(), key_path(schema.spec_message_key()), x)
}

/// `e` is a log record with fields `f` and metadata `md`.
pub open spec fn is_log(e: Event, f: Map<Seq<char>, ValueView>, md: EventMetadata) -> bool {
    &&& e is Log
    &&& e->Log_0@ == f
    &&& e->Log_0.spec_metadata() == md
}

/// The events that a log value becomes: one per element of an array, each
/// holding the element as its message; one holding the fields of a map; one
/// holding any other value as its message.
pub open spec fn value_events(
    v: ValueView,
    md: EventMetadata,
    schema: LogSchema,
    r: Seq<Event>,
) -> bool {
    match v {
        ValueView::Array(items) => r.len() == items.len() && forall|i: int|
            0 <= i < r.len() ==> is_log(#[trigger] r[i], message_fields(schema, items[i]), md),
        ValueView::Object(f) => r.len() == 1 && is_log(r[0], f, md),
        _ => r.len() == 1 && is_log(r[0], message_fields(schema, v), md),
    }
}

/// A record carrying `x` as its message.
fn message_event(x: Value, metadata: EventMetadata, schema: &LogSchema) -> (r: Event)
    ensures
        is_log(r, message_fields(*schema, x@), metadata),
{
    let mut log = LogEvent::new_with_metadata(metadata);
    let _ = log.insert(schema.message_key(), x);
    Event::Log(log)
}

/// Turns a log value back into events; an array fans out into one event per
/// element, each with its own copy of the metadata.
pub fn value_into_events(value: Value, metadata: EventMetadata, schema: &LogSchema) -> (r: Vec<
    Event,
>)
    ensures
        value_events(value@, metadata, *schema, r@),
{
    match value {
        Value::Array(items) => {
            let mut items = items;
            let ghost iv = items@.map_values(|x: Value| x@);
            let n = items.len();
            let mut out: Vec<Event> = Vec::new();
            let mut i: usize = 0;
            while i < n
                invariant
                    n == items@.len(),
                    i <= n,
                    out@.len() == i,
                    forall|j: int| i <= j < n ==> (#[trigger] items@[j])@ == iv[j],
                    iv.len() == n,
                    forall|j: int|
                        0 <= j < i ==> is_log(
                            #[trigger] out@[j],
                            message_fields(*schema, iv[j]),
                            metadata,
                        ),
                decreases n - i,
            {
                let mut x = Value::Null;
                std::mem::swap(&mut items[i], &mut x);
                out.push(message_event(x, metadata, schema));
                i = i + 1;
            }
            out
        },
        Value::Object(fields) => {
            let log = LogEvent::from_map_with_metadata(fields, metadata);
            let mut out: Vec<Event> = Vec::new();
            out.push(Event::Log(log));
            out
        },
        other => {
            let mut out: Vec<Event> = Vec::new();
            out.push(message_event(other, metadata, schema));
            out
        },
    }
}

/// The message for a path outside what `access` accepts, with the path
/// written as a program writes it.
pub open spec fn invalid_path_message(p: Seq<SegmentView>, access: Access) -> Seq<char> {
    "invalid path "@ + seq!['.'] + path_text(p) + ": expected one of "@ + accepted_text(access)
}

pub open spec fn metric_root_message() -> Seq<char> {
    "cannot set root path"@
}

pub open spec fn root_not_map_message() -> Seq<char> {
    "Cannot insert as root of Event unless it is a map."@
}

pub open spec fn wrong_kind_message(k: ValueKind) -> Seq<char> {
    "expected "@ + kind_text(k)
}

/// An event as an expression program sees it, with one get, insert and
/// remove for both kinds.
#[derive(Clone, Debug)]
pub enum VrlTarget {
    Log(LogTarget),
    Metric(MetricTarget),
}

impl VrlTarget {
    /// A record becomes a free value whose root an assignment can replace
    /// with anything; a metric keeps its fixed fields.
    pub fn new(event: Event) -> (r: VrlTarget)
        ensures
            match event {
                Event::Log(e) => r is Log && r->Log_0@ == LogTargetView::Value(ValueView::Object(e@))
                    && r->Log_0.spec_metadata() == e.spec_metadata(),
                Event::Metric(m) => r is Metric && r->Metric_0@ == m@,
            },
    {
        match event {
            Event::Log(e) => {
                let (fields, metadata) = e.into_parts();
                VrlTarget::Log(LogTarget::Value(Value::Object(fields), metadata))
            },
            Event::Metric(m) => VrlTarget::Metric(MetricTarget::Event(m)),
        }
    }

    /// The value at `path`.
    pub fn get(&self, path: &Path) -> (r: Result<Option<Value>, String>)
        ensures
            match self {
                VrlTarget::Log(t) => r is Ok && opt_view(r->Ok_0) == get_at(target_root(t@), path@),
                VrlTarget::Metric(t) => if path@.len() == 0 {
                    r is Ok && opt_view(r->Ok_0) == Some(metric_root(t@))
                } else {
                    match metric_field(path@) {
                        Some(f) => r is Ok && opt_view(r->Ok_0) == metric_read(t@, f),
                        None => r is Err && r->Err_0@ == invalid_path_message(path@, Access::Read),
                    }
                },
            },
    {
        match self {
            VrlTarget::Log(t) => match t.get(path) {
                Ok(v) => Ok(v),
                Err(e) => Err(e.program_message()),
            },
            VrlTarget::Metric(t) => match t.get(path) {
                Ok(v) => Ok(v),
                Err(e) => Err(e.program_message()),
            },
        }
    }

    /// Stores `value` at `path`.
    pub fn insert(&mut self, path: &Path, value: Value) -> (r: Result<(), String>)
        ensures
            match *old(self) {
                VrlTarget::Log(t) => (*final(self)) is Log && match target_insert(t@, path@, value@) {
                    Some(v) => r is Ok && (*final(self))->Log_0@ == v,
                    None => r is Err && r->Err_0@ == root_not_map_message() && (*final(self))->Log_0@
                        == t@,
                },
                VrlTarget::Metric(t) => (*final(self)) is Metric && if path@.len() == 0 {
                    r is Err && r->Err_0@ == metric_root_message() && (*final(self))->Metric_0@ == t@
                } else {
                    match metric_field(path@) {
                        Some(f) => if writable(f) {
                            match metric_write(t@, f, value@) {
                                Ok(m) => r is Ok && (*final(self))->Metric_0@ == m,
                                Err(k) => r is Err && r->Err_0@ == wrong_kind_message(k) && (*final(self))->Metric_0@ == t@,
                            }
                        } else {
                            r is Err && r->Err_0@ == invalid_path_message(path@, Access::Write)
                                && (*final(self))->Metric_0@ == t@
                        },
                        None => r is Err && r->Err_0@ == invalid_path_message(path@, Access::Write)
                            && (*final(self))->Metric_0@ == t@,
                    }
                },
            },
    {
        match self {
            VrlTarget::Log(t) => match t.insert(path, value) {
                Ok(()) => Ok(()),
                Err(e) => Err(e.program_message()),
            },
            VrlTarget::Metric(t) => match t.insert(path, value) {
                Ok(()) => Ok(()),
                Err(e) => Err(e.program_message()),
            },
        }
    }

    /// Removes what `path` addresses and returns it.
    pub fn remove(&mut self, path: &Path, compact: bool) -> (r: Result<Option<Value>, String>)
        ensures
            match *old(self) {
                VrlTarget::Log(t) => (*final(self)) is Log && r is Ok && (*final(self))->Log_0@
                    == target_remove(t@, path@, compact).0 && opt_view(r->Ok_0) == target_remove(
                    t@,
                    path@,
                    compact,
                ).1,
                VrlTarget::Metric(t) => (*final(self)) is Metric && if path@.len() == 0 {
                    r is Err && r->Err_0@ == metric_root_message() && (*final(self))->Metric_0@ == t@
                } else {
                    match metric_field(path@) {
                        Some(f) => if removable(f) {
                            r is Ok && (*final(self))->Metric_0@ == metric_remove(t@, f).0 && opt_view(
                                r->Ok_0,
                            ) == metric_remove(t@, f).1
                        } else {
                            r is Err && r->Err_0@ == invalid_path_message(path@, Access::Write)
                                && (*final(self))->Metric_0@ == t@
                        },
                        None => r is Err && r->Err_0@ == invalid_path_message(path@, Access::Write)
                            && (*final(self))->Metric_0@ == t@,
                    }
                },
            },
    {
        match self {
            VrlTarget::Log(t) => match t.remove(path, compact) {
                Ok(v) => Ok(v),
                Err(e) => Err(e.program_message()),
            },
            VrlTarget::Metric(t) => match t.remove(path, compact) {
                Ok(v) => Ok(v),
                Err(e) => Err(e.program_message()),
            },
        }
    }

    /// Turns the target back into events: a metric gives itself, and a log
    /// value gives what `value_into_events` makes of it.
    pub fn into_events(self, schema: &LogSchema) -> (r: Vec<Event>)
        ensures
            match self {
                VrlTarget::Log(LogTarget::Event(e)) => r@.len() == 1 && is_log(
                    r@[0],
                    e@,
                    e.spec_metadata(),
                ),
                VrlTarget::Log(LogTarget::Value(v, md)) => value_events(v@, md, *schema, r@),
                VrlTarget::Metric(t) => r@.len() == 1 && r@[0] is Metric && r@[0]->Metric_0@
                    == t@,
            },
    {
        match self {
            VrlTarget::Log(LogTarget::Event(e)) => {
                let mut out: Vec<Event> = Vec::new();
                out.push(Event::Log(e));
                out
            },
            VrlTarget::Log(LogTarget::Value(v, md)) => value_into_events(v, md, schema),
            VrlTarget::Metric(t) => {
                let mut out: Vec<Event> = Vec::new();
                out.push(Event::Metric(t.into_metric()));
                out
            },
        }
    }
}

} // verus!
