use crate::value::{SortedMap, Timestamp};
use vstd::prelude::*;

verus! {

/// Whether a metric's value is a total or a change since the last report.
#[derive(Clone, Copy, Debug, PartialEq, Eq, Structural)]
pub enum MetricKind {
    Incremental,
    Absolute,
}

/// The observation a metric carries. Floating-point payloads are held as
/// their IEEE-754 bit patterns.
#[derive(Clone, Debug, PartialEq)]
pub enum MetricValue {
    Counter { bits: u64 },
    Gauge { bits: u64 },
    Distinct { values: Vec<String> },
    Distribution { sample_bits: Vec<u64> },
}

/// The name of the kind of observation, as a metric's `type` reads.
pub open spec fn type_label(v: MetricValue) -> Seq<char> {
    match v {
        MetricValue::Counter { .. } => "counter"@,
        MetricValue::Gauge { .. } => "gauge"@,
        MetricValue::Distinct { .. } => "set"@,
        MetricValue::Distribution { .. } => "distribution"@,
    }
}

/// The name of a metric kind, as a metric's `kind` reads.
pub open spec fn kind_name(k: MetricKind) -> Seq<char> {
    match k {
        MetricKind::Absolute => "absolute"@,
        MetricKind::Incremental => "incremental"@,
    }
}

impl MetricValue {
    pub fn type_label(&self) -> (r: &'static str)
        ensures
            r@ == type_label(*self),
    {
        match self {
            MetricValue::Counter { .. } => "counter",
            MetricValue::Gauge { .. } => "gauge",
            MetricValue::Distinct { .. } => "set",
            MetricValue::Distribution { .. } => "distribution",
        }
    }
}

impl MetricKind {
    pub fn name(&self) -> (r: &'static str)
        ensures
            r@ == kind_name(*self),
    {
        match self {
            MetricKind::Absolute => "absolute",
            MetricKind::Incremental => "incremental",
        }
    }
}

pub type MetricTags = SortedMap<String>;

/// The content of a tag set.
pub open spec fn tags_view(t: MetricTags) -> Map<Seq<char>, Seq<char>> {
    t@.map_values(|s: String| s@)
}

pub open spec fn opt_tags_view(t: Option<MetricTags>) -> Option<Map<Seq<char>, Seq<char>>> {
    match t {
        Some(m) => Some(tags_view(m)),
        None => None,
    }
}

pub open spec fn opt_string_view(s: Option<String>) -> Option<Seq<char>> {
    match s {
        Some(x) => Some(x@),
        None => None,
    }
}

/// A metric observation: exactly these fields, none added at run time.
#[derive(Clone, Debug, PartialEq)]
pub struct Metric {
    name: String,
    namespace: Option<String>,
    timestamp: Option<Timestamp>,
    kind: MetricKind,
    tags: Option<MetricTags>,
    value: MetricValue,
}

pub struct MetricView {
    pub name: Seq<char>,
    pub namespace: Option<Seq<char>>,
    pub timestamp: Option<Timestamp>,
    pub kind: MetricKind,
    pub tags: Option<Map<Seq<char>, Seq<char>>>,
    pub value: MetricValue,
}

impl View for Metric {
    type V = MetricView;

    closed spec fn view(&self) -> MetricView {
        MetricView {
            name: self.name@,
            namespace: opt_string_view(self.namespace),
            timestamp: self.timestamp,
            kind: self.kind,
            tags: opt_tags_view(self.tags),
            value: self.value,
        }
    }
}

impl Metric {
    pub fn new(name: &str, kind: MetricKind, value: MetricValue) -> (r: Metric)
        ensures
            r@ == (MetricView {
                name: name@,
                namespace: None,
                timestamp: None,
                kind,
                tags: None,
                value,
            }),
    {
        Metric {
            name: name.to_owned(),
            namespace: None,
            timestamp: None,
            kind,
            tags: None,
            value,
        }
    }

    pub fn with_namespace(self, namespace: Option<&str>) -> (r: Metric)
        ensures
            r@ == (MetricView {
                namespace: match namespace {
                    Some(n) => Some(n@),
                    None => None,
                },
                ..self@
            }),
    {
        let namespace = match namespace {
            Some(n) => Some(n.to_owned()),
            None => None,
        };
        Metric { namespace, ..self }
    }

    pub fn with_tags(self, tags: Option<MetricTags>) -> (r: Metric)
        ensures
            r@ == (MetricView { tags: opt_tags_view(tags), ..self@ }),
    {
        Metric { tags, ..self }
    }

    pub fn with_timestamp(self, timestamp: Option<Timestamp>) -> (r: Metric)
        ensures
            r@ == (MetricView { timestamp, ..self@ }),
    {
        Metric { timestamp, ..self }
    }

    pub fn name(&self) -> (r: &String)
        ensures
            r@ == self@.name,
    {
        &self.name
    }

    pub fn namespace(&self) -> (r: &Option<String>)
        ensures
            opt_string_view(*r) == self@.namespace,
    {
        &self.namespace
    }

    pub fn timestamp(&self) -> (r: Option<Timestamp>)
        ensures
            r == self@.timestamp,
    {
        self.timestamp
    }

    pub fn kind(&self) -> (r: MetricKind)
        ensures
            r == self@.kind,
    {
        self.kind
    }

    pub fn value(&self) -> (r: &MetricValue)
        ensures
            *r == self@.value,
    {
        &self.value
    }

    pub fn tags(&self) -> (r: &Option<MetricTags>)
        ensures
            opt_tags_view(*r) == self@.tags,
    {
        &self.tags
    }

    pub fn set_name(&mut self, name: String)
        ensures
            final(self)@ == (MetricView { name: name@, ..old(self)@ }),
    {
        self.name = name;
    }

    pub fn set_namespace(&mut self, namespace: Option<String>)
        ensures
            final(self)@ == (MetricView { namespace: opt_string_view(namespace), ..old(self)@ }),
    {
        self.namespace = namespace;
    }

    pub fn set_timestamp(&mut self, timestamp: Option<Timestamp>)
        ensures
            final(self)@ == (MetricView { timestamp, ..old(self)@ }),
    {
        self.timestamp = timestamp;
    }

    pub fn set_kind(&mut self, kind: MetricKind)
        ensures
            final(self)@ == (MetricView { kind, ..old(self)@ }),
    {
        self.kind = kind;
    }

    /// Replaces the whole tag set.
    pub fn set_tags(&mut self, tags: Option<MetricTags>)
        ensures
            final(self)@ == (MetricView { tags: opt_tags_view(tags), ..old(self)@ }),
    {
        self.tags = tags;
    }

    /// Sets one tag, creating the tag set where there is none.
    pub fn set_tag_value(&mut self, name: String, value: String)
        ensures
            final(self)@ == (MetricView {
                tags: Some(
                    match old(self)@.tags {
                        Some(t) => t,
                        None => Map::empty(),
                    }.insert(name@, value@),
                ),
                ..old(self)@
            }),
    {
        let ghost n = name@;
        let ghost v = value@;
        let mut tags = match self.tags.take() {
            Some(t) => t,
            None => {
                let t = SortedMap::new();
                assert(tags_view(t) =~= Map::<Seq<char>, Seq<char>>::empty());
                t
            },
        };
        let ghost before = tags_view(tags);
        let _ = tags.insert(name, value);
        assert(tags_view(tags) =~= before.insert(n, v));
        self.tags = Some(tags);
    }

    pub fn tag_value(&self, name: &str) -> (r: Option<&String>)
        ensures
            match r {
                Some(v) => self@.tags is Some && self@.tags->0.contains_key(name@)
                    && self@.tags->0[name@] == v@,
                None => self@.tags is None || !self@.tags->0.contains_key(name@),
            },
    {
        match &self.tags {
            Some(t) => t.get(name),
            None => None,
        }
    }

    /// Removes one tag and returns its value; the tag set stays, even empty.
    pub fn delete_tag(&mut self, name: &str) -> (r: Option<String>)
        ensures
            opt_string_view(r) == match old(self)@.tags {
                Some(t) => if t.contains_key(name@) {
                    Some(t[name@])
                } else {
                    None
                },
                None => None,
            },
            final(self)@ == (MetricView {
                tags: match old(self)@.tags {
                    Some(t) => Some(t.remove(name@)),
                    None => None,
                },
                ..old(self)@
            }),
    {
        match self.tags.take() {
            Some(mut t) => {
                let ghost before = tags_view(t);
                let r = t.remove(name);
                assert(tags_view(t) =~= before.remove(name@));
                self.tags = Some(t);
                r
            },
            None => None,
        }
    }

    pub fn take_namespace(&mut self) -> (r: Option<String>)
        ensures
            opt_string_view(r) == old(self)@.namespace,
            final(self)@ == (MetricView { namespace: None, ..old(self)@ }),
    {
        self.namespace.take()
    }

    pub fn take_timestamp(&mut self) -> (r: Option<Timestamp>)
        ensures
            r == old(self)@.timestamp,
            final(self)@ == (MetricView { timestamp: None, ..old(self)@ }),
    {
        self.timestamp.take()
    }

    pub fn take_tags(&mut self) -> (r: Option<MetricTags>)
        ensures
            opt_tags_view(r) == old(self)@.tags,
            final(self)@ == (MetricView { tags: None, ..old(self)@ }),
    {
        self.tags.take()
    }
}

} // verus!
