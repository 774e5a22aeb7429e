use crate::access::{get_at, get_rec, insert_at, insert_rec, opt_view, remove_at, remove_rec, rest_of};
use crate::error::TargetError;
use crate::log_event::{empty_fields, field_path, log_insert, log_remove, map_view, EventMetadata, LogEvent};
use crate::path::{Path, SegmentView};
use crate::value::{lemma_value_view, SortedMap, Value, ValueView};
use vstd::prelude::*;

verus! {

broadcast use lemma_value_view;

/// A log record as an expression program sees it: either a record whose root
/// is always a map, or a free value whose root can be anything.
#[derive(Clone, Debug)]
pub enum Target {
    Event(LogEvent),
    Value(Value, EventMetadata),
}

pub enum TargetView {
    Event(Map<Seq<char>, ValueView>),
    Value(ValueView),
}

impl View for Target {
    type V = TargetView;

    open spec fn view(&self) -> TargetView {
        match self {
            Target::Event(e) => TargetView::Event(e@),
            Target::Value(v, _) => TargetView::Value(v@),
        }
    }
}

/// The whole content of a log target as one value.
pub open spec fn target_root(t: TargetView) -> ValueView {
    match t {
        TargetView::Event(f) => ValueView::Object(f),
        TargetView::Value(v) => v,
    }
}

/// The content of a log target after an insert; `None` where the insert is
/// refused (only a map can become the whole of a record).
pub open spec fn target_insert(t: TargetView, p: Seq<SegmentView>, x: ValueView) -> Option<
    TargetView,
> {
    match t {
        TargetView::Event(f) => if p.len() == 0 {
            match x {
                ValueView::Object(m) => Some(TargetView::Event(m)),
                _ => None,
            }
        } else if field_path(p) {
            Some(TargetView::Event(log_insert(f, p, x)))
        } else {
            None
        },
        TargetView::Value(v) => Some(TargetView::Value(insert_at(v, p, x))),
    }
}

/// The content of a log target after a remove, and what was removed.
pub open spec fn target_remove(t: TargetView, p: Seq<SegmentView>, compact: bool) -> (
    TargetView,
    Option<ValueView>,
) {
    if p.len() == 0 {
        match t {
            TargetView::Event(f) => (TargetView::Event(empty_fields()), Some(ValueView::Object(f))),
            TargetView::Value(v) => (
                TargetView::Value(ValueView::Object(empty_fields())),
                Some(v),
            ),
        }
    } else {
        match t {
            TargetView::Event(f) => {
                let (g, r) = log_remove(f, p, compact);
                (TargetView::Event(g), r)
            },
            TargetView::Value(v) => {
                let (w, r) = remove_at(v, p, compact);
                (TargetView::Value(w), r)
            },
        }
    }
}

impl Target {
    pub closed spec fn spec_metadata(&self) -> EventMetadata {
        match self {
            Target::Event(e) => e.spec_metadata(),
            Target::Value(_, m) => *m,
        }
    }

    /// A copy of the value at `path`; the root path gives the whole content.
    pub fn get(&self, path: &Path) -> (r: Result<Option<Value>, TargetError>)
        ensures
            r is Ok,
            opt_view(r->Ok_0) == get_at(target_root(self@), path@),
    {
        match self {
            Target::Event(e) => {
                if path.is_root() {
                    let fields = e.as_map();
                    let whole = Value::Object(crate::value::duplicate_map(fields));
                    return Ok(Some(whole));
                }
                let found = e.get_path(path);
                proof {
                    if !field_path(path@) {
                        assert(path@[0] is Index);
                    }
                }
                match found {
                    Some(v) => Ok(Some(v.duplicate())),
                    None => Ok(None),
                }
            },
            Target::Value(v, _) => {
                assert(rest_of(path@, 0) =~= path@);
                match get_rec(v, path, 0) {
                    Some(x) => Ok(Some(x.duplicate())),
                    None => Ok(None),
                }
            },
        }
    }

    /// Stores `value` at `path`. On a record, the root can only take a map,
    /// which replaces all fields; a path that starts with an index would make
    /// the root an array and is refused the same way.
    pub fn insert(&mut self, path: &Path, value: Value) -> (r: Result<(), TargetError>)
        ensures
            match target_insert(old(self)@, path@, value@) {
                Some(t) => r is Ok && final(self)@ == t,
                None => r == Err::<(), TargetError>(TargetError::RootNotMap) && final(self)@ == old(
                    self,
                )@,
            },
            final(self).spec_metadata() == old(self).spec_metadata(),
    {
        match self {
            Target::Event(e) => {
                if path.is_root() {
                    match value {
                        Value::Object(m) => {
                            let metadata = *e.metadata();
                            *e = LogEvent::from_map_with_metadata(m, metadata);
                            Ok(())
                        },
                        _ => Err(TargetError::RootNotMap),
                    }
                } else {
                    match path.segment(0) {
                        crate::path::Segment::Field(_) => {
                            let _ = e.insert_path(path, value);
                            Ok(())
                        },
                        _ => Err(TargetError::RootNotMap),
                    }
                }
            },
            Target::Value(v, _) => {
                assert(rest_of(path@, 0) =~= path@);
                let _ = insert_rec(v, path, 0, value);
                Ok(())
            },
        }
    }

    /// Removes what `path` addresses and returns it; removing the root leaves
    /// an empty map.
    pub fn remove(&mut self, path: &Path, compact: bool) -> (r: Result<Option<Value>, TargetError>)
        ensures
            r is Ok,
            final(self)@ == target_remove(old(self)@, path@, compact).0,
            opt_view(r->Ok_0) == target_remove(old(self)@, path@, compact).1,
            final(self).spec_metadata() == old(self).spec_metadata(),
    {
        match self {
            Target::Event(e) => {
                if path.is_root() {
                    let metadata = *e.metadata();
                    let mut emptied = LogEvent::new_with_metadata(metadata);
                    std::mem::swap(e, &mut emptied);
                    let (fields, _) = emptied.into_parts();
                    let whole = Value::Object(fields);
                    assert(whole@ == ValueView::Object(map_view(fields)));
                    return Ok(Some(whole));
                }
                Ok(e.remove_path(path, compact))
            },
            Target::Value(v, _) => {
                if path.is_root() {
                    let mut emptied = Value::Object(SortedMap::new());
                    std::mem::swap(v, &mut emptied);
                    proof {
                        assert(Map::<Seq<char>, Value>::empty().map_values(|x: Value| x@) =~= empty_fields());
                    }
                    return Ok(Some(emptied));
                }
                assert(rest_of(path@, 0) =~= path@);
                Ok(remove_rec(v, path, 0, compact))
            },
        }
    }
}

} // verus!
