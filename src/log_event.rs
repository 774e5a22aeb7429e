use crate::access::{
    collect_paths, extends_leaf, get_at, lemma_leaf_is_present, get_rec, insert_at, insert_rec, leaf_paths, listed,
    opt_ref_view, opt_view, remove_at, remove_rec, rest_of,
};
use crate::path::{parse_path, path_text, Path, SegmentView};
use crate::value::{lemma_value_view, merged, SortedMap, Timestamp, Value, ValueView};
use crate::vrl_target::LogSchema;
use vstd::prelude::*;

verus! {

broadcast use lemma_value_view;

/// Context that travels with a record and is never part of its fields.
#[derive(Clone, Copy, Debug, PartialEq, Eq, Structural)]
pub struct EventMetadata;

impl EventMetadata {
    /// Folds the metadata of another record into this one.
    pub fn merge(&mut self, other: &EventMetadata)
        ensures
            *final(self) == *old(self),
    {
    }
}

/// A log record: a map of fields and its metadata.
#[derive(Clone, Debug, PartialEq)]
pub struct LogEvent {
    fields: SortedMap<Value>,
    metadata: EventMetadata,
}

/// The content of a map of values.
pub open spec fn map_view(m: SortedMap<Value>) -> Map<Seq<char>, ValueView> {
    m@.map_values(|x: Value| x@)
}

/// A path that can address a field of a record: it is not the root and it
/// starts with a field name.
pub open spec fn field_path(p: Seq<SegmentView>) -> bool {
    p.len() > 0 && p[0] is Field
}

/// The value at `p` in a record whose fields are `f`.
pub open spec fn log_get(f: Map<Seq<char>, ValueView>, p: Seq<SegmentView>) -> Option<ValueView> {
    if field_path(p) {
        get_at(ValueView::Object(f), p)
    } else {
        None
    }
}

/// The fields after storing `x` at `p`; a path that is not a field path
/// changes nothing.
pub open spec fn log_insert(f: Map<Seq<char>, ValueView>, p: Seq<SegmentView>, x: ValueView) -> Map<
    Seq<char>,
    ValueView,
> {
    if field_path(p) {
        insert_at(ValueView::Object(f), p, x)->Object_0
    } else {
        f
    }
}

/// The fields after removing what `p` addresses, and what was removed.
pub open spec fn log_remove(f: Map<Seq<char>, ValueView>, p: Seq<SegmentView>, compact: bool) -> (
    Map<Seq<char>, ValueView>,
    Option<ValueView>,
) {
    if field_path(p) {
        let (v, r) = remove_at(ValueView::Object(f), p, compact);
        (v->Object_0, r)
    } else {
        (f, None)
    }
}

/// `parse_path`, with text that does not parse read as the root.
pub open spec fn key_path(key: Seq<char>) -> Seq<SegmentView> {
    match parse_path(key) {
        Some(p) => p,
        None => Seq::empty(),
    }
}

/// One step of a selective merge: the field at `key` is taken out of
/// `incoming` and merged into the same field of `current`, or stored there
/// where `current` has none.
pub open spec fn merge_field(
    current: Map<Seq<char>, ValueView>,
    incoming: Map<Seq<char>, ValueView>,
    key: Seq<char>,
) -> (Map<Seq<char>, ValueView>, Map<Seq<char>, ValueView>) {
    let p = key_path(key);
    let (rest, taken) = log_remove(incoming, p, false);
    match taken {
        None => (current, rest),
        Some(x) => match log_get(current, p) {
            None => (log_insert(current, p, x), rest),
            Some(c) => (log_insert(current, p, merged(c, x)), rest),
        },
    }
}

/// The fields of `current` after merging the fields named in `keys`, in
/// order, from `incoming`.
pub open spec fn merge_fields(
    current: Map<Seq<char>, ValueView>,
    incoming: Map<Seq<char>, ValueView>,
    keys: Seq<Seq<char>>,
) -> Map<Seq<char>, ValueView>
    decreases keys.len(),
{
    if keys.len() == 0 {
        current
    } else {
        let (c, i) = merge_field(current, incoming, keys[0]);
        merge_fields(c, i, keys.drop_first())
    }
}

/// The fields of a record made from raw bytes read at `now`.
pub open spec fn message_record(schema: LogSchema, message: Seq<u8>, now: Timestamp) -> Map<
    Seq<char>,
    ValueView,
> {
    log_insert(
        log_insert(empty_fields(), key_path(schema.spec_message_key()), ValueView::Bytes(message)),
        key_path(schema.spec_timestamp_key()),
        ValueView::Timestamp(now),
    )
}

/// Relies on chrono's `From<SystemTime> for DateTime<Utc>` (which also
/// takes clock readings before 1970), `DateTime::timestamp` and
/// `DateTime::timestamp_subsec_nanos`: the time of the call as seconds since
/// the Unix epoch and the nanoseconds past that second. The conversion builds
/// the time from a whole-second count and nanoseconds below one second, so
/// the nanoseconds stay below one second.
#[verifier::external_body]
fn current_time() -> (r: Timestamp)
    ensures
        r.nanos < 1_000_000_000,
{
    let now = chrono::DateTime::<chrono::Utc>::from(std::time::SystemTime::now());
    Timestamp { seconds: now.timestamp(), nanos: now.timestamp_subsec_nanos() }
}

/// The step-by-step walk cannot go through a path: it names the root, holds
/// an index, or passes a missing field or a value that is not a map.
/// `segment` is the position of the segment where the walk stopped.
#[derive(Debug, PartialEq, Eq, Structural)]
pub struct TraversalError {
    pub segment: usize,
}

/// The walk one segment at a time can reach the end of `p` in a record with
/// fields `f`: every segment is a field name and every proper prefix leads to
/// a map.
pub open spec fn walkable(f: Map<Seq<char>, ValueView>, p: Seq<SegmentView>) -> bool {
    &&& p.len() > 0
    &&& forall|j: int| 0 <= j < p.len() ==> #[trigger] p[j] is Field
    &&& forall|j: int|
        1 <= j < p.len() ==> #[trigger] get_at(ValueView::Object(f), p.subrange(0, j)) is Some
            && get_at(ValueView::Object(f), p.subrange(0, j))->0 is Object
}

proof fn lemma_get_at_extend(v: ValueView, p: Seq<SegmentView>, j: int, w: ValueView)
    requires
        0 <= j < p.len(),
        get_at(v, p.subrange(0, j)) == Some(w),
    ensures
        get_at(v, p.subrange(0, j + 1)) == get_at(w, seq![p[j]]),
    decreases j,
{
    if j == 0 {
        assert(p.subrange(0, 0) =~= Seq::<SegmentView>::empty());
        assert(p.subrange(0, 1) =~= seq![p[0]]);
    } else {
        let q = p.drop_first();
        assert(p.subrange(0, j).drop_first() =~= q.subrange(0, j - 1));
        assert(p.subrange(0, j + 1).drop_first() =~= q.subrange(0, j));
        assert(p.subrange(0, j)[0] == p[0]);
        assert(p.subrange(0, j + 1)[0] == p[0]);
        match (v, p[0]) {
            (ValueView::Object(m), SegmentView::Field(k)) => {
                if m.contains_key(k) {
                    lemma_get_at_extend(m[k], q, j - 1, w);
                }
            },
            (ValueView::Array(a), SegmentView::Index(i)) => {
                match crate::access::resolve_index(a.len() as int, i) {
                    Some(x) => {
                        lemma_get_at_extend(a[x], q, j - 1, w);
                    },
                    None => {},
                }
            },
            _ => {},
        }
    }
}

/// The walk cannot go on at segment `j` of `p`: that segment is an index, or
/// the part of `p` before it does not lead to a map.
pub open spec fn stops_at(f: Map<Seq<char>, ValueView>, p: Seq<SegmentView>, j: int) -> bool {
    p[j] is Index || (j >= 1 && !(get_at(ValueView::Object(f), p.subrange(0, j)) is Some
        && get_at(ValueView::Object(f), p.subrange(0, j))->0 is Object))
}

/// `j` is where the walk down `p` stops: the root path stops at once, and
/// otherwise `j` is the first segment at which the walk cannot go on.
pub open spec fn first_stop(f: Map<Seq<char>, ValueView>, p: Seq<SegmentView>, j: int) -> bool {
    if p.len() == 0 {
        j == 0
    } else {
        0 <= j < p.len() && stops_at(f, p, j) && forall|i: int| 0 <= i < j ==> !stops_at(f, p, i)
    }
}

/// The one-field-at-a-time walk down `path` from the map `root`: whether
/// the last field is present, or where the walk stopped.
fn walk(root: &Value, path: &Path) -> (r: Result<bool, TraversalError>)
    requires
        root@ is Object,
    ensures
        r is Ok <==> walkable(root@->Object_0, path@),
        r is Ok ==> r->Ok_0 == (log_get(root@->Object_0, path@) is Some),
        r is Err ==> first_stop(root@->Object_0, path@, r->Err_0.segment as int),
{
    let n = path.len();
    if n == 0 {
        return Err(TraversalError { segment: 0 });
    }
    let ghost f = root@->Object_0;
    let mut cur: &Value = root;
    let mut j: usize = 0;
    assert(path@.subrange(0, 0) =~= Seq::<SegmentView>::empty());
    while j + 1 < n
        invariant
            n == path@.len(),
            0 <= j < n,
            root@ == ValueView::Object(f),
            cur@ is Object,
            get_at(root@, path@.subrange(0, j as int)) == Some(cur@),
            forall|i: int| 0 <= i < j ==> #[trigger] path@[i] is Field,
            forall|i: int|
                1 <= i <= j ==> #[trigger] get_at(root@, path@.subrange(0, i)) is Some
                    && get_at(root@, path@.subrange(0, i))->0 is Object,
        decreases n - j,
    {
        let ghost prefix_value = cur@;
        proof {
            lemma_get_at_extend(root@, path@, j as int, prefix_value);
            assert(seq![path@[j as int]].drop_first() =~= Seq::<SegmentView>::empty());
        }
        match path.segment(j) {
            crate::path::Segment::Field(k) => {
                match cur {
                    Value::Object(m) => match m.get(k.as_str()) {
                        Some(child) => {
                            proof {
                                assert(get_at(child@, Seq::<SegmentView>::empty()) == Some(
                                    child@,
                                ));
                                assert(get_at(root@, path@.subrange(0, j + 1)) == Some(
                                    child@,
                                ));
                            }
                            let child_is_map = matches!(child, Value::Object(_));
                            if !child_is_map {
                                proof {
                                    assert(!(child@ is Object));
                                    assert(!walkable(f, path@)) by {
                                        assert(1 <= j + 1 < n);
                                        assert(get_at(root@, path@.subrange(0, j + 1))->0 == child@);
                                    }
                                    assert(stops_at(f, path@, j + 1));
                                    assert(path@[j as int] is Field);
                                }
                                return Err(TraversalError { segment: j + 1 });
                            }
                            cur = child;
                        },
                        None => {
                            proof {
                                assert(get_at(root@, path@.subrange(0, j + 1)) is None);
                                assert(!walkable(f, path@)) by {
                                    assert(1 <= j + 1 < n);
                                }
                                assert(stops_at(f, path@, j + 1));
                                assert(path@[j as int] is Field);
                            }
                            return Err(TraversalError { segment: j + 1 });
                        },
                    },
                    _ => {
                        proof {
                            assert(false);
                        }
                    },
                }
            },
            crate::path::Segment::Index(_) => {
                proof {
                    assert(!(path@[j as int] is Field));
                }
                return Err(TraversalError { segment: j });
            },
        }
        j = j + 1;
    }
    let ghost last_parent = cur@;
    proof {
        lemma_get_at_extend(root@, path@, j as int, last_parent);
        assert(path@.subrange(0, j + 1) =~= path@);
        assert(seq![path@[j as int]].drop_first() =~= Seq::<SegmentView>::empty());
    }
    let present = match path.segment(j) {
        crate::path::Segment::Field(k) => match cur {
            Value::Object(m) => {
                proof {
                    let mv = m@.map_values(|x: Value| x@);
                    if mv.contains_key(k@) {
                        assert(get_at(mv[k@], Seq::<SegmentView>::empty()) == Some(mv[k@]));
                    }
                }
                m.contains_key(k.as_str())
            },
            _ => {
                proof {
                    assert(false);
                }
                false
            },
        },
        crate::path::Segment::Index(_) => {
            proof {
                assert(!(path@[j as int] is Field));
            }
            return Err(TraversalError { segment: j });
        },
    };
    proof {
        assert(walkable(f, path@));
        assert(present == log_get(f, path@) is Some);
    }
    Ok(present)
}

/// `key` is how some leaf path of `v` is written.
pub open spec fn leaf_key(v: ValueView, key: Seq<char>) -> bool {
    exists|q: Seq<SegmentView>| #[trigger] leaf_paths(v).contains(q) && key == path_text(q)
}

/// `field` is how some leaf path of `v` is written, paired with the value
/// at that path.
pub open spec fn leaf_field(v: ValueView, field: (Seq<char>, ValueView)) -> bool {
    exists|q: Seq<SegmentView>|
        #[trigger] leaf_paths(v).contains(q) && field.0 == path_text(q) && get_at(v, q) == Some(
            field.1,
        )
}

/// Some pair in `fields` is the written path `key` with its value.
pub open spec fn field_listed(fields: Seq<(String, Value)>, key: Seq<char>, value: ValueView) -> bool {
    exists|i: int| 0 <= i < fields.len() && (#[trigger] fields[i]).0@ == key && fields[i].1@ == value
}

/// The written form of a leaf path of a record reads back as that path, and
/// the path leads to a value.
proof fn lemma_leaf_key(f: Map<Seq<char>, ValueView>, q: Seq<SegmentView>)
    requires
        leaf_paths(ValueView::Object(f)).contains(q),
    ensures
        key_path(path_text(q)) == q,
        log_get(f, q) is Some,
{
    crate::access::lemma_leaf_of_record(f, q);
    crate::access::lemma_leaf_indices(ValueView::Object(f), q);
    crate::path::lemma_parse_written(q);
    lemma_leaf_is_present(ValueView::Object(f), q);
}

/// Some string in `keys` is `key`.
pub open spec fn key_listed(keys: Seq<String>, key: Seq<char>) -> bool {
    exists|i: int| 0 <= i < keys.len() && (#[trigger] keys[i])@ == key
}

/// The fields a record read from `v` has: a map gives its entries, any
/// other value gives none.
pub open spec fn decoded(v: ValueView) -> Option<Map<Seq<char>, ValueView>> {
    match v {
        ValueView::Object(f) => Some(f),
        _ => None,
    }
}

/// The value a record with fields `f` is written as.
pub open spec fn encoded(f: Map<Seq<char>, ValueView>) -> ValueView {
    ValueView::Object(f)
}

/// A value that is not a map cannot become the fields of a record.
#[derive(Debug, PartialEq, Eq, Structural)]
pub struct NotAMap;

impl View for LogEvent {
    type V = Map<Seq<char>, ValueView>;

    closed spec fn view(&self) -> Map<Seq<char>, ValueView> {
        map_view(self.fields)
    }
}

pub open spec fn empty_fields() -> Map<Seq<char>, ValueView> {
    Map::empty()
}

impl LogEvent {
    pub closed spec fn spec_metadata(&self) -> EventMetadata {
        self.metadata
    }

    pub fn new() -> (r: LogEvent)
        ensures
            r@ == empty_fields(),
    {
        let r = LogEvent { fields: SortedMap::new(), metadata: EventMetadata };
        assert(r@ =~= empty_fields());
        r
    }

    pub fn new_with_metadata(metadata: EventMetadata) -> (r: LogEvent)
        ensures
            r@ == empty_fields(),
            r.spec_metadata() == metadata,
    {
        let r = LogEvent { fields: SortedMap::new(), metadata };
        assert(r@ =~= empty_fields());
        r
    }

    /// A record holding `fields`, with default metadata.
    pub fn from_map(fields: SortedMap<Value>) -> (r: LogEvent)
        ensures
            r@ == map_view(fields),
    {
        LogEvent { fields, metadata: EventMetadata }
    }

    pub fn from_map_with_metadata(fields: SortedMap<Value>, metadata: EventMetadata) -> (r: LogEvent)
        ensures
            r@ == map_view(fields),
            r.spec_metadata() == metadata,
    {
        LogEvent { fields, metadata }
    }

    pub fn into_parts(self) -> (r: (SortedMap<Value>, EventMetadata))
        ensures
            map_view(r.0) == self@,
            r.1 == self.spec_metadata(),
    {
        (self.fields, self.metadata)
    }

    pub fn metadata(&self) -> (r: &EventMetadata)
        ensures
            *r == self.spec_metadata(),
    {
        &self.metadata
    }

    pub fn as_map(&self) -> (r: &SortedMap<Value>)
        ensures
            map_view(*r) == self@,
    {
        &self.fields
    }

    /// The fields as a map that the caller can change in place.
    pub fn as_map_mut(&mut self) -> (r: &mut SortedMap<Value>)
        ensures
            map_view(*r) == old(self)@,
            final(self)@ == map_view(*final(r)),
            final(self).spec_metadata() == old(self).spec_metadata(),
    {
        &mut self.fields
    }

    pub fn is_empty(&self) -> (r: bool)
        ensures
            r == (self@ == empty_fields()),
    {
        let r = self.fields.is_empty();
        proof {
            if !r && self@ == empty_fields() {
                assert(self.fields@.dom() =~= self@.dom());
                assert(self.fields@ =~= Map::<Seq<char>, Value>::empty());
            }
            if r {
                assert(self@ =~= empty_fields());
            }
        }
        r
    }

    /// The value of the top-level field named `key`, without reading `key`
    /// as a path.
    pub fn get_flat(&self, key: &str) -> (r: Option<&Value>)
        ensures
            opt_ref_view(r) == (if self@.contains_key(key@) {
                Some(self@[key@])
            } else {
                None
            }),
    {
        self.fields.get(key)
    }

    /// Stores `value` as the top-level field named `key`, without reading
    /// `key` as a path.
    pub fn insert_flat(&mut self, key: String, value: Value)
        ensures
            final(self)@ == old(self)@.insert(key@, value@),
            final(self).spec_metadata() == old(self).spec_metadata(),
    {
        let ghost k = key@;
        let ghost v = value@;
        let _ = self.fields.insert(key, value);
        assert(self@ =~= old(self)@.insert(k, v));
    }

    /// The value at `path`.
    pub fn get_path(&self, path: &Path) -> (r: Option<&Value>)
        ensures
            opt_ref_view(r) == log_get(self@, path@),
    {
        if path.is_root() {
            return None;
        }
        match path.segment(0) {
            crate::path::Segment::Field(k) => {
                assert(rest_of(path@, 0) =~= path@);
                match self.fields.get(k.as_str()) {
                    Some(child) => {
                        proof {
                            assert(rest_of(path@, 1) =~= path@.drop_first());
                        }
                        get_rec(child, path, 1)
                    },
                    None => None,
                }
            },
            _ => None,
        }
    }

    /// The value at the path written in `key`; `None` where `key` does not
    /// parse or names the root.
    pub fn get(&self, key: &str) -> (r: Option<&Value>)
        ensures
            opt_ref_view(r) == log_get(self@, key_path(key@)),
    {
        match Path::parse(key) {
            Ok(p) => self.get_path(&p),
            Err(_) => None,
        }
    }

    pub fn contains(&self, key: &str) -> (r: bool)
        ensures
            r == log_get(self@, key_path(key@)) is Some,
    {
        self.get(key).is_some()
    }

    /// Moves the fields out as a map value, leaving the record empty.
    fn take_root(&mut self) -> (r: Value)
        ensures
            r@ == ValueView::Object(old(self)@),
            final(self).spec_metadata() == old(self).spec_metadata(),
    {
        let mut fields = SortedMap::new();
        std::mem::swap(&mut self.fields, &mut fields);
        Value::Object(fields)
    }

    /// Puts a map value back as the fields.
    fn put_root(&mut self, root: Value)
        requires
            root@ is Object,
        ensures
            final(self)@ == root@->Object_0,
            final(self).spec_metadata() == old(self).spec_metadata(),
    {
        match root {
            Value::Object(m) => {
                self.fields = m;
            },
            _ => {
                proof {
                    assert(false);
                }
            },
        }
    }

    /// Stores `value` at `path`, creating missing maps on the way; returns the
    /// value it replaced. A path that is not a field path changes nothing.
    pub fn insert_path(&mut self, path: &Path, value: Value) -> (r: Option<Value>)
        ensures
            final(self)@ == log_insert(old(self)@, path@, value@),
            opt_view(r) == log_get(old(self)@, path@),
            final(self).spec_metadata() == old(self).spec_metadata(),
    {
        if path.is_root() {
            return None;
        }
        match path.segment(0) {
            crate::path::Segment::Field(_) => {},
            _ => {
                return None;
            },
        }
        let mut root = self.take_root();
        assert(rest_of(path@, 0) =~= path@);
        let r = insert_rec(&mut root, path, 0, value);
        self.put_root(root);
        r
    }

    /// Stores `value` at the path written in `key`; text that does not parse
    /// changes nothing.
    pub fn insert(&mut self, key: &str, value: Value) -> (r: Option<Value>)
        ensures
            final(self)@ == log_insert(old(self)@, key_path(key@), value@),
            opt_view(r) == log_get(old(self)@, key_path(key@)),
            final(self).spec_metadata() == old(self).spec_metadata(),
    {
        match Path::parse(key) {
            Ok(p) => self.insert_path(&p, value),
            Err(_) => None,
        }
    }

    /// Stores `value` at `key` only where nothing is there yet.
    pub fn try_insert(&mut self, key: &str, value: Value)
        ensures
            final(self)@ == (if log_get(old(self)@, key_path(key@)) is Some {
                old(self)@
            } else {
                log_insert(old(self)@, key_path(key@), value@)
            }),
    {
        if !self.contains(key) {
            let _ = self.insert(key, value);
        }
    }

    /// Removes what `path` addresses and returns it; with `compact`, maps
    /// left empty on the way are removed too.
    pub fn remove_path(&mut self, path: &Path, compact: bool) -> (r: Option<Value>)
        ensures
            final(self)@ == log_remove(old(self)@, path@, compact).0,
            opt_view(r) == log_remove(old(self)@, path@, compact).1,
            final(self).spec_metadata() == old(self).spec_metadata(),
    {
        if path.is_root() {
            return None;
        }
        match path.segment(0) {
            crate::path::Segment::Field(_) => {},
            _ => {
                return None;
            },
        }
        let mut root = self.take_root();
        assert(rest_of(path@, 0) =~= path@);
        let r = remove_rec(&mut root, path, 0, compact);
        self.put_root(root);
        r
    }

    pub fn remove_prune(&mut self, key: &str, prune: bool) -> (r: Option<Value>)
        ensures
            final(self)@ == log_remove(old(self)@, key_path(key@), prune).0,
            opt_view(r) == log_remove(old(self)@, key_path(key@), prune).1,
            final(self).spec_metadata() == old(self).spec_metadata(),
    {
        match Path::parse(key) {
            Ok(p) => self.remove_path(&p, prune),
            Err(_) => None,
        }
    }

    pub fn remove(&mut self, key: &str) -> (r: Option<Value>)
        ensures
            final(self)@ == log_remove(old(self)@, key_path(key@), false).0,
            opt_view(r) == log_remove(old(self)@, key_path(key@), false).1,
            final(self).spec_metadata() == old(self).spec_metadata(),
    {
        self.remove_prune(key, false)
    }

    /// Merges the fields named in `fields` from `incoming` into this record:
    /// two byte strings are concatenated, any other incoming value replaces
    /// the current one, and fields not named are left as they are. The
    /// metadata of `incoming` is always merged.
    pub fn merge(&mut self, incoming: LogEvent, fields: &[String])
        ensures
            final(self)@ == merge_fields(
                old(self)@,
                incoming@,
                fields@.map_values(|s: String| s@),
            ),
    {
        let ghost inc0 = incoming@;
        let mut incoming = incoming;
        let ghost keys = fields@.map_values(|s: String| s@);
        let mut i: usize = 0;
        assert(keys.subrange(0, keys.len() as int) =~= keys);
        while i < fields.len()
            invariant
                keys == fields@.map_values(|s: String| s@),
                i <= fields@.len(),
                merge_fields(old(self)@, inc0, keys) == merge_fields(
                    self@,
                    incoming@,
                    keys.subrange(i as int, keys.len() as int),
                ),
            decreases fields@.len() - i,
        {
            let field = &fields[i];
            let ghost before = (self@, incoming@);
            let ghost tail = keys.subrange(i as int, keys.len() as int);
            proof {
                assert(tail[0] == field@);
                assert(tail.drop_first() =~= keys.subrange(i + 1, keys.len() as int));
            }
            let taken = incoming.remove(field.as_str());
            match taken {
                None => {},
                Some(x) => {
                    let value = match self.get(field.as_str()) {
                        Some(current) => {
                            let mut c = current.duplicate();
                            c.merge(x);
                            c
                        },
                        None => x,
                    };
                    let _ = self.insert(field.as_str(), value);
                },
            }
            assert((self@, incoming@) == merge_field(before.0, before.1, field@));
            assert(merge_fields(before.0, before.1, tail) == merge_fields(
                self@,
                incoming@,
                tail.drop_first(),
            ));
            i = i + 1;
        }
        assert(keys.subrange(i as int, keys.len() as int) =~= Seq::<Seq<char>>::empty());
        self.metadata.merge(incoming.metadata());
    }

    /// A record made from raw bytes read at `now`: the bytes are its message
    /// and `now` its timestamp.
    pub fn from_bytes_at(message: Vec<u8>, now: Timestamp, schema: &LogSchema) -> (r: LogEvent)
        ensures
            r@ == message_record(*schema, message@, now),
    {
        let mut log = LogEvent::new();
        let _ = log.insert(schema.message_key(), Value::Bytes(message));
        let _ = log.insert(schema.timestamp_key(), Value::Timestamp(now));
        log
    }

    /// A record made from raw bytes, stamped with the current time.
    pub fn from_bytes(message: Vec<u8>, schema: &LogSchema) -> (r: LogEvent)
        ensures
            exists|now: Timestamp| r@ == message_record(*schema, message@, now) && now.nanos < 1_000_000_000,
    {
        let now = current_time();
        LogEvent::from_bytes_at(message, now, schema)
    }

    /// The record whose fields are the map `v`; any other value is refused.
    pub fn try_from_value(v: Value) -> (r: Result<LogEvent, NotAMap>)
        ensures
            match decoded(v@) {
                Some(f) => r is Ok && r->Ok_0@ == f,
                None => r is Err,
            },
    {
        match v {
            Value::Object(m) => Ok(LogEvent::from_map(m)),
            _ => Err(NotAMap),
        }
    }

    /// All fields as one map value.
    pub fn into_value(self) -> (r: Value)
        ensures
            r@ == encoded(self@),
    {
        Value::Object(self.fields)
    }

    /// Walks `path` one field at a time and stores `default` at its end where
    /// nothing is there yet. The walk does not step into arrays: an index
    /// anywhere in the path, a missing field or a value that is not a map
    /// on the way, or the root path, is an error that changes nothing.
    pub fn entry(&mut self, path: &Path, default: Value) -> (r: Result<(), TraversalError>)
        ensures
            r is Ok <==> walkable(old(self)@, path@),
            r is Ok ==> final(self)@ == (if log_get(old(self)@, path@) is Some {
                old(self)@
            } else {
                log_insert(old(self)@, path@, default@)
            }),
            r is Err ==> final(self)@ == old(self)@ && first_stop(
                old(self)@,
                path@,
                r->Err_0.segment as int,
            ),
    {
        let mut root = self.take_root();
        match walk(&root, path) {
            Err(e) => {
                self.put_root(root);
                Err(e)
            },
            Ok(present) => {
                if !present {
                    assert(rest_of(path@, 0) =~= path@);
                    let _ = insert_rec(&mut root, path, 0, default);
                }
                self.put_root(root);
                Ok(())
            },
        }
    }

    /// The paths of all values in the record that are neither maps nor
    /// arrays, each written out (`a.b`, `list[0]`), in key order.
    pub fn keys(&self) -> (r: Vec<String>)
        ensures
            forall|i: int|
                0 <= i < r@.len() ==> leaf_key(ValueView::Object(self@), (#[trigger] r@[i])@),
            forall|q: Seq<SegmentView>| #[trigger]
                leaf_paths(ValueView::Object(self@)).contains(q) ==> key_listed(r@, path_text(q)),
            forall|i: int|
                0 <= i < r@.len() ==> log_get(self@, key_path((#[trigger] r@[i])@)) is Some,
            forall|i: int, j: int|
                0 <= i < j < r@.len() ==> crate::path::path_lt(
                    key_path((#[trigger] r@[i])@),
                    key_path((#[trigger] r@[j])@),
                ) && r@[i]@ != r@[j]@,
    {
        let root = Value::Object(crate::value::duplicate_map(&self.fields));
        let mut paths: Vec<Path> = Vec::new();
        let prefix = Path::root();
        collect_paths(&root, &prefix, &mut paths);
        let n = paths.len();
        let mut out: Vec<String> = Vec::new();
        let mut i: usize = 0;
        while i < n
            invariant
                n == paths@.len(),
                i <= n,
                out@.len() == i,
                prefix@ == Seq::<SegmentView>::empty(),
                root@ == ValueView::Object(self@),
                forall|j: int| 0 <= j < i ==> (#[trigger] out@[j])@ == path_text(paths@[j]@),
            decreases n - i,
        {
            out.push(paths[i].to_text());
            i = i + 1;
        }
        proof {
            assert forall|j: int| 0 <= j < out@.len() implies leaf_key(
                ValueView::Object(self@),
                (#[trigger] out@[j])@,
            ) by {
                assert(extends_leaf(root@, prefix@, paths@[j]@));
                let q = choose|q: Seq<SegmentView>|
                    #[trigger] leaf_paths(root@).contains(q) && paths@[j]@ == prefix@ + q;
                assert(prefix@ + q =~= q);
            }
            assert forall|q: Seq<SegmentView>| #[trigger]
                leaf_paths(ValueView::Object(self@)).contains(q) implies key_listed(
                out@,
                path_text(q),
            ) by {
                assert(listed(paths@, 0, prefix@ + q));
                let j = choose|j: int| 0 <= j < paths@.len() && (#[trigger] paths@[j])@ == prefix@ + q;
                assert(prefix@ + q =~= q);
                assert(out@[j]@ == path_text(q));
            }
            assert forall|j: int| 0 <= j < paths@.len() implies key_path(path_text(
                (#[trigger] paths@[j])@,
            )) == paths@[j]@ && log_get(self@, paths@[j]@) is Some by {
                assert(extends_leaf(root@, prefix@, paths@[j]@));
                let q = choose|q: Seq<SegmentView>|
                    #[trigger] leaf_paths(root@).contains(q) && paths@[j]@ == prefix@ + q;
                assert(prefix@ + q =~= q);
                lemma_leaf_key(self@, q);
            }
            assert forall|i: int, j: int| 0 <= i < j < out@.len() implies crate::path::path_lt(
                key_path((#[trigger] out@[i])@),
                key_path((#[trigger] out@[j])@),
            ) && out@[i]@ != out@[j]@ by {
                assert(key_path(out@[i]@) == paths@[i]@);
                assert(key_path(out@[j]@) == paths@[j]@);
                assert(crate::path::path_lt(paths@[i]@, paths@[j]@));
                crate::path::lemma_path_lt_irreflexive(paths@[i]@);
            }
        }
        out
    }

    /// Every value in the record that is neither a map nor an array, with
    /// its path written out, in key order: what a sink writes.
    pub fn all_fields(&self) -> (r: Vec<(String, Value)>)
        ensures
            forall|i: int|
                0 <= i < r@.len() ==> leaf_field(
                    ValueView::Object(self@),
                    ((#[trigger] r@[i]).0@, r@[i].1@),
                ),
            forall|q: Seq<SegmentView>| #[trigger]
                leaf_paths(ValueView::Object(self@)).contains(q) ==> field_listed(
                    r@,
                    path_text(q),
                    get_at(ValueView::Object(self@), q)->0,
                ),
            forall|i: int|
                0 <= i < r@.len() ==> log_get(self@, key_path((#[trigger] r@[i]).0@)) == Some(
                    r@[i].1@,
                ),
            forall|i: int, j: int|
                0 <= i < j < r@.len() ==> crate::path::path_lt(
                    key_path((#[trigger] r@[i]).0@),
                    key_path((#[trigger] r@[j]).0@),
                ) && r@[i].0@ != r@[j].0@,
    {
        let root = Value::Object(crate::value::duplicate_map(&self.fields));
        let mut paths: Vec<Path> = Vec::new();
        let prefix = Path::root();
        collect_paths(&root, &prefix, &mut paths);
        let n = paths.len();
        let mut out: Vec<(String, Value)> = Vec::new();
        let mut i: usize = 0;
        while i < n
            invariant
                n == paths@.len(),
                i <= n,
                out@.len() == i,
                prefix@ == Seq::<SegmentView>::empty(),
                root@ == ValueView::Object(self@),
                forall|j: int|
                    0 <= j < n ==> extends_leaf(root@, prefix@, (#[trigger] paths@[j])@),
                forall|j: int|
                    0 <= j < i ==> (#[trigger] out@[j]).0@ == path_text(paths@[j]@) && get_at(
                        root@,
                        paths@[j]@,
                    ) == Some(out@[j].1@),
            decreases n - i,
        {
            let p = &paths[i];
            proof {
                assert(extends_leaf(root@, prefix@, p@));
                let q = choose|q: Seq<SegmentView>|
                    #[trigger] leaf_paths(root@).contains(q) && p@ == prefix@ + q;
                assert(prefix@ + q =~= q);
                lemma_leaf_is_present(root@, q);
                assert(rest_of(p@, 0) =~= p@);
            }
            let value = match get_rec(&root, p, 0) {
                Some(v) => v.duplicate(),
                None => {
                    proof {
                        assert(false);
                    }
                    Value::Null
                },
            };
            out.push((p.to_text(), value));
            i = i + 1;
        }
        proof {
            assert forall|j: int| 0 <= j < out@.len() implies leaf_field(
                ValueView::Object(self@),
                ((#[trigger] out@[j]).0@, out@[j].1@),
            ) by {
                assert(extends_leaf(root@, prefix@, paths@[j]@));
                let q = choose|q: Seq<SegmentView>|
                    #[trigger] leaf_paths(root@).contains(q) && paths@[j]@ == prefix@ + q;
                assert(prefix@ + q =~= q);
            }
            assert forall|q: Seq<SegmentView>| #[trigger]
                leaf_paths(ValueView::Object(self@)).contains(q) implies field_listed(
                out@,
                path_text(q),
                get_at(ValueView::Object(self@), q)->0,
            ) by {
                assert(listed(paths@, 0, prefix@ + q));
                let j = choose|j: int| 0 <= j < paths@.len() && (#[trigger] paths@[j])@ == prefix@ + q;
                assert(prefix@ + q =~= q);
                assert(out@[j].0@ == path_text(q));
            }
            assert forall|j: int| 0 <= j < paths@.len() implies key_path(path_text(
                (#[trigger] paths@[j])@,
            )) == paths@[j]@ && log_get(self@, paths@[j]@) == get_at(root@, paths@[j]@) by {
                assert(extends_leaf(root@, prefix@, paths@[j]@));
                let q = choose|q: Seq<SegmentView>|
                    #[trigger] leaf_paths(root@).contains(q) && paths@[j]@ == prefix@ + q;
                assert(prefix@ + q =~= q);
                lemma_leaf_key(self@, q);
                crate::access::lemma_leaf_of_record(self@, q);
            }
            assert forall|i: int| 0 <= i < out@.len() implies log_get(
                self@,
                key_path((#[trigger] out@[i]).0@),
            ) == Some(out@[i].1@) by {
                assert(key_path(out@[i].0@) == paths@[i]@);
            }
            assert forall|i: int, j: int| 0 <= i < j < out@.len() implies crate::path::path_lt(
                key_path((#[trigger] out@[i]).0@),
                key_path((#[trigger] out@[j]).0@),
            ) && out@[i].0@ != out@[j].0@ by {
                assert(key_path(out@[i].0@) == paths@[i]@);
                assert(key_path(out@[j].0@) == paths@[j]@);
                assert(crate::path::path_lt(paths@[i]@, paths@[j]@));
                crate::path::lemma_path_lt_irreflexive(paths@[i]@);
            }
        }
        out
    }
}

} // verus!
