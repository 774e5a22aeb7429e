use crate::access::opt_view;
use crate::error::{Access, TargetError, ValueKind};
use crate::metric::{kind_name, type_label, Metric, MetricKind, MetricTags, MetricView};
use crate::path::{path_text, Path, Segment, SegmentView};
use crate::value::{compare_keys, lemma_value_view, SortedMap, Value, ValueView};
use vstd::prelude::*;
use vstd::utf8::{decode_utf8, encode_utf8, valid_utf8};

verus! {

broadcast use {lemma_value_view, vstd::utf8::encode_utf8_decode_utf8, vstd::utf8::encode_utf8_valid_utf8};

/// What `String::from_utf8_lossy` makes of the bytes `b`.
pub uninterp spec fn utf8_lossy(b: Seq<u8>) -> Seq<char>;

/// Relies on `String::from_utf8_lossy` (std): the text of `b`, each invalid
/// sequence replaced; bytes that are valid UTF-8 give the characters they
/// encode.
#[verifier::external_body]
fn lossy_text(b: &[u8]) -> (r: String)
    ensures
        r@ == utf8_lossy(b@),
        valid_utf8(b@) ==> r@ == decode_utf8(b@),
{
    String::from_utf8_lossy(b).into_owned()
}

/// The text that bytes written to a text field become: bytes that are valid
/// UTF-8 give the characters they encode, and other bytes what
/// `String::from_utf8_lossy` makes of them.
pub open spec fn text_of_bytes(b: Seq<u8>) -> Seq<char> {
    if valid_utf8(b) {
        decode_utf8(b)
    } else {
        utf8_lossy(b)
    }
}

/// A field of a metric, as a path names it.
pub enum MetricField {
    Name,
    Namespace,
    Timestamp,
    Kind,
    Tags,
    Tag(Seq<char>),
    Type,
}

/// The field that `p` names, if it names one: `name`, `namespace`,
/// `timestamp`, `kind`, `tags`, `tags.<tag>` or `type`.
pub open spec fn metric_field(p: Seq<SegmentView>) -> Option<MetricField> {
    if p.len() == 1 && p[0] is Field {
        let f = p[0]->Field_0;
        if f == "name"@ {
            Some(MetricField::Name)
        } else if f == "namespace"@ {
            Some(MetricField::Namespace)
        } else if f == "timestamp"@ {
            Some(MetricField::Timestamp)
        } else if f == "kind"@ {
            Some(MetricField::Kind)
        } else if f == "tags"@ {
            Some(MetricField::Tags)
        } else if f == "type"@ {
            Some(MetricField::Type)
        } else {
            None
        }
    } else if p.len() == 2 && p[0] == SegmentView::Field("tags"@) && p[1] is Field {
        Some(MetricField::Tag(p[1]->Field_0))
    } else {
        None
    }
}

pub open spec fn writable(f: MetricField) -> bool {
    !(f is Type)
}

pub open spec fn removable(f: MetricField) -> bool {
    f is Namespace || f is Timestamp || f is Tags || f is Tag
}

pub open spec fn text_value(s: Seq<char>) -> ValueView {
    ValueView::Bytes(encode_utf8(s))
}

pub open spec fn opt_text_value(s: Option<Seq<char>>) -> Option<ValueView> {
    match s {
        Some(t) => Some(text_value(t)),
        None => None,
    }
}

pub open spec fn tags_value(t: Map<Seq<char>, Seq<char>>) -> ValueView {
    ValueView::Object(t.map_values(|s: Seq<char>| text_value(s)))
}

/// What reading field `f` of `m` gives.
pub open spec fn metric_read(m: MetricView, f: MetricField) -> Option<ValueView> {
    match f {
        MetricField::Name => Some(text_value(m.name)),
        MetricField::Namespace => opt_text_value(m.namespace),
        MetricField::Timestamp => match m.timestamp {
            Some(t) => Some(ValueView::Timestamp(t)),
            None => None,
        },
        MetricField::Kind => Some(text_value(kind_name(m.kind))),
        MetricField::Tags => match m.tags {
            Some(t) => Some(tags_value(t)),
            None => None,
        },
        MetricField::Tag(n) => match m.tags {
            Some(t) => if t.contains_key(n) {
                Some(text_value(t[n]))
            } else {
                None
            },
            None => None,
        },
        MetricField::Type => Some(text_value(type_label(m.value))),
    }
}

/// The whole metric as one map: every field that has a value.
pub open spec fn metric_root(m: MetricView) -> ValueView {
    let base = Map::<Seq<char>, ValueView>::empty().insert("name"@, text_value(m.name));
    let with_ns = match m.namespace {
        Some(n) => base.insert("namespace"@, text_value(n)),
        None => base,
    };
    let with_ts = match m.timestamp {
        Some(t) => with_ns.insert("timestamp"@, ValueView::Timestamp(t)),
        None => with_ns,
    };
    let with_kind = with_ts.insert("kind"@, text_value(kind_name(m.kind)));
    let with_tags = match m.tags {
        Some(t) => with_kind.insert("tags"@, tags_value(t)),
        None => with_kind,
    };
    ValueView::Object(with_tags.insert("type"@, text_value(type_label(m.value))))
}

/// The kind a metric has after `kind` is set to `x`, if `x` names one.
pub open spec fn kind_from(x: ValueView) -> Option<MetricKind> {
    if x == text_value("absolute"@) {
        Some(MetricKind::Absolute)
    } else if x == text_value("incremental"@) {
        Some(MetricKind::Incremental)
    } else {
        None
    }
}

pub open spec fn tags_or_empty(m: MetricView) -> Map<Seq<char>, Seq<char>> {
    match m.tags {
        Some(t) => t,
        None => Map::empty(),
    }
}

/// All values of `o` are byte strings.
pub open spec fn all_bytes(o: Map<Seq<char>, ValueView>) -> bool {
    forall|k: Seq<char>| #[trigger] o.contains_key(k) ==> o[k] is Bytes
}

/// The metric after writing `x` to field `f`, or the kind of value the
/// field needed.
pub open spec fn metric_write(m: MetricView, f: MetricField, x: ValueView) -> Result<
    MetricView,
    ValueKind,
> {
    match f {
        MetricField::Name => match x {
            ValueView::Bytes(b) => Ok(MetricView { name: text_of_bytes(b), ..m }),
            _ => Err(ValueKind::Bytes),
        },
        MetricField::Namespace => match x {
            ValueView::Bytes(b) => Ok(MetricView { namespace: Some(text_of_bytes(b)), ..m }),
            _ => Err(ValueKind::Bytes),
        },
        MetricField::Timestamp => match x {
            ValueView::Timestamp(t) => Ok(MetricView { timestamp: Some(t), ..m }),
            _ => Err(ValueKind::Timestamp),
        },
        MetricField::Kind => match kind_from(x) {
            Some(k) => Ok(MetricView { kind: k, ..m }),
            None => Err(ValueKind::MetricKind),
        },
        MetricField::Tags => match x {
            ValueView::Object(o) => if all_bytes(o) {
                Ok(
                    MetricView {
                        tags: Some(
                            tags_or_empty(m).union_prefer_right(
                                o.map_values(|v: ValueView| text_of_bytes(v->Bytes_0)),
                            ),
                        ),
                        ..m
                    },
                )
            } else {
                Err(ValueKind::Bytes)
            },
            _ => Err(ValueKind::Object),
        },
        MetricField::Tag(n) => match x {
            ValueView::Bytes(b) => Ok(
                MetricView { tags: Some(tags_or_empty(m).insert(n, text_of_bytes(b))), ..m },
            ),
            _ => Err(ValueKind::Bytes),
        },
        MetricField::Type => Err(ValueKind::Bytes),
    }
}

/// The metric after removing field `f`, and what was removed.
pub open spec fn metric_remove(m: MetricView, f: MetricField) -> (MetricView, Option<ValueView>) {
    match f {
        MetricField::Namespace => (MetricView { namespace: None, ..m }, opt_text_value(m.namespace)),
        MetricField::Timestamp => (
            MetricView { timestamp: None, ..m },
            match m.timestamp {
                Some(t) => Some(ValueView::Timestamp(t)),
                None => None,
            },
        ),
        MetricField::Tags => (
            MetricView { tags: None, ..m },
            match m.tags {
                Some(t) => Some(tags_value(t)),
                None => None,
            },
        ),
        MetricField::Tag(n) => (
            MetricView {
                tags: match m.tags {
                    Some(t) => Some(t.remove(n)),
                    None => None,
                },
                ..m
            },
            match m.tags {
                Some(t) => if t.contains_key(n) {
                    Some(text_value(t[n]))
                } else {
                    None
                },
                None => None,
            },
        ),
        _ => (m, None),
    }
}

/// The error for a path outside what `access` accepts.
pub open spec fn invalid_path(e: TargetError, p: Seq<SegmentView>, access: Access) -> bool {
    &&& e is InvalidPath
    &&& e->InvalidPath_path@ == path_text(p)
    &&& e->InvalidPath_accepted == access
}

/// The field a path names, in executable form.
pub enum FieldName {
    Name,
    Namespace,
    Timestamp,
    Kind,
    Tags,
    Tag(String),
    Type,
}

impl View for FieldName {
    type V = MetricField;

    open spec fn view(&self) -> MetricField {
        match self {
            FieldName::Name => MetricField::Name,
            FieldName::Namespace => MetricField::Namespace,
            FieldName::Timestamp => MetricField::Timestamp,
            FieldName::Kind => MetricField::Kind,
            FieldName::Tags => MetricField::Tags,
            FieldName::Tag(n) => MetricField::Tag(n@),
            FieldName::Type => MetricField::Type,
        }
    }
}

fn field_of(p: &Path) -> (r: Option<FieldName>)
    ensures
        match r {
            Some(f) => metric_field(p@) == Some(f@),
            None => metric_field(p@) is None,
        },
{
    if p.len() == 1 {
        match p.segment(0) {
            Segment::Field(f) => {
                let f = f.as_str();
                if compare_keys(f, "name") == 0 {
                    Some(FieldName::Name)
                } else if compare_keys(f, "namespace") == 0 {
                    Some(FieldName::Namespace)
                } else if compare_keys(f, "timestamp") == 0 {
                    Some(FieldName::Timestamp)
                } else if compare_keys(f, "kind") == 0 {
                    Some(FieldName::Kind)
                } else if compare_keys(f, "tags") == 0 {
                    Some(FieldName::Tags)
                } else if compare_keys(f, "type") == 0 {
                    Some(FieldName::Type)
                } else {
                    None
                }
            },
            Segment::Index(_) => None,
        }
    } else if p.len() == 2 {
        match (p.segment(0), p.segment(1)) {
            (Segment::Field(t), Segment::Field(n)) => {
                if compare_keys(t.as_str(), "tags") == 0 {
                    Some(FieldName::Tag(n.clone()))
                } else {
                    None
                }
            },
            _ => None,
        }
    } else {
        None
    }
}

/// The tags as a map of byte strings.
fn tags_to_value(t: &MetricTags) -> (r: Value)
    ensures
        r@ == tags_value(t@.map_values(|s: String| s@)),
{
    let n = t.len();
    let mut out: SortedMap<Value> = SortedMap::new();
    let ghost tv = t@.map_values(|s: String| s@);
    let mut i: usize = 0;
    while i < n
        invariant
            n == t.key_seq().len(),
            i <= n,
            forall|k: Seq<char>| #[trigger] t@.contains_key(k) ==> t.key_seq().contains(k),
            forall|a: int, b: int|
                0 <= a < b < n ==> crate::value::key_lt(
                    #[trigger] t.key_seq()[a],
                    #[trigger] t.key_seq()[b],
                ),
            forall|k: Seq<char>| #[trigger]
                out@.contains_key(k) <==> exists|j: int| 0 <= j < i && t.key_seq()[j] == k,
            forall|k: Seq<char>| #[trigger]
                out@.contains_key(k) ==> t@.contains_key(k) && out@[k]@ == text_value(t@[k]@),
        decreases n - i,
    {
        let (k, v) = t.get_index(i);
        let x = Value::text(v.as_str());
        let _ = out.insert(k.clone(), x);
        i = i + 1;
    }
    let r = Value::Object(out);
    proof {
        let a = out@.map_values(|x: Value| x@);
        let b = tv.map_values(|s: Seq<char>| text_value(s));
        assert forall|k: Seq<char>| #[trigger] a.contains_key(k) <==> b.contains_key(k) by {
            if b.contains_key(k) {
                assert(t.key_seq().contains(k));
                let j = choose|j: int| 0 <= j < t.key_seq().len() && t.key_seq()[j] == k;
                assert(out@.contains_key(k));
            }
        }
        assert(a.dom() =~= b.dom());
        assert(a =~= b);
    }
    r
}

fn kind_of_value(x: &Value) -> (r: Option<MetricKind>)
    ensures
        r == kind_from(x@),
{
    let absolute = Value::text("absolute");
    let incremental = Value::text("incremental");
    match x {
        Value::Bytes(b) => {
            if bytes_equal(b, &absolute) {
                Some(MetricKind::Absolute)
            } else if bytes_equal(b, &incremental) {
                Some(MetricKind::Incremental)
            } else {
                None
            }
        },
        _ => None,
    }
}

/// Whether `b` is the byte string `v` holds.
fn bytes_equal(b: &Vec<u8>, v: &Value) -> (r: bool)
    requires
        v@ is Bytes,
    ensures
        r == (v@ == ValueView::Bytes(b@)),
{
    match v {
        Value::Bytes(c) => {
            if b.len() != c.len() {
                return false;
            }
            let mut i: usize = 0;
            while i < b.len()
                invariant
                    v@ == ValueView::Bytes(c@),
                    b@.len() == c@.len(),
                    i <= b@.len(),
                    b@.subrange(0, i as int) == c@.subrange(0, i as int),
                decreases b@.len() - i,
            {
                if b[i] != c[i] {
                    assert(b@[i as int] != c@[i as int]);
                    assert(b@ != c@);
                    return false;
                }
                assert(b@.subrange(0, i + 1) =~= b@.subrange(0, i as int).push(b@[i as int]));
                assert(c@.subrange(0, i + 1) =~= c@.subrange(0, i as int).push(c@[i as int]));
                i = i + 1;
            }
            assert(b@ =~= b@.subrange(0, i as int));
            assert(c@ =~= c@.subrange(0, i as int));
            true
        },
        _ => false,
    }
}

fn put(out: &mut SortedMap<Value>, k: &str, v: Value)
    ensures
        final(out)@.map_values(|x: Value| x@) == old(out)@.map_values(|x: Value| x@).insert(k@, v@),
{
    let ghost vv = v@;
    let _ = out.insert(k.to_owned(), v);
    assert(out@.map_values(|x: Value| x@) =~= old(out)@.map_values(|x: Value| x@).insert(k@, vv));
}

/// Sets each entry of `o` as a tag, after checking that every value is a
/// byte string; a value of another kind leaves the tags as they were.
fn set_tags_from(m: &mut Metric, o: &SortedMap<Value>) -> (r: Result<(), TargetError>)
    ensures
        match metric_write(old(m)@, MetricField::Tags, ValueView::Object(o@.map_values(|x: Value| x@))) {
            Ok(v) => r is Ok && final(m)@ == v,
            Err(k) => r == Err::<(), TargetError>(TargetError::WrongKind { expected: k }) && final(m)@
                == old(m)@,
        },
{
    let ghost ov = o@.map_values(|x: Value| x@);
    let n = o.len();
    let mut i: usize = 0;
    while i < n
        invariant
            n == o.key_seq().len(),
            i <= n,
            ov == o@.map_values(|x: Value| x@),
            forall|j: int| 0 <= j < i ==> (#[trigger] o@[o.key_seq()[j]])@ is Bytes,
            forall|j: int|
                0 <= j < n ==> o@.contains_key(#[trigger] o.key_seq()[j]) && o@[o.key_seq()[j]]
                    == o.value_at(j),
        decreases n - i,
    {
        let (_, v) = o.get_index(i);
        match v {
            Value::Bytes(_) => {},
            _ => {
                proof {
                    let k = o.key_seq()[i as int];
                    assert(o@.contains_key(k));
                    assert(ov.contains_key(k));
                    assert(!(ov[k] is Bytes));
                    assert(!all_bytes(ov));
                }
                return Err(TargetError::WrongKind { expected: ValueKind::Bytes });
            },
        }
        i = i + 1;
    }
    proof {
        assert forall|k: Seq<char>| #[trigger] ov.contains_key(k) implies ov[k] is Bytes by {
            assert(o.key_seq().contains(k));
            let j = choose|j: int| 0 <= j < o.key_seq().len() && o.key_seq()[j] == k;
            assert(o@[o.key_seq()[j]]@ is Bytes);
        }
    }
    let ghost base = tags_or_empty(old(m)@);
    let ghost lossy = ov.map_values(|v: ValueView| text_of_bytes(v->Bytes_0));
    if m.tags().is_none() {
        let fresh = SortedMap::new();
        assert(crate::metric::tags_view(fresh) =~= Map::<Seq<char>, Seq<char>>::empty());
        m.set_tags(Some(fresh));
    }
    assert(Set::new(|k: Seq<char>| exists|j: int| 0 <= j < 0 && o.key_seq()[j] == k) =~= Set::<
        Seq<char>,
    >::empty());
    assert(lossy.restrict(Set::empty()) =~= Map::empty());
    assert(base.union_prefer_right(Map::empty()) =~= base);
    let mut i: usize = 0;
    while i < n
        invariant
            n == o.key_seq().len(),
            i <= n,
            all_bytes(ov),
            ov == o@.map_values(|x: Value| x@),
            lossy == ov.map_values(|v: ValueView| text_of_bytes(v->Bytes_0)),
            forall|j: int|
                0 <= j < n ==> o@.contains_key(#[trigger] o.key_seq()[j]) && o@[o.key_seq()[j]]
                    == o.value_at(j),
            m@ == (MetricView {
                tags: Some(
                    base.union_prefer_right(
                        lossy.restrict(
                            Set::new(|k: Seq<char>| exists|j: int| 0 <= j < i && o.key_seq()[j] == k),
                        ),
                    ),
                ),
                ..old(m)@
            }),
        decreases n - i,
    {
        let ghost before = Set::new(|k: Seq<char>| exists|j: int| 0 <= j < i && o.key_seq()[j] == k);
        let ghost after = Set::new(
            |k: Seq<char>| exists|j: int| 0 <= j < i + 1 && o.key_seq()[j] == k,
        );
        let (k, v) = o.get_index(i);
        proof {
            assert(after =~= before.insert(k@)) by {
                assert forall|q: Seq<char>| after.contains(q) implies before.insert(k@).contains(q) by {
                    let j = choose|j: int| 0 <= j < i + 1 && o.key_seq()[j] == q;
                    if j < i {
                        assert(before.contains(q));
                    }
                }
                assert forall|q: Seq<char>| before.insert(k@).contains(q) implies after.contains(q) by {
                    if q == k@ {
                        assert(o.key_seq()[i as int] == q);
                    } else {
                        let j = choose|j: int| 0 <= j < i && o.key_seq()[j] == q;
                        assert(0 <= j < i + 1 && o.key_seq()[j] == q);
                    }
                }
            }
            assert(ov.contains_key(k@));
            assert(ov[k@] == v@);
        }
        match v {
            Value::Bytes(b) => {
                let text = lossy_text(b.as_slice());
                m.set_tag_value(k.clone(), text);
                proof {
                    assert(base.union_prefer_right(lossy.restrict(after)) =~= base.union_prefer_right(
                        lossy.restrict(before),
                    ).insert(k@, lossy[k@]));
                }
            },
            _ => {
                proof {
                    assert(false);
                }
            },
        }
        i = i + 1;
    }
    proof {
        let all = Set::new(|k: Seq<char>| exists|j: int| 0 <= j < n && o.key_seq()[j] == k);
        assert(lossy.restrict(all) =~= lossy) by {
            assert forall|q: Seq<char>| lossy.contains_key(q) implies all.contains(q) by {
                assert(o.key_seq().contains(q));
            }
        }
    }
    Ok(())
}

/// A metric as an expression program sees it: a fixed set of fields.
#[derive(Clone, Debug)]
pub enum Target {
    Event(Metric),
}

impl View for Target {
    type V = MetricView;

    open spec fn view(&self) -> MetricView {
        match self {
            Target::Event(m) => m@,
        }
    }
}

impl Target {
    pub fn into_metric(self) -> (r: Metric)
        ensures
            r@ == self@,
    {
        match self {
            Target::Event(m) => m,
        }
    }

    /// The value of the field `path` names; the root gives all fields as
    /// one map.
    pub fn get(&self, path: &Path) -> (r: Result<Option<Value>, TargetError>)
        ensures
            path@.len() == 0 ==> r is Ok && opt_view(r->Ok_0) == Some(metric_root(self@)),
            path@.len() > 0 ==> match metric_field(path@) {
                Some(f) => r is Ok && opt_view(r->Ok_0) == metric_read(self@, f),
                None => r is Err && invalid_path(r->Err_0, path@, Access::Read),
            },
    {
        let Target::Event(m) = self;
        if path.is_root() {
            let mut out: SortedMap<Value> = SortedMap::new();
            assert(out@.map_values(|x: Value| x@) =~= Map::<Seq<char>, ValueView>::empty());
            put(&mut out, "name", Value::text(m.name().as_str()));
            if let Some(ns) = m.namespace() {
                put(&mut out, "namespace", Value::text(ns.as_str()));
            }
            if let Some(t) = m.timestamp() {
                put(&mut out, "timestamp", Value::Timestamp(t));
            }
            put(&mut out, "kind", Value::text(m.kind().name()));
            if let Some(t) = m.tags() {
                put(&mut out, "tags", tags_to_value(t));
            }
            put(&mut out, "type", Value::text(m.value().type_label()));
            return Ok(Some(Value::Object(out)));
        }
        match field_of(path) {
            Some(FieldName::Name) => Ok(Some(Value::text(m.name().as_str()))),
            Some(FieldName::Namespace) => match m.namespace() {
                Some(ns) => Ok(Some(Value::text(ns.as_str()))),
                None => Ok(None),
            },
            Some(FieldName::Timestamp) => match m.timestamp() {
                Some(t) => Ok(Some(Value::Timestamp(t))),
                None => Ok(None),
            },
            Some(FieldName::Kind) => Ok(Some(Value::text(m.kind().name()))),
            Some(FieldName::Tags) => match m.tags() {
                Some(t) => Ok(Some(tags_to_value(t))),
                None => Ok(None),
            },
            Some(FieldName::Tag(n)) => match m.tag_value(n.as_str()) {
                Some(v) => Ok(Some(Value::text(v.as_str()))),
                None => Ok(None),
            },
            Some(FieldName::Type) => Ok(Some(Value::text(m.value().type_label()))),
            None => Err(TargetError::InvalidPath { path: path.to_text(), accepted: Access::Read }),
        }
    }

    /// Writes `value` to the field `path` names. The root, `type` and any
    /// path outside the fields are refused, and so is a value of the wrong
    /// kind; a refused write changes nothing.
    pub fn insert(&mut self, path: &Path, value: Value) -> (r: Result<(), TargetError>)
        ensures
            path@.len() == 0 ==> r == Err::<(), TargetError>(TargetError::MetricRoot) && final(self)@ == old(self)@,
            path@.len() > 0 ==> match metric_field(path@) {
                Some(f) => if writable(f) {
                    match metric_write(old(self)@, f, value@) {
                        Ok(m) => r is Ok && final(self)@ == m,
                        Err(k) => r == Err::<(), TargetError>(TargetError::WrongKind { expected: k })
                            && final(self)@ == old(self)@,
                    }
                } else {
                    r is Err && invalid_path(r->Err_0, path@, Access::Write) && final(self)@ == old(self)@
                },
                None => r is Err && invalid_path(r->Err_0, path@, Access::Write) && final(self)@
                    == old(self)@,
            },
    {
        if path.is_root() {
            return Err(TargetError::MetricRoot);
        }
        let Target::Event(m) = self;
        let field = match field_of(path) {
            Some(FieldName::Type) => {
                return Err(TargetError::InvalidPath { path: path.to_text(), accepted: Access::Write });
            },
            None => {
                return Err(TargetError::InvalidPath { path: path.to_text(), accepted: Access::Write });
            },
            Some(f) => f,
        };
        match field {
            FieldName::Name => match value {
                Value::Bytes(b) => {
                    m.set_name(lossy_text(b.as_slice()));
                    Ok(())
                },
                _ => Err(TargetError::WrongKind { expected: ValueKind::Bytes }),
            },
            FieldName::Namespace => match value {
                Value::Bytes(b) => {
                    m.set_namespace(Some(lossy_text(b.as_slice())));
                    Ok(())
                },
                _ => Err(TargetError::WrongKind { expected: ValueKind::Bytes }),
            },
            FieldName::Timestamp => match value {
                Value::Timestamp(t) => {
                    m.set_timestamp(Some(t));
                    Ok(())
                },
                _ => Err(TargetError::WrongKind { expected: ValueKind::Timestamp }),
            },
            FieldName::Kind => match kind_of_value(&value) {
                Some(k) => {
                    m.set_kind(k);
                    Ok(())
                },
                None => Err(TargetError::WrongKind { expected: ValueKind::MetricKind }),
            },
            FieldName::Tag(n) => match value {
                Value::Bytes(b) => {
                    m.set_tag_value(n, lossy_text(b.as_slice()));
                    Ok(())
                },
                _ => Err(TargetError::WrongKind { expected: ValueKind::Bytes }),
            },
            FieldName::Tags => match value {
                Value::Object(o) => set_tags_from(m, &o),
                _ => Err(TargetError::WrongKind { expected: ValueKind::Object }),
            },
            FieldName::Type => Err(TargetError::WrongKind { expected: ValueKind::Bytes }),
        }
    }

    /// Removes the field `path` names and returns its value. Only
    /// `namespace`, `timestamp`, `tags` and single tags can be removed.
    pub fn remove(&mut self, path: &Path, compact: bool) -> (r: Result<Option<Value>, TargetError>)
        ensures
            path@.len() == 0 ==> r == Err::<Option<Value>, TargetError>(TargetError::MetricRoot)
                && final(self)@ == old(self)@,
            path@.len() > 0 ==> match metric_field(path@) {
                Some(f) => if removable(f) {
                    r is Ok && final(self)@ == metric_remove(old(self)@, f).0 && opt_view(r->Ok_0)
                        == metric_remove(old(self)@, f).1
                } else {
                    r is Err && invalid_path(r->Err_0, path@, Access::Write) && final(self)@ == old(self)@
                },
                None => r is Err && invalid_path(r->Err_0, path@, Access::Write) && final(self)@
                    == old(self)@,
            },
    {
        if path.is_root() {
            return Err(TargetError::MetricRoot);
        }
        let Target::Event(m) = self;
        match field_of(path) {
            Some(FieldName::Namespace) => match m.take_namespace() {
                Some(ns) => Ok(Some(Value::text(ns.as_str()))),
                None => Ok(None),
            },
            Some(FieldName::Timestamp) => match m.take_timestamp() {
                Some(t) => Ok(Some(Value::Timestamp(t))),
                None => Ok(None),
            },
            Some(FieldName::Tags) => match m.take_tags() {
                Some(t) => Ok(Some(tags_to_value(&t))),
                None => Ok(None),
            },
            Some(FieldName::Tag(n)) => match m.delete_tag(n.as_str()) {
                Some(v) => Ok(Some(Value::text(v.as_str()))),
                None => Ok(None),
            },
            _ => Err(TargetError::InvalidPath { path: path.to_text(), accepted: Access::Write }),
        }
    }
}

} // verus!
