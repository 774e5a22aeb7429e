use crate::access::remove_at;
use crate::access::{get_at, insert_at};
use crate::log_event::{
    decoded, encoded, field_path, key_path, log_get, log_insert, log_remove, merge_field,
    merge_fields, EventMetadata,
};
use crate::log_target::{target_insert, TargetView};
use crate::metric_target::{
    metric_field, metric_read, metric_write, removable, text_of_bytes, text_value, writable,
    MetricField,
};
use crate::metric::MetricView;
use crate::path::SegmentView;
use crate::value::ValueView;
use crate::vrl_target::{is_log, message_fields, value_events, Event, LogSchema};
use vstd::prelude::*;
use vstd::utf8::encode_utf8;

verus! {

/// Reading a value into a record and writing the record back gives the
/// value again, whatever maps, arrays and scalars it nests; and writing a
/// record out and reading it back gives the same fields.
pub proof fn lemma_round_trip(v: ValueView, f: Map<Seq<char>, ValueView>)
    ensures
        decoded(v) is Some ==> encoded(decoded(v)->0) == v,
        decoded(encoded(f)) == Some(f),
{
}

proof fn lemma_remove_keeps_object(v: ValueView, p: Seq<SegmentView>, compact: bool)
    requires
        v is Object,
        p.len() > 0,
        p[0] is Field,
    ensures
        remove_at(v, p, compact).0 is Object,
{
}

proof fn lemma_remove_at_twice(v: ValueView, p: Seq<SegmentView>, compact: bool)
    requires
        p.len() > 0,
        p.last() is Field,
    ensures
        remove_at(remove_at(v, p, compact).0, p, compact) == (remove_at(v, p, compact).0, None::<
            ValueView,
        >),
    decreases p.len(),
{
    if p.len() > 1 {
        let rest = p.drop_first();
        assert(rest.last() == p.last());
        match (v, p[0]) {
            (ValueView::Object(m), SegmentView::Field(k)) => {
                if m.contains_key(k) {
                    lemma_remove_at_twice(m[k], rest, compact);
                }
            },
            (ValueView::Array(a), SegmentView::Index(i)) => {
                match crate::access::resolve_index(a.len() as int, i) {
                    Some(j) => {
                        lemma_remove_at_twice(a[j], rest, compact);
                        let (c, r) = remove_at(a[j], rest, compact);
                        if r is Some {
                            assert(a.update(j, c)[j] == c);
                        }
                    },
                    None => {},
                }
            },
            _ => {},
        }
    }
}

/// Removing the same path twice: the second removal finds nothing and
/// changes nothing. This holds for every path that ends in a field name; a
/// path that ends in an index addresses, after the first removal, the element
/// that moved into its place.
pub proof fn lemma_remove_twice(f: Map<Seq<char>, ValueView>, p: Seq<SegmentView>, compact: bool)
    requires
        p.len() > 0,
        p.last() is Field,
    ensures
        log_remove(log_remove(f, p, compact).0, p, compact) == (log_remove(f, p, compact).0, None::<
            ValueView,
        >),
{
    if field_path(p) {
        let v = ValueView::Object(f);
        lemma_remove_keeps_object(v, p, compact);
        lemma_remove_at_twice(v, p, compact);
        assert(ValueView::Object(remove_at(v, p, compact).0->Object_0) == remove_at(v, p, compact).0);
    }
}

/// Assigning an array to the root of a log value and turning the target back
/// into events gives one event per element, in order, each holding its
/// element as the message and the same metadata. With a message key that is
/// a plain name (whatever name the schema sets), each event holds that one
/// field and nothing else.
pub proof fn lemma_fan_out(
    v: ValueView,
    items: Seq<ValueView>,
    md: EventMetadata,
    schema: LogSchema,
    r: Seq<Event>,
)
    requires
        value_events(
            target_insert(TargetView::Value(v), Seq::empty(), ValueView::Array(items))->0->Value_0,
            md,
            schema,
            r,
        ),
    ensures
        r.len() == items.len(),
        forall|i: int| 0 <= i < r.len() ==> is_log(#[trigger] r[i], message_fields(schema, items[i]), md),
        key_path(schema.spec_message_key()) == seq![SegmentView::Field(schema.spec_message_key())]
            ==> forall|i: int|
            0 <= i < r.len() ==> is_log(
                #[trigger] r[i],
                Map::<Seq<char>, ValueView>::empty().insert(schema.spec_message_key(), items[i]),
                md,
            ),
{
    if key_path(schema.spec_message_key()) == seq![SegmentView::Field(schema.spec_message_key())] {
        assert forall|i: int| 0 <= i < r.len() implies is_log(
            #[trigger] r[i],
            Map::<Seq<char>, ValueView>::empty().insert(schema.spec_message_key(), items[i]),
            md,
        ) by {
            lemma_message_fields(schema, items[i]);
        }
    }
}

/// The paths a metric accepts are exactly `name`, `namespace`, `timestamp`,
/// `kind`, `tags`, `tags.<tag>` and `type`; writes accept all of them but
/// `type`, and removals only `namespace`, `timestamp`, `tags` and single tags.
/// Every other path is refused by `get`, `insert` and `remove` with an
/// invalid-path error that names the accepted set of that operation.
pub proof fn lemma_metric_paths(p: Seq<SegmentView>)
    ensures
        metric_field(p) is Some <==> (p == seq![SegmentView::Field("name"@)] || p == seq![
            SegmentView::Field("namespace"@),
        ] || p == seq![SegmentView::Field("timestamp"@)] || p == seq![SegmentView::Field("kind"@)]
            || p == seq![SegmentView::Field("tags"@)] || p == seq![SegmentView::Field("type"@)] || (
        p.len() == 2 && p[0] == SegmentView::Field("tags"@) && p[1] is Field)),
        metric_field(p) is Some ==> (writable(metric_field(p)->0) <==> p != seq![
            SegmentView::Field("type"@),
        ]),
        metric_field(p) is Some ==> (removable(metric_field(p)->0) <==> (p == seq![
            SegmentView::Field("namespace"@),
        ] || p == seq![SegmentView::Field("timestamp"@)] || p == seq![SegmentView::Field("tags"@)]
            || p.len() == 2)),
{
    if p.len() == 1 {
        assert(p == seq![p[0]]);
    }
    reveal_strlit("name");
    reveal_strlit("namespace");
    reveal_strlit("timestamp");
    reveal_strlit("kind");
    reveal_strlit("tags");
    reveal_strlit("type");
    assert("name"@[0] != "type"@[0] && "kind"@[0] != "type"@[0] && "tags"@[1] != "type"@[1]);
    assert("namespace"@.len() != "type"@.len() && "timestamp"@.len() != "type"@.len());
    assert("name"@.len() != "namespace"@.len() && "kind"@.len() != "namespace"@.len());
    assert("name"@.len() != "timestamp"@.len() && "kind"@.len() != "timestamp"@.len());
    assert("name"@[0] != "tags"@[0] && "kind"@[0] != "tags"@[0] && "type"@[1] != "tags"@[1]);
    assert("namespace"@[0] != "timestamp"@[0] && "namespace"@.len() != "tags"@.len());
    assert("timestamp"@.len() != "tags"@.len());
}

/// Text written to a text field of a metric reads back as the same text:
/// the bytes of a string are valid UTF-8 and decode to that string. So
/// writing the bytes of `s` to `name`, `namespace` or a tag, then reading the
/// field, gives the bytes of `s` again.
pub proof fn lemma_text_reads_back(m: MetricView, f: MetricField, s: Seq<char>)
    requires
        f is Name || f is Namespace || f is Tag,
    ensures
        text_of_bytes(encode_utf8(s)) == s,
        metric_write(m, f, text_value(s)) is Ok,
        metric_read(metric_write(m, f, text_value(s))->Ok_0, f) == Some(text_value(s)),
{
    vstd::utf8::encode_utf8_valid_utf8(s);
    vstd::utf8::encode_utf8_decode_utf8(s);
}

/// One step of a merge on a plain top-level name `f`: `f` leaves the incoming
/// fields, and the current fields gain `f` where the incoming fields had it;
/// no other name changes on either side.
proof fn lemma_merge_field_top(cur: Map<Seq<char>, ValueView>, inc: Map<Seq<char>, ValueView>, f: Seq<char>)
    requires
        key_path(f) == seq![SegmentView::Field(f)],
    ensures
        forall|k: Seq<char>| #[trigger]
            merge_field(cur, inc, f).1.contains_key(k) <==> inc.contains_key(k) && k != f,
        forall|k: Seq<char>| #[trigger]
            merge_field(cur, inc, f).0.contains_key(k) <==> cur.contains_key(k) || (k == f
                && inc.contains_key(f)),
        forall|k: Seq<char>|
            k != f && cur.contains_key(k) ==> #[trigger] merge_field(cur, inc, f).0[k] == cur[k],
{
    let p = seq![SegmentView::Field(f)];
    assert(p.drop_first() =~= Seq::<SegmentView>::empty());
    assert(field_path(p));
    let (rest, taken) = log_remove(inc, p, false);
    if inc.contains_key(f) {
        assert(rest == inc.remove(f));
        let x = inc[f];
        assert(taken == Some(x));
        if cur.contains_key(f) {
            assert(get_at(cur[f], Seq::<SegmentView>::empty()) == Some(cur[f]));
        }
        let cm = if cur.contains_key(f) { cur[f] } else { ValueView::Null };
        let y = match log_get(cur, p) {
            Some(c) => crate::value::merged(c, x),
            None => x,
        };
        assert(insert_at(cm, Seq::<SegmentView>::empty(), y) == y);
        assert(log_insert(cur, p, y) == cur.insert(f, y));
    } else {
        assert(rest == inc);
        assert(taken is None);
    }
}

/// A selective merge on plain top-level names touches only the names listed:
/// a name not listed keeps its value (or stays absent), even where the
/// incoming record has it; and the merged record has exactly its own names
/// plus the listed names that the incoming record holds.
pub proof fn lemma_selective_merge(
    cur: Map<Seq<char>, ValueView>,
    inc: Map<Seq<char>, ValueView>,
    keys: Seq<Seq<char>>,
)
    requires
        forall|i: int| 0 <= i < keys.len() ==> key_path(#[trigger] keys[i]) == seq![SegmentView::Field(keys[i])],
    ensures
        forall|k: Seq<char>|
            !keys.contains(k) && cur.contains_key(k) ==> #[trigger] merge_fields(cur, inc, keys)[k]
                == cur[k],
        forall|k: Seq<char>| #[trigger]
            merge_fields(cur, inc, keys).contains_key(k) <==> cur.contains_key(k) || (keys.contains(k)
                && inc.contains_key(k)),
    decreases keys.len(),
{
    if keys.len() > 0 {
        let f = keys[0];
        let rest = keys.drop_first();
        assert(key_path(f) == seq![SegmentView::Field(f)]);
        lemma_merge_field_top(cur, inc, f);
        let (c2, i2) = merge_field(cur, inc, f);
        assert forall|i: int| 0 <= i < rest.len() implies key_path(#[trigger] rest[i]) == seq![
            SegmentView::Field(rest[i]),
        ] by {
            assert(rest[i] == keys[i + 1]);
        }
        lemma_selective_merge(c2, i2, rest);
        assert(merge_fields(cur, inc, keys) == merge_fields(c2, i2, rest));
        assert forall|k: Seq<char>| keys.contains(k) <==> (k == f || rest.contains(k)) by {
            if keys.contains(k) {
                let j = choose|j: int| 0 <= j < keys.len() && keys[j] == k;
                if j > 0 {
                    assert(rest[j - 1] == k);
                }
            }
            if rest.contains(k) {
                let j = choose|j: int| 0 <= j < rest.len() && rest[j] == k;
                assert(keys[j + 1] == k);
            }
            if k == f {
                assert(keys[0] == k);
            }
        }
        let r = merge_fields(cur, inc, keys);
        assert forall|k: Seq<char>|
            !keys.contains(k) && cur.contains_key(k) implies #[trigger] r[k] == cur[k] by {
            assert(k != f && !rest.contains(k));
            assert(c2.contains_key(k));
        }
        assert forall|k: Seq<char>| #[trigger] r.contains_key(k) <==> cur.contains_key(k) || (
        keys.contains(k) && inc.contains_key(k)) by {
            assert(r.contains_key(k) <==> c2.contains_key(k) || (rest.contains(k)
                && i2.contains_key(k)));
        }
    }
}

/// With a plain message key, a record made to carry `x` has that one field.
pub proof fn lemma_message_fields(schema: LogSchema, x: ValueView)
    requires
        key_path(schema.spec_message_key()) == seq![SegmentView::Field(schema.spec_message_key())],
    ensures
        message_fields(schema, x) == Map::<Seq<char>, ValueView>::empty().insert(
            schema.spec_message_key(),
            x,
        ),
{
    let p = seq![SegmentView::Field(schema.spec_message_key())];
    assert(p.drop_first() =~= Seq::<SegmentView>::empty());
    assert(insert_at(ValueView::Null, Seq::<SegmentView>::empty(), x) == x);
}

/// A plain name (identifier characters only) read as a path is the one
/// field of that name; this is what `lemma_selective_merge` and
/// `lemma_fan_out` ask of their names.
pub proof fn lemma_plain_key(f: Seq<char>)
    requires
        crate::path::plain_name(f),
    ensures
        key_path(f) == seq![SegmentView::Field(f)],
{
    let q = seq![SegmentView::Field(f)];
    assert(q.drop_last() =~= Seq::<SegmentView>::empty());
    assert(crate::path::path_text(q.drop_last()) == Seq::<char>::empty());
    assert(q.last() == SegmentView::Field(f));
    assert(crate::path::segment_text(q.last()) == f);
    assert(crate::path::path_text(q) =~= f);
    crate::path::lemma_parse_written(q);
}

} // verus!
