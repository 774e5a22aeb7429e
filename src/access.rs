use crate::path::{lemma_path_lt_split, max_index, path_lt, segment_lt, Path, Segment, SegmentView};
use crate::value::{lemma_value_view, SortedMap, Value, ValueView};
use vstd::prelude::*;

verus! {

broadcast use lemma_value_view;

/// The position that index `i` addresses in an array of `len` elements;
/// a negative index counts from the end.
pub open spec fn resolve_index(len: int, i: int) -> Option<int> {
    if 0 <= i < len {
        Some(i)
    } else if i < 0 && len + i >= 0 {
        Some(len + i)
    } else {
        None
    }
}

/// The value that `p` addresses inside `v`, if there is one.
pub open spec fn get_at(v: ValueView, p: Seq<SegmentView>) -> Option<ValueView>
    decreases p.len(),
{
    if p.len() == 0 {
        Some(v)
    } else {
        match (v, p[0]) {
            (ValueView::Object(m), SegmentView::Field(k)) => if m.contains_key(k) {
                get_at(m[k], p.drop_first())
            } else {
                None
            },
            (ValueView::Array(a), SegmentView::Index(i)) => match resolve_index(a.len() as int, i) {
                Some(j) => get_at(a[j], p.drop_first()),
                None => None,
            },
            _ => None,
        }
    }
}

pub open spec fn nulls(n: int) -> Seq<ValueView> {
    Seq::new(n as nat, |j: int| ValueView::Null)
}

/// `v` with `x` stored at `p`. Missing maps and arrays on the way are created,
/// and a value on the way that is not of the kind the next segment needs is
/// replaced by an empty one. An index past either end pads the array with
/// nulls.
pub open spec fn insert_at(v: ValueView, p: Seq<SegmentView>, x: ValueView) -> ValueView
    decreases p.len(),
{
    if p.len() == 0 {
        x
    } else {
        match p[0] {
            SegmentView::Field(k) => {
                let m = match v {
                    ValueView::Object(m) => m,
                    _ => Map::<Seq<char>, ValueView>::empty(),
                };
                let child = if m.contains_key(k) {
                    m[k]
                } else {
                    ValueView::Null
                };
                ValueView::Object(m.insert(k, insert_at(child, p.drop_first(), x)))
            },
            SegmentView::Index(i) => {
                let a = match v {
                    ValueView::Array(a) => a,
                    _ => Seq::<ValueView>::empty(),
                };
                match resolve_index(a.len() as int, i) {
                    Some(j) => ValueView::Array(a.update(j, insert_at(a[j], p.drop_first(), x))),
                    None => if i >= 0 {
                        ValueView::Array(
                            a + nulls(i - a.len()) + seq![insert_at(ValueView::Null, p.drop_first(), x)],
                        )
                    } else {
                        ValueView::Array(
                            seq![insert_at(ValueView::Null, p.drop_first(), x)] + nulls(
                                -i - 1 - a.len(),
                            ) + a,
                        )
                    },
                }
            },
        }
    }
}

/// `v` without what `p` addresses, and what was removed. With `compact`, a
/// map that the removal leaves empty is removed from the map that holds it,
/// up the path; an array never loses an element that way.
pub open spec fn remove_at(v: ValueView, p: Seq<SegmentView>, compact: bool) -> (
    ValueView,
    Option<ValueView>,
)
    decreases p.len(),
{
    if p.len() == 0 {
        (v, None)
    } else {
        match (v, p[0]) {
            (ValueView::Object(m), SegmentView::Field(k)) => if !m.contains_key(k) {
                (v, None)
            } else if p.len() == 1 {
                (ValueView::Object(m.remove(k)), Some(m[k]))
            } else {
                let (c, r) = remove_at(m[k], p.drop_first(), compact);
                if r is None {
                    (v, None)
                } else if compact && c == ValueView::Object(Map::empty()) {
                    (ValueView::Object(m.remove(k)), r)
                } else {
                    (ValueView::Object(m.insert(k, c)), r)
                }
            },
            (ValueView::Array(a), SegmentView::Index(i)) => match resolve_index(a.len() as int, i) {
                None => (v, None),
                Some(j) => if p.len() == 1 {
                    (ValueView::Array(a.remove(j)), Some(a[j]))
                } else {
                    let (c, r) = remove_at(a[j], p.drop_first(), compact);
                    if r is None {
                        (v, None)
                    } else {
                        (ValueView::Array(a.update(j, c)), r)
                    }
                },
            },
            _ => (v, None),
        }
    }
}

pub open spec fn opt_view(o: Option<Value>) -> Option<ValueView> {
    match o {
        Some(v) => Some(v@),
        None => None,
    }
}

pub open spec fn opt_ref_view(o: Option<&Value>) -> Option<ValueView> {
    match o {
        Some(v) => Some(v@),
        None => None,
    }
}

pub open spec fn rest_of(p: Seq<SegmentView>, i: int) -> Seq<SegmentView> {
    p.subrange(i, p.len() as int)
}

proof fn lemma_rest_step(p: Seq<SegmentView>, i: int)
    requires
        0 <= i < p.len(),
    ensures
        rest_of(p, i).len() > 0,
        rest_of(p, i)[0] == p[i],
        rest_of(p, i).drop_first() == rest_of(p, i + 1),
{
    assert(rest_of(p, i).drop_first() =~= rest_of(p, i + 1));
}

/// Position that `idx` addresses in an array of `len` elements, if any.
fn index_position(len: usize, idx: i64) -> (r: Option<usize>)
    ensures
        match r {
            Some(j) => resolve_index(len as int, idx as int) == Some(j as int),
            None => resolve_index(len as int, idx as int) is None,
        },
{
    if idx >= 0 {
        if (idx as u64) < (len as u64) {
            Some(idx as usize)
        } else {
            None
        }
    } else {
        let back = (len as i128) + (idx as i128);
        if back >= 0 {
            Some(back as usize)
        } else {
            None
        }
    }
}

/// The value that `p[i..]` addresses inside `v`.
pub fn get_rec<'a>(v: &'a Value, p: &Path, i: usize) -> (r: Option<&'a Value>)
    requires
        i <= p@.len(),
    ensures
        opt_ref_view(r) == get_at(v@, rest_of(p@, i as int)),
    decreases p@.len() - i,
{
    if i == p.len() {
        assert(rest_of(p@, i as int) =~= Seq::<SegmentView>::empty());
        return Some(v);
    }
    proof {
        lemma_rest_step(p@, i as int);
    }
    match (v, p.segment(i)) {
        (Value::Object(m), Segment::Field(k)) => match m.get(k.as_str()) {
            Some(child) => get_rec(child, p, i + 1),
            None => None,
        },
        (Value::Array(a), Segment::Index(idx)) => match index_position(a.len(), *idx) {
            Some(j) => get_rec(&a[j], p, i + 1),
            None => None,
        },
        _ => None,
    }
}

/// Stores `x` at `p[i..]` inside `v`; returns the value it replaced, if the
/// whole path was there.
pub fn insert_rec(v: &mut Value, p: &Path, i: usize, x: Value) -> (r: Option<Value>)
    requires
        i <= p@.len(),
    ensures
        final(v)@ == insert_at(old(v)@, rest_of(p@, i as int), x@),
        opt_view(r) == get_at(old(v)@, rest_of(p@, i as int)),
    decreases p@.len() - i,
{
    if i == p.len() {
        assert(rest_of(p@, i as int) =~= Seq::<SegmentView>::empty());
        let mut x = x;
        std::mem::swap(v, &mut x);
        return Some(x);
    }
    proof {
        lemma_rest_step(p@, i as int);
    }
    let ghost old_v = v@;
    let ghost xv = x@;
    let ghost rest = rest_of(p@, i as int + 1);
    match p.segment(i) {
        Segment::Field(k) => {
            let is_object = matches!(*v, Value::Object(_));
            if !is_object {
                *v = Value::Object(SortedMap::new());
                assert(Map::<Seq<char>, Value>::empty().map_values(|x: Value| x@) =~= Map::<
                    Seq<char>,
                    ValueView,
                >::empty());
            }
            match v {
                Value::Object(m) => {
                    let ghost m0 = m@;
                    let taken = m.remove(k.as_str());
                    let existed = taken.is_some();
                    let mut child = match taken {
                        Some(c) => c,
                        None => Value::Null,
                    };
                    let r = insert_rec(&mut child, p, i + 1, x);
                    let ghost cv = child@;
                    m.insert(k.clone(), child);
                    proof {
                        assert(m@ == m0.remove(k@).insert(k@, child));
                        assert(m@.map_values(|x: Value| x@) =~= m0.map_values(|x: Value| x@).insert(
                            k@,
                            cv,
                        ));
                    }
                    if existed {
                        r
                    } else {
                        None
                    }
                },
                _ => {
                    proof {
                        assert(false);
                    }
                    None
                },
            }
        },
        Segment::Index(idx) => {
            let is_array = matches!(*v, Value::Array(_));
            if !is_array {
                *v = Value::Array(Vec::new());
                assert(Seq::<Value>::empty().map_values(|x: Value| x@) =~= Seq::<
                    ValueView,
                >::empty());
            }
            match v {
                Value::Array(a) => {
                    let ghost a0 = a@;
                    let ghost av = a@.map_values(|x: Value| x@);
                    let len = a.len();
                    match index_position(len, *idx) {
                        Some(j) => {
                            let mut child = a.remove(j);
                            let r = insert_rec(&mut child, p, i + 1, x);
                            let ghost cv = child@;
                            a.insert(j, child);
                            proof {
                                assert(a@ =~= a0.update(j as int, child));
                                assert(a@.map_values(|x: Value| x@) =~= av.update(j as int, cv));
                            }
                            r
                        },
                        None => {
                            let mut child = Value::Null;
                            let _ = insert_rec(&mut child, p, i + 1, x);
                            let ghost cv = child@;
                            if *idx >= 0 {
                                let target = *idx as u64;
                                while (a.len() as u64) < target
                                    invariant
                                        len == a0.len(),
                                        len <= a@.len() <= target,
                                        target == *idx,
                                        forall|j: int| 0 <= j < len ==> #[trigger] a@[j] == a0[j],
                                        forall|j: int|
                                            len <= j < a@.len() ==> #[trigger] a@[j]
                                                == Value::Null,
                                    decreases target - a@.len(),
                                {
                                    a.push(Value::Null);
                                }
                                a.push(child);
                                proof {
                                    assert(a@.map_values(|x: Value| x@) =~= av + nulls(
                                        *idx as int - len,
                                    ) + seq![cv]);
                                }
                            } else {
                                let pad = ((-(*idx as i128)) - 1 - (len as i128)) as u64;
                                let mut nv: Vec<Value> = Vec::new();
                                nv.push(child);
                                let mut c: u64 = 0;
                                while c < pad
                                    invariant
                                        nv@.len() == c + 1,
                                        c <= pad,
                                        nv@[0] == child,
                                        forall|j: int| 1 <= j < nv@.len() ==> #[trigger] nv@[j]
                                            == Value::Null,
                                    decreases pad - c,
                                {
                                    nv.push(Value::Null);
                                    c = c + 1;
                                }
                                let ghost nv0 = nv@;
                                nv.append(a);
                                std::mem::swap(a, &mut nv);
                                proof {
                                    assert(a@ =~= nv0 + a0);
                                    assert(a@.map_values(|x: Value| x@) =~= seq![cv] + nulls(
                                        -*idx as int - 1 - len,
                                    ) + av);
                                }
                            }
                            None
                        },
                    }
                },
                _ => {
                    proof {
                        assert(false);
                    }
                    None
                },
            }
        },
    }
}

/// Whether `v` is a map with no entries.
fn is_empty_object(v: &Value) -> (r: bool)
    ensures
        r == (v@ == ValueView::Object(Map::empty())),
{
    match v {
        Value::Object(m) => {
            let r = m.is_empty();
            proof {
                if r {
                    assert(m@.map_values(|x: Value| x@) =~= Map::<Seq<char>, ValueView>::empty());
                } else if v@ == ValueView::Object(Map::empty()) {
                    assert(m@.map_values(|x: Value| x@).dom() =~= m@.dom());
                    assert(m@ =~= Map::<Seq<char>, Value>::empty());
                }
            }
            r
        },
        _ => false,
    }
}

/// Removes what `p[i..]` addresses inside `v` and returns it, compacting
/// emptied maps when `compact` holds.
pub fn remove_rec(v: &mut Value, p: &Path, i: usize, compact: bool) -> (r: Option<Value>)
    requires
        i < p@.len(),
    ensures
        final(v)@ == remove_at(old(v)@, rest_of(p@, i as int), compact).0,
        opt_view(r) == remove_at(old(v)@, rest_of(p@, i as int), compact).1,
    decreases p@.len() - i,
{
    proof {
        lemma_rest_step(p@, i as int);
    }
    let last = i == p.len() - 1;
    match p.segment(i) {
        Segment::Field(k) => match v {
            Value::Object(m) => {
                let ghost m0 = m@;
                if !m.contains_key(k.as_str()) {
                    return None;
                }
                let taken = m.remove(k.as_str());
                let mut child = match taken {
                    Some(c) => c,
                    None => {
                        proof {
                            assert(false);
                        }
                        Value::Null
                    },
                };
                if last {
                    proof {
                        assert(m@.map_values(|x: Value| x@) =~= m0.map_values(|x: Value| x@).remove(
                            k@,
                        ));
                    }
                    return Some(child);
                }
                let ghost c0 = child;
                let r = remove_rec(&mut child, p, i + 1, compact);
                let ghost cv = child@;
                if r.is_none() {
                    m.insert(k.clone(), child);
                    proof {
                        assert(m@ =~= m0.remove(k@).insert(k@, child));
                        assert(m@.map_values(|x: Value| x@) =~= m0.map_values(|x: Value| x@));
                    }
                    return None;
                }
                if compact && is_empty_object(&child) {
                    proof {
                        assert(m@.map_values(|x: Value| x@) =~= m0.map_values(|x: Value| x@).remove(
                            k@,
                        ));
                    }
                } else {
                    m.insert(k.clone(), child);
                    proof {
                        assert(m@ =~= m0.remove(k@).insert(k@, child));
                        assert(m@.map_values(|x: Value| x@) =~= m0.map_values(|x: Value| x@).insert(
                            k@,
                            cv,
                        ));
                    }
                }
                r
            },
            _ => None,
        },
        Segment::Index(idx) => match v {
            Value::Array(a) => match index_position(a.len(), *idx) {
                None => None,
                Some(j) => {
                    let ghost a0 = a@;
                    let mut child = a.remove(j);
                    if last {
                        proof {
                            assert(a@.map_values(|x: Value| x@) =~= a0.map_values(|x: Value| x@).remove(
                                j as int,
                            ));
                        }
                        return Some(child);
                    }
                    let r = remove_rec(&mut child, p, i + 1, compact);
                    let ghost cv = child@;
                    a.insert(j, child);
                    proof {
                        assert(a@ =~= a0.update(j as int, child));
                        assert(a@.map_values(|x: Value| x@) =~= a0.map_values(|x: Value| x@).update(
                            j as int,
                            cv,
                        ));
                        if r is None {
                            assert(a@.map_values(|x: Value| x@) =~= a0.map_values(|x: Value| x@));
                        }
                    }
                    r
                },
            },
            _ => None,
        },
    }
}

/// The paths from `v` to the values inside it that are neither maps nor
/// arrays: a scalar is its own only leaf, and an empty map or array has none.
#[verifier::opaque]
pub open spec fn leaf_paths(v: ValueView) -> Set<Seq<SegmentView>>
    decreases v,
{
    match v {
        ValueView::Object(m) => Set::new(
            |p: Seq<SegmentView>|
                p.len() > 0 && p[0] is Field && m.contains_key(p[0]->Field_0) && leaf_paths(
                    m[p[0]->Field_0],
                ).contains(p.drop_first()),
        ),
        ValueView::Array(a) => Set::new(
            |p: Seq<SegmentView>|
                p.len() > 0 && p[0] is Index && 0 <= p[0]->Index_0 < a.len() && p[0]->Index_0
                    <= max_index() && leaf_paths(a[p[0]->Index_0]).contains(p.drop_first()),
        ),
        _ => Set::empty().insert(Seq::empty()),
    }
}

proof fn lemma_leaf_of_object(m: Map<Seq<char>, ValueView>, q: Seq<SegmentView>)
    ensures
        leaf_paths(ValueView::Object(m)).contains(q) <==> (q.len() > 0 && q[0] is Field
            && m.contains_key(q[0]->Field_0) && leaf_paths(m[q[0]->Field_0]).contains(
            q.drop_first(),
        )),
{
    reveal(leaf_paths);
}

proof fn lemma_leaf_of_array(a: Seq<ValueView>, q: Seq<SegmentView>)
    ensures
        leaf_paths(ValueView::Array(a)).contains(q) <==> (q.len() > 0 && q[0] is Index && 0
            <= q[0]->Index_0 < a.len() && q[0]->Index_0 <= max_index() && leaf_paths(
            a[q[0]->Index_0],
        ).contains(q.drop_first())),
{
    reveal(leaf_paths);
}

proof fn lemma_leaf_of_scalar(v: ValueView)
    requires
        !(v is Object),
        !(v is Array),
    ensures
        leaf_paths(v) == Set::<Seq<SegmentView>>::empty().insert(Seq::empty()),
{
    reveal(leaf_paths);
}

proof fn lemma_cons(s: SegmentView, q2: Seq<SegmentView>)
    ensures
        (seq![s] + q2).len() > 0,
        (seq![s] + q2)[0] == s,
        (seq![s] + q2).drop_first() == q2,
{
    assert((seq![s] + q2).drop_first() =~= q2);
}

proof fn lemma_extend(prefix: Seq<SegmentView>, s: SegmentView, q2: Seq<SegmentView>)
    ensures
        prefix.push(s) + q2 == prefix + (seq![s] + q2),
{
    assert(prefix.push(s) + q2 =~= prefix + (seq![s] + q2));
}

proof fn lemma_split(q: Seq<SegmentView>)
    requires
        q.len() > 0,
    ensures
        q == seq![q[0]] + q.drop_first(),
{
    assert(q =~= seq![q[0]] + q.drop_first());
}

/// A leaf path addresses a value.
pub proof fn lemma_leaf_is_present(v: ValueView, q: Seq<SegmentView>)
    requires
        leaf_paths(v).contains(q),
    ensures
        get_at(v, q) is Some,
    decreases q.len(),
{
    match v {
        ValueView::Object(m) => {
            lemma_leaf_of_object(m, q);
            lemma_leaf_is_present(m[q[0]->Field_0], q.drop_first());
        },
        ValueView::Array(a) => {
            lemma_leaf_of_array(a, q);
            lemma_leaf_is_present(a[q[0]->Index_0], q.drop_first());
        },
        _ => {
            lemma_leaf_of_scalar(v);
            assert(q == Seq::<SegmentView>::empty());
        },
    }
}

/// Every index on a leaf path is a position in an array, so it fits an
/// `i64`.
pub proof fn lemma_leaf_indices(v: ValueView, q: Seq<SegmentView>)
    requires
        leaf_paths(v).contains(q),
    ensures
        forall|j: int| 0 <= j < q.len() ==> crate::path::writable_index(#[trigger] q[j]),
    decreases q.len(),
{
    match v {
        ValueView::Object(m) => {
            lemma_leaf_of_object(m, q);
            lemma_leaf_indices(m[q[0]->Field_0], q.drop_first());
            assert forall|j: int| 0 <= j < q.len() implies crate::path::writable_index(#[trigger] q[j]) by {
                if j > 0 {
                    assert(q[j] == q.drop_first()[j - 1]);
                }
            }
        },
        ValueView::Array(a) => {
            lemma_leaf_of_array(a, q);
            lemma_leaf_indices(a[q[0]->Index_0], q.drop_first());
            assert forall|j: int| 0 <= j < q.len() implies crate::path::writable_index(#[trigger] q[j]) by {
                if j > 0 {
                    assert(q[j] == q.drop_first()[j - 1]);
                }
            }
        },
        _ => {
            lemma_leaf_of_scalar(v);
            assert(q == Seq::<SegmentView>::empty());
        },
    }
}

/// A leaf path of a record starts with a field name.
pub proof fn lemma_leaf_of_record(f: Map<Seq<char>, ValueView>, q: Seq<SegmentView>)
    requires
        leaf_paths(ValueView::Object(f)).contains(q),
    ensures
        q.len() > 0,
        q[0] is Field,
{
    lemma_leaf_of_object(f, q);
}

/// `p` is `prefix` followed by a leaf path of `v`.
pub open spec fn extends_leaf(v: ValueView, prefix: Seq<SegmentView>, p: Seq<SegmentView>) -> bool {
    exists|q: Seq<SegmentView>| #[trigger] leaf_paths(v).contains(q) && p == prefix + q
}

/// Some path in `out` from position `start` on is `p`.
pub open spec fn listed(out: Seq<Path>, start: int, p: Seq<SegmentView>) -> bool {
    exists|j: int| start <= j < out.len() && (#[trigger] out[j])@ == p
}

/// The paths in `out` from position `start` on are in strictly ascending
/// order.
pub open spec fn sorted_from(out: Seq<Path>, start: int) -> bool {
    forall|a: int, b: int|
        start <= a < b < out.len() ==> path_lt(#[trigger] out[a]@, #[trigger] out[b]@)
}

/// `p` goes on from `prefix` with a segment that comes before `s`.
pub open spec fn branch_before(p: Seq<SegmentView>, prefix: Seq<SegmentView>, s: SegmentView) -> bool {
    &&& p.len() > prefix.len()
    &&& p.subrange(0, prefix.len() as int) == prefix
    &&& segment_lt(p[prefix.len() as int], s)
}

/// Appending the paths under one child keeps `out` sorted, when the paths
/// already there branch off before that child.
proof fn lemma_order_step(
    before: Seq<Path>,
    after: Seq<Path>,
    start: int,
    prefix: Seq<SegmentView>,
    s: SegmentView,
    child: ValueView,
)
    requires
        0 <= start <= before.len() <= after.len(),
        forall|j: int| 0 <= j < before.len() ==> #[trigger] after[j] == before[j],
        sorted_from(before, start),
        forall|j: int| start <= j < before.len() ==> branch_before(#[trigger] before[j]@, prefix, s),
        sorted_from(after, before.len() as int),
        forall|j: int|
            before.len() <= j < after.len() ==> extends_leaf(child, prefix.push(s), (#[trigger] after[j])@),
    ensures
        sorted_from(after, start),
        forall|j: int, s2: SegmentView|
            before.len() <= j < after.len() && segment_lt(s, s2) ==> #[trigger] branch_before(
                after[j]@,
                prefix,
                s2,
            ),
{
    assert forall|j: int, s2: SegmentView|
        before.len() <= j < after.len() && segment_lt(s, s2) implies #[trigger] branch_before(
        after[j]@,
        prefix,
        s2,
    ) by {
        let q2 = choose|q2: Seq<SegmentView>|
            #[trigger] leaf_paths(child).contains(q2) && after[j]@ == prefix.push(s) + q2;
        assert(after[j]@.subrange(0, prefix.len() as int) =~= prefix);
        assert(after[j]@[prefix.len() as int] == s);
    }
    assert forall|a: int, b: int| start <= a < b < after.len() implies path_lt(
        #[trigger] after[a]@,
        #[trigger] after[b]@,
    ) by {
        if b < before.len() {
            assert(after[a] == before[a] && after[b] == before[b]);
        } else if a < before.len() {
            assert(after[a] == before[a]);
            let p = before[a]@;
            assert(branch_before(p, prefix, s));
            let q2 = choose|q2: Seq<SegmentView>|
                #[trigger] leaf_paths(child).contains(q2) && after[b]@ == prefix.push(s) + q2;
            let pl = prefix.len() as int;
            assert(p =~= prefix + (seq![p[pl]] + p.subrange(pl + 1, p.len() as int)));
            assert(after[b]@ =~= prefix + (seq![s] + q2));
            lemma_path_lt_split(prefix, p[pl], p.subrange(pl + 1, p.len() as int), s, q2);
        }
    }
}

/// Appends to `out` the path `prefix` followed by each leaf path of `v`.
pub fn collect_paths(v: &Value, prefix: &Path, out: &mut Vec<Path>)
    ensures
        final(out)@.len() >= old(out)@.len(),
        forall|i: int| 0 <= i < old(out)@.len() ==> #[trigger] final(out)@[i] == old(out)@[i],
        forall|i: int|
            old(out)@.len() <= i < final(out)@.len() ==> extends_leaf(
                v@,
                prefix@,
                (#[trigger] final(out)@[i])@,
            ),
        forall|q: Seq<SegmentView>| #[trigger]
            leaf_paths(v@).contains(q) ==> listed(final(out)@, old(out)@.len() as int, prefix@ + q),
        sorted_from(final(out)@, old(out)@.len() as int),
    decreases v,
{
    match v {
        Value::Object(m) => {
            let n = m.len();
            let ghost start = old(out)@.len();
            let ghost mv = m@.map_values(|x: Value| x@);
            let mut i: usize = 0;
            while i < n
                invariant
                    *v == Value::Object(*m),
                    n == m.key_seq().len(),
                    i <= n,
                    v@ == ValueView::Object(mv),
                    mv == m@.map_values(|x: Value| x@),
                    forall|k: Seq<char>| #[trigger] m@.contains_key(k) ==> m.key_seq().contains(k),
                    forall|j: int|
                        0 <= j < n ==> m@.contains_key(#[trigger] m.key_seq()[j]) && m@[m.key_seq()[j]]
                            == m.value_at(j),
                    forall|a: int, b: int|
                        0 <= a < b < n ==> crate::value::key_lt(
                            #[trigger] m.key_seq()[a],
                            #[trigger] m.key_seq()[b],
                        ),
                    sorted_from(out@, start as int),
                    forall|j: int, i2: int|
                        start <= j < out@.len() && i <= i2 < n ==> #[trigger] branch_before(
                            out@[j]@,
                            prefix@,
                            SegmentView::Field(m.key_seq()[i2]),
                        ),
                    start == old(out)@.len(),
                    out@.len() >= start,
                    forall|j: int| 0 <= j < start ==> #[trigger] out@[j] == old(out)@[j],
                    forall|j: int|
                        start <= j < out@.len() ==> extends_leaf(v@, prefix@, (#[trigger] out@[j])@),
                    forall|q: Seq<SegmentView>|
                        #[trigger] leaf_paths(v@).contains(q) && (exists|j: int|
                            0 <= j < i && q[0] == SegmentView::Field(m.key_seq()[j])) ==> listed(
                            out@,
                            start as int,
                            prefix@ + q,
                        ),
                decreases n - i,
            {
                let (k, child) = m.get_index(i);
                let seg = Segment::Field(k.clone());
                let p2 = prefix.with_segment(seg);
                proof {
                    crate::value::lemma_value_decreases_to_entry(*v, i as int);
                }
                let ghost before = out@;
                collect_paths(child, &p2, out);
                proof {
                    let kv = k@;
                    assert(mv[kv] == child@);
                    let fk = SegmentView::Field(kv);
                    assert forall|j: int| start <= j < before.len() implies branch_before(
                        #[trigger] before[j]@,
                        prefix@,
                        fk,
                    ) by {
                        assert(branch_before(before[j]@, prefix@, SegmentView::Field(m.key_seq()[i as int])));
                    }
                    lemma_order_step(before, out@, start as int, prefix@, fk, child@);
                    assert forall|j: int, i2: int|
                        start <= j < out@.len() && i + 1 <= i2 < n implies #[trigger] branch_before(
                        out@[j]@,
                        prefix@,
                        SegmentView::Field(m.key_seq()[i2]),
                    ) by {
                        if j < before.len() {
                            assert(out@[j] == before[j]);
                        } else {
                            assert(segment_lt(fk, SegmentView::Field(m.key_seq()[i2])));
                        }
                    }
                    assert forall|j: int| start <= j < out@.len() implies extends_leaf(
                        v@,
                        prefix@,
                        (#[trigger] out@[j])@,
                    ) by {
                        if j >= before.len() {
                            assert(extends_leaf(child@, p2@, out@[j]@));
                            let q2 = choose|q2: Seq<SegmentView>|
                                #[trigger] leaf_paths(child@).contains(q2) && out@[j]@ == p2@ + q2;
                            let q = seq![SegmentView::Field(kv)] + q2;
                            lemma_cons(SegmentView::Field(kv), q2);
                            lemma_leaf_of_object(mv, q);
                            lemma_extend(prefix@, SegmentView::Field(kv), q2);
                            assert(leaf_paths(v@).contains(q) && out@[j]@ == prefix@ + q);
                        } else {
                            assert(out@[j] == before[j]);
                        }
                    }
                    assert forall|q: Seq<SegmentView>|
                        #[trigger] leaf_paths(v@).contains(q) && (exists|j: int|
                            0 <= j < i + 1 && q[0] == SegmentView::Field(m.key_seq()[j])) implies listed(
                        out@,
                        start as int,
                        prefix@ + q,
                    ) by {
                        let jj = choose|jj: int|
                            0 <= jj < i + 1 && q[0] == SegmentView::Field(m.key_seq()[jj]);
                        lemma_leaf_of_object(mv, q);
                        if jj == i {
                            let q2 = q.drop_first();
                            lemma_split(q);
                            lemma_extend(prefix@, q[0], q2);
                            assert(listed(out@, before.len() as int, p2@ + q2));
                            let w = choose|w: int|
                                before.len() <= w < out@.len() && (#[trigger] out@[w])@ == p2@
                                    + q2;
                        } else {
                            let w = choose|w: int|
                                start <= w < before.len() && (#[trigger] before[w])@ == prefix@ + q;
                            assert(out@[w] == before[w]);
                            assert(out@[w]@ == prefix@ + q);
                        }
                    }
                }
                i = i + 1;
            }
            proof {
                assert forall|q: Seq<SegmentView>| #[trigger]
                    leaf_paths(v@).contains(q) implies listed(out@, start as int, prefix@ + q) by {
                    lemma_leaf_of_object(mv, q);
                    let k = q[0]->Field_0;
                    assert(m@.contains_key(k));
                    assert(m.key_seq().contains(k));
                    let jj = choose|jj: int| 0 <= jj < n && m.key_seq()[jj] == k;
                    assert(q[0] == SegmentView::Field(m.key_seq()[jj]));
                    assert(exists|j: int| 0 <= j < i && q[0] == SegmentView::Field(m.key_seq()[j]));
                }
            }
        },
        Value::Array(a) => {
            let n = a.len();
            let ghost start = old(out)@.len();
            let ghost av = a@.map_values(|x: Value| x@);
            let mut i: usize = 0;
            while i < n && (i as u64) <= 0x7fff_ffff_ffff_ffffu64
                invariant
                    n == a@.len(),
                    i <= n,
                    v@ == ValueView::Array(av),
                    av == a@.map_values(|x: Value| x@),
                    *v == Value::Array(*a),
                    start == old(out)@.len(),
                    out@.len() >= start,
                    forall|j: int| 0 <= j < start ==> #[trigger] out@[j] == old(out)@[j],
                    sorted_from(out@, start as int),
                    forall|j: int, i2: int|
                        start <= j < out@.len() && i <= i2 ==> #[trigger] branch_before(
                            out@[j]@,
                            prefix@,
                            SegmentView::Index(i2),
                        ),
                    forall|j: int|
                        start <= j < out@.len() ==> extends_leaf(v@, prefix@, (#[trigger] out@[j])@),
                    forall|q: Seq<SegmentView>|
                        #[trigger] leaf_paths(v@).contains(q) && q[0] is Index && 0 <= q[0]->Index_0
                            < i ==> listed(out@, start as int, prefix@ + q),
                decreases n - i,
            {
                let child = &a[i];
                let seg = Segment::Index(i as i64);
                let p2 = prefix.with_segment(seg);
                proof {
                    crate::value::lemma_value_decreases_to_item(*v, i as int);
                }
                let ghost before = out@;
                collect_paths(child, &p2, out);
                proof {
                    let sv = SegmentView::Index(i as int);
                    assert((i as i64) as int == i as int);
                    assert(av[i as int] == child@);
                    assert forall|j: int| start <= j < before.len() implies branch_before(
                        #[trigger] before[j]@,
                        prefix@,
                        sv,
                    ) by {
                        assert(branch_before(before[j]@, prefix@, SegmentView::Index(i as int)));
                    }
                    lemma_order_step(before, out@, start as int, prefix@, sv, child@);
                    assert forall|j: int, i2: int|
                        start <= j < out@.len() && i + 1 <= i2 implies #[trigger] branch_before(
                        out@[j]@,
                        prefix@,
                        SegmentView::Index(i2),
                    ) by {
                        if j < before.len() {
                            assert(out@[j] == before[j]);
                        } else {
                            assert(segment_lt(sv, SegmentView::Index(i2)));
                        }
                    }
                    assert forall|j: int| start <= j < out@.len() implies extends_leaf(
                        v@,
                        prefix@,
                        (#[trigger] out@[j])@,
                    ) by {
                        if j >= before.len() {
                            assert(extends_leaf(child@, p2@, out@[j]@));
                            let q2 = choose|q2: Seq<SegmentView>|
                                #[trigger] leaf_paths(child@).contains(q2) && out@[j]@ == p2@ + q2;
                            let q = seq![sv] + q2;
                            lemma_cons(sv, q2);
                            lemma_leaf_of_array(av, q);
                            lemma_extend(prefix@, sv, q2);
                            assert(leaf_paths(v@).contains(q) && out@[j]@ == prefix@ + q);
                        } else {
                            assert(out@[j] == before[j]);
                        }
                    }
                    assert forall|q: Seq<SegmentView>|
                        #[trigger] leaf_paths(v@).contains(q) && q[0] is Index && 0 <= q[0]->Index_0
                            < i + 1 implies listed(out@, start as int, prefix@ + q) by {
                        lemma_leaf_of_array(av, q);
                        if q[0]->Index_0 == i {
                            let q2 = q.drop_first();
                            lemma_split(q);
                            lemma_extend(prefix@, q[0], q2);
                            assert(listed(out@, before.len() as int, p2@ + q2));
                            let w = choose|w: int|
                                before.len() <= w < out@.len() && (#[trigger] out@[w])@ == p2@
                                    + q2;
                        } else {
                            let w = choose|w: int|
                                start <= w < before.len() && (#[trigger] before[w])@ == prefix@ + q;
                            assert(out@[w] == before[w]);
                            assert(out@[w]@ == prefix@ + q);
                        }
                    }
                }
                i = i + 1;
            }
            proof {
                assert forall|q: Seq<SegmentView>| #[trigger]
                    leaf_paths(v@).contains(q) implies listed(out@, start as int, prefix@ + q) by {
                    lemma_leaf_of_array(av, q);
                    assert(q[0]->Index_0 < i);
                }
            }
        },
        _ => {
            proof {
                lemma_leaf_of_scalar(v@);
            }
            let ghost start = out@.len();
            out.push(prefix.duplicate());
            proof {
                assert(prefix@ + Seq::<SegmentView>::empty() =~= prefix@);
                assert(leaf_paths(v@).contains(Seq::<SegmentView>::empty()));
                assert(out@[start as int]@ == prefix@);
                assert(listed(out@, start as int, prefix@ + Seq::<SegmentView>::empty()));
                assert forall|q: Seq<SegmentView>| #[trigger]
                    leaf_paths(v@).contains(q) implies listed(out@, start as int, prefix@ + q) by {
                    assert(q == Seq::<SegmentView>::empty());
                }
                assert(extends_leaf(v@, prefix@, out@[start as int]@));
            }
        },
    }
}

} // verus!
