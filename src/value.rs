use vstd::prelude::*;
use vstd::utf8::encode_utf8;

verus! {

broadcast use {vstd::utf8::char_u32_cast, vstd::std_specs::vec::axiom_vec_index_decreases};

/// Lexicographic order on keys, comparing characters by code point.
pub open spec fn key_lt(a: Seq<char>, b: Seq<char>) -> bool
    decreases a.len(),
{
    if b.len() == 0 {
        false
    } else if a.len() == 0 {
        true
    } else if a[0] != b[0] {
        (a[0] as u32) < (b[0] as u32)
    } else {
        key_lt(a.drop_first(), b.drop_first())
    }
}

pub proof fn lemma_key_lt_irreflexive(a: Seq<char>)
    ensures
        !key_lt(a, a),
    decreases a.len(),
{
    if a.len() > 0 {
        lemma_key_lt_irreflexive(a.drop_first());
    }
}

pub proof fn lemma_key_lt_transitive(a: Seq<char>, b: Seq<char>, c: Seq<char>)
    requires
        key_lt(a, b),
        key_lt(b, c),
    ensures
        key_lt(a, c),
    decreases a.len(),
{
    if a.len() > 0 && a[0] == b[0] && b[0] == c[0] {
        lemma_key_lt_transitive(a.drop_first(), b.drop_first(), c.drop_first());
    }
}

/// Three-way comparison of two keys: negative, zero or positive as `a` sorts
/// before, equal to or after `b`.
pub fn compare_keys(a: &str, b: &str) -> (r: i8)
    ensures
        r < 0 <==> key_lt(a@, b@),
        r > 0 <==> key_lt(b@, a@),
        r == 0 <==> a@ == b@,
{
    let la = a.unicode_len();
    let lb = b.unicode_len();
    let mut i: usize = 0;
    assert(a@.subrange(0, la as int) =~= a@);
    assert(b@.subrange(0, lb as int) =~= b@);
    while i < la && i < lb
        invariant
            la == a@.len(),
            lb == b@.len(),
            i <= la,
            i <= lb,
            a@.subrange(0, i as int) == b@.subrange(0, i as int),
            key_lt(a@, b@) == key_lt(a@.subrange(i as int, la as int), b@.subrange(i as int, lb as int)),
            key_lt(b@, a@) == key_lt(b@.subrange(i as int, lb as int), a@.subrange(i as int, la as int)),
        decreases la - i,
    {
        let ca = a.get_char(i);
        let cb = b.get_char(i);
        let ghost sa = a@.subrange(i as int, la as int);
        let ghost sb = b@.subrange(i as int, lb as int);
        assert(sa[0] == ca && sb[0] == cb);
        if ca != cb {
            proof {
                assert(a@ != b@) by {
                    assert(a@[i as int] != b@[i as int]);
                }
            }
            if (ca as u32) < (cb as u32) {
                return -1;
            } else {
                let x = ca as u32;
                let y = cb as u32;
                assert((x as char) == ca && (y as char) == cb);
                assert(x != y);
                return 1;
            }
        }
        assert(sa.drop_first() =~= a@.subrange(i + 1, la as int));
        assert(sb.drop_first() =~= b@.subrange(i + 1, lb as int));
        assert(a@.subrange(0, i + 1) =~= a@.subrange(0, i as int).push(ca));
        assert(b@.subrange(0, i + 1) =~= b@.subrange(0, i as int).push(cb));
        i = i + 1;
    }
    proof {
        if i == la && i == lb {
            assert(a@ =~= a@.subrange(0, i as int));
            assert(b@ =~= b@.subrange(0, i as int));
        }
        if i == la && i < lb {
            assert(a@.len() != b@.len());
        }
        if i == lb && i < la {
            assert(a@.len() != b@.len());
        }
    }
    if i == la && i == lb {
        0
    } else if i == la {
        -1
    } else {
        1
    }
}

/// Keys of `es` are strictly increasing.
pub open spec fn entries_sorted<V>(es: Seq<(String, V)>) -> bool {
    forall|i: int, j: int| 0 <= i < j < es.len() ==> key_lt(#[trigger] es[i].0@, #[trigger] es[j].0@)
}

pub open spec fn has_key<V>(es: Seq<(String, V)>, k: Seq<char>) -> bool {
    exists|i: int| 0 <= i < es.len() && es[i].0@ == k
}

pub open spec fn index_of<V>(es: Seq<(String, V)>, k: Seq<char>) -> int {
    choose|i: int| 0 <= i < es.len() && es[i].0@ == k
}

pub open spec fn entries_map<V>(es: Seq<(String, V)>) -> Map<Seq<char>, V> {
    Map::new(|k: Seq<char>| has_key(es, k), |k: Seq<char>| es[index_of(es, k)].1)
}

pub proof fn lemma_entries_map<V>(es: Seq<(String, V)>)
    requires
        entries_sorted(es),
    ensures
        forall|i: int|
            0 <= i < es.len() ==> #[trigger] entries_map(es).contains_key(es[i].0@)
                && entries_map(es)[es[i].0@] == es[i].1,
        forall|k: Seq<char>| #[trigger]
            entries_map(es).contains_key(k) ==> 0 <= index_of(es, k) < es.len() && es[index_of(
                es,
                k,
            )].0@ == k,
{
    assert forall|i: int| 0 <= i < es.len() implies #[trigger] entries_map(es).contains_key(
        es[i].0@,
    ) && entries_map(es)[es[i].0@] == es[i].1 by {
        let k = es[i].0@;
        assert(has_key(es, k));
        let j = index_of(es, k);
        if j < i {
            lemma_key_lt_irreflexive(k);
        } else if i < j {
            lemma_key_lt_irreflexive(k);
        }
    }
}

/// A map from string keys to values, kept in ascending key order.
///
/// std's `BTreeMap` has a vstd specification, but with `String` keys it
/// rests on an `Ord` for `String` that Verus does not model, so almost
/// nothing about lookups or insertions can be proved through it. This map
/// orders its keys by `key_lt`, which is proved to be a strict total order,
/// and its contracts speak of a `Map` view.
#[derive(Debug, PartialEq)]
pub struct SortedMap<V> {
    entries: Vec<(String, V)>,
}

impl<V> View for SortedMap<V> {
    type V = Map<Seq<char>, V>;

    closed spec fn view(&self) -> Map<Seq<char>, V> {
        entries_map(self.entries@)
    }
}

impl<V: Clone> Clone for SortedMap<V> {
    fn clone(&self) -> (r: Self)
        ensures
            r.key_seq() == self.key_seq(),
    {
        proof {
            use_type_invariant(self);
        }
        let n = self.entries.len();
        let mut entries: Vec<(String, V)> = Vec::new();
        let mut i: usize = 0;
        while i < n
            invariant
                n == self.entries@.len(),
                i <= n,
                entries@.len() == i,
                entries_sorted(self.entries@),
                forall|j: int| 0 <= j < i ==> #[trigger] entries@[j].0 == self.entries@[j].0,
            decreases n - i,
        {
            let e = &self.entries[i];
            entries.push((e.0.clone(), e.1.clone()));
            i = i + 1;
        }
        let r = SortedMap { entries };
        assert(r.key_seq() =~= self.key_seq());
        r
    }
}

impl<V> SortedMap<V> {
    #[verifier::type_invariant]
    spec fn inv(self) -> bool {
        entries_sorted(self.entries@)
    }

    /// The keys in ascending order.
    pub closed spec fn key_seq(&self) -> Seq<Seq<char>> {
        self.entries@.map_values(|e: (String, V)| e.0@)
    }

    /// The value stored at position `i` of the ascending key order.
    pub closed spec fn value_at(&self, i: int) -> V {
        self.entries@[i].1
    }

    pub fn new() -> (r: Self)
        ensures
            r@ == Map::<Seq<char>, V>::empty(),
            r.key_seq().len() == 0,
    {
        let r = SortedMap { entries: Vec::new() };
        assert(r@ =~= Map::<Seq<char>, V>::empty());
        r
    }

    pub fn len(&self) -> (r: usize)
        ensures
            r == self.key_seq().len(),
            forall|k: Seq<char>| #[trigger]
                self@.contains_key(k) ==> self.key_seq().contains(k),
            forall|i: int, j: int|
                0 <= i < j < r ==> key_lt(#[trigger] self.key_seq()[i], #[trigger] self.key_seq()[j]),
            forall|i: int|
                0 <= i < r ==> self@.contains_key(#[trigger] self.key_seq()[i]) && self@[self.key_seq()[i]]
                    == self.value_at(i),
    {
        proof {
            use_type_invariant(self);
            lemma_entries_map(self.entries@);
            assert forall|k: Seq<char>| #[trigger] self@.contains_key(k) implies self.key_seq().contains(
                k,
            ) by {
                let i = index_of(self.entries@, k);
                assert(self.key_seq()[i] == k);
            }
            assert forall|i: int| 0 <= i < self.entries.len() implies self@.contains_key(
                #[trigger] self.key_seq()[i],
            ) && self@[self.key_seq()[i]] == self.value_at(i) by {
                assert(entries_map(self.entries@).contains_key(self.entries@[i].0@));
            }
        }
        self.entries.len()
    }

    pub fn is_empty(&self) -> (r: bool)
        ensures
            r <==> self@ == Map::<Seq<char>, V>::empty(),
    {
        proof {
            use_type_invariant(self);
            lemma_entries_map(self.entries@);
            if self.entries.len() > 0 {
                assert(self@.contains_key(self.entries@[0].0@));
            } else {
                assert(self@ =~= Map::<Seq<char>, V>::empty());
            }
        }
        self.entries.len() == 0
    }

    /// Key and value at position `i` of the ascending key order.
    pub fn get_index(&self, i: usize) -> (r: (&String, &V))
        requires
            i < self.key_seq().len(),
        ensures
            r.0@ == self.key_seq()[i as int],
            *r.1 == self.value_at(i as int),
            self@.contains_key(r.0@),
            self@[r.0@] == *r.1,
    {
        proof {
            use_type_invariant(self);
            lemma_entries_map(self.entries@);
        }
        let e = &self.entries[i];
        assert(self.entries@[i as int] == *e);
        assert(entries_map(self.entries@).contains_key(self.entries@[i as int].0@));
        (&e.0, &e.1)
    }

    /// Moves the entries out, leaving the map empty.
    fn take_entries(&mut self) -> (r: Vec<(String, V)>)
        ensures
            r@ == old(self).entries@,
            entries_sorted(r@),
    {
        proof {
            use_type_invariant(&*self);
        }
        let mut other = SortedMap { entries: Vec::new() };
        std::mem::swap(self, &mut other);
        let SortedMap { entries } = other;
        entries
    }

    /// Position of `k`, or the position where it would be inserted.
    fn find(&self, k: &str) -> (r: Result<usize, usize>)
        ensures
            match r {
                Ok(i) => i < self.entries@.len() && self.entries@[i as int].0@ == k@,
                Err(p) => p <= self.entries@.len() && (forall|j: int|
                    0 <= j < p ==> key_lt(#[trigger] self.entries@[j].0@, k@)) && (forall|j: int|
                    p <= j < self.entries@.len() ==> key_lt(k@, #[trigger] self.entries@[j].0@)),
            },
    {
        proof {
            use_type_invariant(self);
        }
        let n = self.entries.len();
        let mut i: usize = 0;
        while i < n
            invariant
                n == self.entries@.len(),
                i <= n,
                entries_sorted(self.entries@),
                forall|j: int| 0 <= j < i ==> key_lt(#[trigger] self.entries@[j].0@, k@),
            decreases n - i,
        {
            let c = compare_keys(self.entries[i].0.as_str(), k);
            if c == 0 {
                return Ok(i);
            }
            if c > 0 {
                proof {
                    assert forall|j: int| i <= j < n implies key_lt(
                        k@,
                        #[trigger] self.entries@[j].0@,
                    ) by {
                        if j > i {
                            lemma_key_lt_transitive(
                                k@,
                                self.entries@[i as int].0@,
                                self.entries@[j].0@,
                            );
                        }
                    }
                }
                return Err(i);
            }
            i = i + 1;
        }
        Err(n)
    }

    proof fn lemma_absent(&self, k: Seq<char>, p: int)
        requires
            entries_sorted(self.entries@),
            p <= self.entries@.len(),
            forall|j: int| 0 <= j < p ==> key_lt(#[trigger] self.entries@[j].0@, k),
            forall|j: int| p <= j < self.entries@.len() ==> key_lt(k, #[trigger] self.entries@[j].0@),
        ensures
            !self@.contains_key(k),
    {
        if has_key(self.entries@, k) {
            let j = choose|j: int| 0 <= j < self.entries@.len() && self.entries@[j].0@ == k;
            lemma_key_lt_irreflexive(k);
        }
    }

    pub fn contains_key(&self, k: &str) -> (r: bool)
        ensures
            r == self@.contains_key(k@),
    {
        proof {
            use_type_invariant(self);
            lemma_entries_map(self.entries@);
        }
        match self.find(k) {
            Ok(_) => true,
            Err(p) => {
                proof {
                    self.lemma_absent(k@, p as int);
                }
                false
            },
        }
    }

    pub fn get(&self, k: &str) -> (r: Option<&V>)
        ensures
            match r {
                Some(v) => self@.contains_key(k@) && self@[k@] == *v,
                None => !self@.contains_key(k@),
            },
    {
        proof {
            use_type_invariant(self);
            lemma_entries_map(self.entries@);
        }
        match self.find(k) {
            Ok(i) => {
                assert(entries_map(self.entries@).contains_key(self.entries@[i as int].0@));
                Some(&self.entries[i].1)
            },
            Err(p) => {
                proof {
                    self.lemma_absent(k@, p as int);
                }
                None
            },
        }
    }

    pub fn insert(&mut self, k: String, v: V) -> (r: Option<V>)
        ensures
            final(self)@ == old(self)@.insert(k@, v),
            r == (if old(self)@.contains_key(k@) {
                Some(old(self)@[k@])
            } else {
                None::<V>
            }),
    {
        proof {
            use_type_invariant(&*self);
            lemma_entries_map(self.entries@);
        }
        let ghost old_es = self.entries@;
        match self.find(k.as_str()) {
            Ok(i) => {
                let mut es_mut = self.take_entries();
                let old_entry = es_mut.remove(i);
                let ghost kv = k@;
                es_mut.insert(i, (k, v));
                proof {
                    let es = es_mut@;
                    assert(es =~= old_es.update(i as int, es[i as int]));
                    assert(forall|j: int| 0 <= j < es.len() ==> #[trigger] es[j].0@ == old_es[j].0@);
                    lemma_entries_map(es);
                    assert(entries_map(old_es).contains_key(old_es[i as int].0@));
                    let m = old(self)@.insert(kv, v);
                    assert forall|q: Seq<char>|
                        (#[trigger] entries_map(es).contains_key(q) <==> m.contains_key(q)) && (
                        entries_map(es).contains_key(q) ==> entries_map(es)[q] == m[q]) by {
                        if q != kv {
                            if entries_map(es).contains_key(q) {
                                let j = index_of(es, q);
                                assert(entries_map(old_es).contains_key(old_es[j].0@));
                            }
                            if entries_map(old_es).contains_key(q) {
                                let j = index_of(old_es, q);
                                assert(entries_map(es).contains_key(es[j].0@));
                            }
                        } else {
                            assert(entries_map(es).contains_key(es[i as int].0@));
                        }
                    }
                    assert(entries_map(es).dom() =~= m.dom());
                    assert(entries_map(es) =~= m);
                }
                *self = SortedMap { entries: es_mut };
                Some(old_entry.1)
            },
            Err(p) => {
                proof {
                    self.lemma_absent(k@, p as int);
                }
                let ghost kv = k@;
                let mut es_mut = self.take_entries();
                es_mut.insert(p, (k, v));
                proof {
                    let es = es_mut@;
                    assert forall|a: int, b: int| 0 <= a < b < es.len() implies key_lt(
                        #[trigger] es[a].0@,
                        #[trigger] es[b].0@,
                    ) by {
                        if a < p && b > p {
                            assert(es[a] == old_es[a] && es[b] == old_es[b - 1]);
                        } else if a > p {
                            assert(es[a] == old_es[a - 1] && es[b] == old_es[b - 1]);
                        } else if b < p {
                            assert(es[a] == old_es[a] && es[b] == old_es[b]);
                        } else if a == p {
                            assert(es[b] == old_es[b - 1]);
                        } else {
                            assert(es[a] == old_es[a]);
                        }
                    }
                    lemma_entries_map(es);
                    let m = old(self)@.insert(kv, v);
                    assert forall|q: Seq<char>|
                        (#[trigger] entries_map(es).contains_key(q) <==> m.contains_key(q)) && (
                        entries_map(es).contains_key(q) ==> entries_map(es)[q] == m[q]) by {
                        if q != kv {
                            if entries_map(es).contains_key(q) {
                                let j = index_of(es, q);
                                if j < p {
                                    assert(es[j] == old_es[j]);
                                    assert(entries_map(old_es).contains_key(old_es[j].0@));
                                } else {
                                    assert(es[j] == old_es[j - 1]);
                                    assert(entries_map(old_es).contains_key(old_es[j - 1].0@));
                                }
                            }
                            if entries_map(old_es).contains_key(q) {
                                let j = index_of(old_es, q);
                                if j < p {
                                    assert(es[j] == old_es[j]);
                                    assert(entries_map(es).contains_key(es[j].0@));
                                } else {
                                    assert(es[j + 1] == old_es[j]);
                                    assert(entries_map(es).contains_key(es[j + 1].0@));
                                }
                            }
                        } else {
                            assert(entries_map(es).contains_key(es[p as int].0@));
                        }
                    }
                    assert(entries_map(es).dom() =~= m.dom());
                    assert(entries_map(es) =~= m);
                }
                *self = SortedMap { entries: es_mut };
                None
            },
        }
    }

    pub fn remove(&mut self, k: &str) -> (r: Option<V>)
        ensures
            final(self)@ == old(self)@.remove(k@),
            r == (if old(self)@.contains_key(k@) {
                Some(old(self)@[k@])
            } else {
                None::<V>
            }),
    {
        proof {
            use_type_invariant(&*self);
            lemma_entries_map(self.entries@);
        }
        let ghost old_es = self.entries@;
        match self.find(k) {
            Ok(i) => {
                let mut es_mut = self.take_entries();
                let old_entry = es_mut.remove(i);
                proof {
                    let es = es_mut@;
                    assert(entries_map(old_es).contains_key(old_es[i as int].0@));
                    assert forall|a: int, b: int| 0 <= a < b < es.len() implies key_lt(
                        #[trigger] es[a].0@,
                        #[trigger] es[b].0@,
                    ) by {
                        if b < i {
                            assert(es[a] == old_es[a] && es[b] == old_es[b]);
                        } else if a < i {
                            assert(es[a] == old_es[a] && es[b] == old_es[b + 1]);
                        } else {
                            assert(es[a] == old_es[a + 1] && es[b] == old_es[b + 1]);
                        }
                    }
                    lemma_entries_map(es);
                    let m = old(self)@.remove(k@);
                    assert forall|q: Seq<char>|
                        (#[trigger] entries_map(es).contains_key(q) <==> m.contains_key(q)) && (
                        entries_map(es).contains_key(q) ==> entries_map(es)[q] == m[q]) by {
                        if entries_map(es).contains_key(q) {
                            let j = index_of(es, q);
                            if j < i {
                                assert(es[j] == old_es[j]);
                                assert(entries_map(old_es).contains_key(old_es[j].0@));
                            } else {
                                assert(es[j] == old_es[j + 1]);
                                assert(entries_map(old_es).contains_key(old_es[j + 1].0@));
                                lemma_key_lt_irreflexive(q);
                            }
                            if j < i {
                                lemma_key_lt_irreflexive(q);
                            }
                        }
                        if m.contains_key(q) {
                            let j = index_of(old_es, q);
                            if j < i {
                                assert(es[j] == old_es[j]);
                                assert(entries_map(es).contains_key(es[j].0@));
                            } else {
                                assert(j != i);
                                assert(es[j - 1] == old_es[j]);
                                assert(entries_map(es).contains_key(es[j - 1].0@));
                            }
                        }
                    }
                    assert(entries_map(es).dom() =~= m.dom());
                    assert(entries_map(es) =~= m);
                }
                *self = SortedMap { entries: es_mut };
                Some(old_entry.1)
            },
            Err(p) => {
                proof {
                    self.lemma_absent(k@, p as int);
                    assert(self@ =~= old(self)@.remove(k@));
                }
                None
            },
        }
    }
}

/// A point in time: whole seconds since the Unix epoch and the nanoseconds
/// past that second.
#[derive(Clone, Copy, Debug, PartialEq, Eq, Structural)]
pub struct Timestamp {
    pub seconds: i64,
    pub nanos: u32,
}

/// The content of a field: a scalar, an ordered array or a map with sorted keys.
#[derive(Debug, PartialEq)]
pub enum Value {
    Null,
    Boolean(bool),
    Integer(i64),
    Timestamp(Timestamp),
    Bytes(Vec<u8>),
    Regex(String),
    Array(Vec<Value>),
    Object(SortedMap<Value>),
}

/// The mathematical content of a [`Value`].
pub enum ValueView {
    Null,
    Boolean(bool),
    Integer(i64),
    Timestamp(Timestamp),
    Bytes(Seq<u8>),
    Regex(Seq<char>),
    Array(Seq<ValueView>),
    Object(Map<Seq<char>, ValueView>),
}

pub closed spec fn value_view(v: &Value) -> ValueView
    decreases v,
{
    match v {
        Value::Null => ValueView::Null,
        Value::Boolean(b) => ValueView::Boolean(*b),
        Value::Integer(n) => ValueView::Integer(*n),
        Value::Timestamp(t) => ValueView::Timestamp(*t),
        Value::Bytes(b) => ValueView::Bytes(b@),
        Value::Regex(s) => ValueView::Regex(s@),
        Value::Array(items) => ValueView::Array(
            Seq::new(
                items.len() as nat,
                |i: int|
                    if 0 <= i < items.len() {
                        value_view(&items[i])
                    } else {
                        ValueView::Null
                    },
            ),
        ),
        Value::Object(m) => ValueView::Object(
            Map::new(
                |k: Seq<char>| has_key(m.entries@, k),
                |k: Seq<char>|
                    if has_key(m.entries@, k) {
                        let i = choose|i: int| 0 <= i < m.entries@.len() && m.entries@[i].0@ == k;
                        value_view(&m.entries@[i].1)
                    } else {
                        ValueView::Null
                    },
            ),
        ),
    }
}

impl View for Value {
    type V = ValueView;

    open spec fn view(&self) -> ValueView {
        value_view(self)
    }
}

/// How the content of a value follows from its parts.
pub broadcast proof fn lemma_value_view(v: Value)
    ensures
        #[trigger] v@ == match v {
            Value::Null => ValueView::Null,
            Value::Boolean(b) => ValueView::Boolean(b),
            Value::Integer(n) => ValueView::Integer(n),
            Value::Timestamp(t) => ValueView::Timestamp(t),
            Value::Bytes(b) => ValueView::Bytes(b@),
            Value::Regex(s) => ValueView::Regex(s@),
            Value::Array(items) => ValueView::Array(items@.map_values(|x: Value| x@)),
            Value::Object(m) => ValueView::Object(m@.map_values(|x: Value| x@)),
        },
{
    match v {
        Value::Array(items) => {
            assert(value_view(&v)->Array_0 =~= items@.map_values(|x: Value| x@));
        },
        Value::Object(m) => {
            let a = value_view(&v)->Object_0;
            let b = m@.map_values(|x: Value| x@);
            assert(a.dom() =~= b.dom());
            assert(a =~= b);
        },
        _ => {},
    }
}

proof fn lemma_array_decreases(v: Value, i: int)
    requires
        v is Array,
        0 <= i < v->Array_0.len(),
    ensures
        decreases_to!(v => v->Array_0[i]),
{
    let it = v->Array_0;
    assert(decreases_to!(v => it));
    assert(decreases_to!(it => it[i]));
}

/// A map of values is larger than the value at each of its positions.
pub proof fn lemma_value_decreases_to_entry(v: Value, i: int)
    requires
        v is Object,
        0 <= i < v->Object_0.key_seq().len(),
    ensures
        decreases_to!(v => v->Object_0.value_at(i)),
{
    let m = v->Object_0;
    assert(decreases_to!(v => m));
    lemma_map_decreases(m, i);
}

/// An array is larger than each of its elements.
pub proof fn lemma_value_decreases_to_item(v: Value, i: int)
    requires
        v is Array,
        0 <= i < v->Array_0.len(),
    ensures
        decreases_to!(v => v->Array_0[i]),
{
    lemma_array_decreases(v, i);
}

proof fn lemma_object_decreases_to_map(v: Value)
    requires
        v is Object,
    ensures
        decreases_to!(v => v->Object_0),
{
}

proof fn lemma_map_decreases(m: SortedMap<Value>, i: int)
    requires
        0 <= i < m.entries.len(),
    ensures
        decreases_to!(m => m.entries[i].1),
{
    let es = m.entries;
    assert(decreases_to!(m => es));
    assert(decreases_to!(es => es[i]));
    assert(decreases_to!(es[i] => es[i].1));
}

/// A deep copy of a map of values.
pub fn duplicate_map(m: &SortedMap<Value>) -> (copy: SortedMap<Value>)
    ensures
        copy@.map_values(|x: Value| x@) == m@.map_values(|x: Value| x@),
    decreases m,
{
        proof {
            use_type_invariant(m);
            lemma_entries_map(m.entries@);
        }
        let mut out: Vec<(String, Value)> = Vec::new();
        let mut i: usize = 0;
        while i < m.entries.len()
            invariant
                
                i <= m.entries@.len(),
                out@.len() == i,
                entries_sorted(m.entries@),
                forall|j: int|
                    0 <= j < i ==> #[trigger] out@[j].0 == m.entries@[j].0 && out@[j].1@
                        == m.entries@[j].1@,
            decreases m.entries@.len() - i,
        {
            let e = &m.entries[i];
            proof {
                lemma_map_decreases(*m, i as int);
            }
            let x = e.1.duplicate();
            out.push((e.0.clone(), x));
            i = i + 1;
        }
        proof {
            assert forall|a: int, b: int| 0 <= a < b < out@.len() implies key_lt(
                #[trigger] out@[a].0@,
                #[trigger] out@[b].0@,
            ) by {
                assert(out@[a].0 == m.entries@[a].0 && out@[b].0 == m.entries@[b].0);
            }
            lemma_entries_map(out@);
        }
        let copy = SortedMap { entries: out };
        proof {
            let a = copy@.map_values(|x: Value| x@);
            let b = m@.map_values(|x: Value| x@);
            assert forall|k: Seq<char>| #[trigger] a.contains_key(k) <==> b.contains_key(k) by {
                if a.contains_key(k) {
                    let j = index_of(out@, k);
                    assert(out@[j].0 == m.entries@[j].0);
                    assert(entries_map(m.entries@).contains_key(m.entries@[j].0@));
                }
                if b.contains_key(k) {
                    let j = index_of(m.entries@, k);
                    assert(out@[j].0 == m.entries@[j].0);
                    assert(entries_map(out@).contains_key(out@[j].0@));
                }
            }
            assert forall|k: Seq<char>| a.contains_key(k) implies #[trigger] a[k] == b[k] by {
                let j = index_of(out@, k);
                assert(out@[j].0 == m.entries@[j].0);
                assert(entries_map(m.entries@).contains_key(m.entries@[j].0@));
                assert(entries_map(out@).contains_key(out@[j].0@));
            }
            assert(a.dom() =~= b.dom());
            assert(a =~= b);
        }
        copy
}

impl Value {
    /// A deep copy: the same content, sharing nothing with `self`.
    pub fn duplicate(&self) -> (r: Value)
        ensures
            r@ == self@,
        decreases self,
    {
        proof {
            lemma_value_view(*self);
        }
        let r = match self {
            Value::Null => Value::Null,
            Value::Boolean(b) => Value::Boolean(*b),
            Value::Integer(n) => Value::Integer(*n),
            Value::Timestamp(t) => Value::Timestamp(*t),
            Value::Bytes(b) => {
                let mut out: Vec<u8> = Vec::new();
                let mut i: usize = 0;
                while i < b.len()
                    invariant
                        i <= b@.len(),
                        out@ == b@.subrange(0, i as int),
                    decreases b@.len() - i,
                {
                    out.push(b[i]);
                    i = i + 1;
                    assert(out@ =~= b@.subrange(0, i as int));
                }
                assert(out@ =~= b@);
                Value::Bytes(out)
            },
            Value::Regex(s) => Value::Regex(s.clone()),
            Value::Array(items) => {
                let mut out: Vec<Value> = Vec::new();
                let mut i: usize = 0;
                while i < items.len()
                    invariant
                        *self == Value::Array(*items),
                        i <= items@.len(),
                        out@.len() == i,
                        forall|j: int| 0 <= j < i ==> #[trigger] out@[j]@ == items@[j]@,
                    decreases items@.len() - i,
                {
                    proof {
                        lemma_array_decreases(*self, i as int);
                    }
                    let x = items[i].duplicate();
                    out.push(x);
                    i = i + 1;
                }
                let r = Value::Array(out);
                proof {
                    lemma_value_view(r);
                    assert(out@.map_values(|x: Value| x@) =~= items@.map_values(|x: Value| x@));
                }
                r
            },
            Value::Object(m) => {
                proof {
                    lemma_object_decreases_to_map(*self);
                }
                let copy = duplicate_map(m);
                let r = Value::Object(copy);
                proof {
                    lemma_value_view(r);
                }
                r
            },
        };
        proof {
            lemma_value_view(r);
        }
        r
    }
}

/// The value that merging `incoming` into `current` leaves: two byte strings
/// are concatenated, and in every other case `incoming` replaces `current`.
pub open spec fn merged(current: ValueView, incoming: ValueView) -> ValueView {
    match (current, incoming) {
        (ValueView::Bytes(a), ValueView::Bytes(b)) => ValueView::Bytes(a + b),
        _ => incoming,
    }
}

impl Value {
    /// The UTF-8 bytes of `s`.
    pub fn text(s: &str) -> (r: Value)
        ensures
            r@ == ValueView::Bytes(encode_utf8(s@)),
    {
        let r = Value::Bytes(s.as_bytes_vec());
        proof {
            lemma_value_view(r);
        }
        r
    }

    pub fn merge(&mut self, incoming: Value)
        ensures
            final(self)@ == merged(old(self)@, incoming@),
    {
        proof {
            lemma_value_view(*self);
            lemma_value_view(incoming);
        }
        match incoming {
            Value::Bytes(mut b) => {
                if let Value::Bytes(a) = self {
                    a.append(&mut b);
                } else {
                    *self = Value::Bytes(b);
                }
            },
            other => {
                *self = other;
            },
        }
        proof {
            lemma_value_view(*self);
        }
    }
}

impl Clone for Value {
    fn clone(&self) -> (r: Self)
        ensures
            r@ == self@,
    {
        self.duplicate()
    }
}

} // verus!
