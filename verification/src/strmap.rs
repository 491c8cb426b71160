//! Maps and sets keyed by strings, kept in the order of their keys.

use vstd::prelude::*;
use crate::text::{same, to_chars};

verus! {

/// The order of texts: by the first character in which they differ, a prefix
/// first.
pub open spec fn lt(a: Seq<char>, b: Seq<char>) -> bool
    decreases a.len(),
{
    if b.len() == 0 {
        false
    } else if a.len() == 0 {
        true
    } else if a[0] == b[0] {
        lt(a.skip(1), b.skip(1))
    } else {
        (a[0] as int) < (b[0] as int)
    }
}

/// No text comes before itself.
pub proof fn lemma_lt_irreflexive(a: Seq<char>)
    ensures
        !lt(a, a),
    decreases a.len(),
{
    if a.len() > 0 {
        lemma_lt_irreflexive(a.skip(1));
    }
}

/// The order of texts is transitive.
pub proof fn lemma_lt_transitive(a: Seq<char>, b: Seq<char>, c: Seq<char>)
    requires
        lt(a, b),
        lt(b, c),
    ensures
        lt(a, c),
    decreases a.len(),
{
    if a.len() > 0 && a[0] == b[0] && b[0] == c[0] {
        lemma_lt_transitive(a.skip(1), b.skip(1), c.skip(1));
    }
}

/// Of two different texts one comes before the other.
pub proof fn lemma_lt_total(a: Seq<char>, b: Seq<char>)
    ensures
        lt(a, b) || a == b || lt(b, a),
    decreases a.len(),
{
    if a.len() == 0 || b.len() == 0 {
        if a.len() == 0 && b.len() == 0 {
            assert(a =~= b);
        }
    } else if a[0] == b[0] {
        lemma_lt_total(a.skip(1), b.skip(1));
        if a.skip(1) == b.skip(1) {
            assert(a =~= seq![a[0]] + a.skip(1));
            assert(b =~= seq![b[0]] + b.skip(1));
        }
    }
}

/// The code point of a character.
fn code(c: char) -> (r: u32)
    ensures
        r as int == c as int,
{
    c as u32
}

/// Whether `a` comes before `b`.
pub fn less(a: &str, b: &str) -> (r: bool)
    ensures
        r == lt(a@, b@),
{
    let x = to_chars(a);
    let y = to_chars(b);
    let mut i: usize = 0;
    assert(a@.skip(0) =~= a@);
    assert(b@.skip(0) =~= b@);
    while i < x.len() && i < y.len()
        invariant
            i <= x.len(),
            i <= y.len(),
            x@ == a@,
            y@ == b@,
            lt(a@, b@) == lt(a@.skip(i as int), b@.skip(i as int)),
        decreases x.len() - i,
    {
        if x[i] != y[i] {
            let p: char = x[i];
            let q: char = y[i];
            assert(a@.skip(i as int)[0] == p);
            assert(b@.skip(i as int)[0] == q);
            return code(p) < code(q);
        }
        assert(a@.skip(i as int).skip(1) =~= a@.skip(i as int + 1));
        assert(b@.skip(i as int).skip(1) =~= b@.skip(i as int + 1));
        i += 1;
    }
    i < y.len()
}

/// Whether the texts stand in strictly ascending order.
pub open spec fn ascending(keys: Seq<Seq<char>>) -> bool {
    forall|i: int, j: int| 0 <= i < j < keys.len() ==> lt(#[trigger] keys[i], #[trigger] keys[j])
}

/// No text stands twice in strictly ascending order.
pub proof fn lemma_ascending_distinct(keys: Seq<Seq<char>>)
    requires
        ascending(keys),
    ensures
        keys.no_duplicates(),
{
    assert forall|i: int, j: int|
        0 <= i < keys.len() && 0 <= j < keys.len() && i != j implies keys[i] != keys[j] by {
        lemma_lt_irreflexive(keys[i]);
        if i < j {
            assert(lt(keys[i], keys[j]));
        } else {
            assert(lt(keys[j], keys[i]));
        }
    }
}

/// Two lists in strictly ascending order that hold the same texts are the same.
pub proof fn lemma_ascending_unique(a: Seq<Seq<char>>, b: Seq<Seq<char>>)
    requires
        ascending(a),
        ascending(b),
        forall|k: Seq<char>| a.contains(k) <==> b.contains(k),
    ensures
        a == b,
    decreases a.len(),
{
    if a.len() == 0 {
        if b.len() > 0 {
            assert(b.contains(b[0]));
        }
        assert(a =~= b);
    } else {
        assert(a.contains(a[0]));
        assert(b.contains(a[0]));
        let k = choose|k: int| 0 <= k < b.len() && b[k] == a[0];
        assert(b.contains(b[0]));
        assert(a.contains(b[0]));
        let l = choose|l: int| 0 <= l < a.len() && a[l] == b[0];
        if k > 0 {
            assert(lt(b[0], b[k]));
            if l > 0 {
                assert(lt(a[0], a[l]));
                lemma_lt_transitive(a[0], b[0], a[0]);
            }
            lemma_lt_irreflexive(a[0]);
        }
        let x = a.skip(1);
        let y = b.skip(1);
        assert forall|t: Seq<char>| x.contains(t) <==> y.contains(t) by {
            lemma_lt_irreflexive(a[0]);
            if x.contains(t) {
                let i = choose|i: int| 0 <= i < x.len() && x[i] == t;
                assert(a[i + 1] == t);
                assert(lt(a[0], a[i + 1]));
                assert(a.contains(t));
                let j = choose|j: int| 0 <= j < b.len() && b[j] == t;
                assert(j > 0);
                assert(y[j - 1] == t);
            }
            if y.contains(t) {
                let i = choose|i: int| 0 <= i < y.len() && y[i] == t;
                assert(b[i + 1] == t);
                assert(lt(b[0], b[i + 1]));
                assert(b.contains(t));
                let j = choose|j: int| 0 <= j < a.len() && a[j] == t;
                assert(j > 0);
                assert(x[j - 1] == t);
            }
        }
        assert forall|i: int, j: int| 0 <= i < j < x.len() implies lt(
            #[trigger] x[i],
            #[trigger] x[j],
        ) by {
            assert(lt(a[i + 1], a[j + 1]));
        }
        assert forall|i: int, j: int| 0 <= i < j < y.len() implies lt(
            #[trigger] y[i],
            #[trigger] y[j],
        ) by {
            assert(lt(b[i + 1], b[j + 1]));
        }
        lemma_ascending_unique(x, y);
        assert(a =~= seq![a[0]] + x);
        assert(b =~= seq![b[0]] + y);
    }
}

/// The texts of a finite set, in ascending order.
pub open spec fn ascending_of(s: Set<Seq<char>>) -> Seq<Seq<char>> {
    choose|l: Seq<Seq<char>>|
        #[trigger] ascending(l) && forall|k: Seq<char>| l.contains(k) <==> s.contains(k)
}

proof fn lemma_ascending_insert(l: Seq<Seq<char>>, x: Seq<char>) -> (r: Seq<Seq<char>>)
    requires
        ascending(l),
        !l.contains(x),
    ensures
        ascending(r),
        forall|k: Seq<char>| r.contains(k) <==> l.contains(k) || k == x,
    decreases l.len(),
{
    if l.len() == 0 {
        let r = seq![x];
        assert(r[0] == x);
        r
    } else {
        let last = l.last();
        let front = l.drop_last();
        assert(l[l.len() - 1] == last);
        lemma_lt_total(last, x);
        if lt(last, x) {
            let r = l.push(x);
            assert forall|i: int, j: int| 0 <= i < j < r.len() implies lt(
                #[trigger] r[i],
                #[trigger] r[j],
            ) by {
                if j == l.len() && i < l.len() - 1 {
                    assert(lt(l[i], l[l.len() - 1]));
                    lemma_lt_transitive(l[i], last, x);
                }
            }
            assert forall|k: Seq<char>| r.contains(k) <==> l.contains(k) || k == x by {
                if l.contains(k) {
                    let i = choose|i: int| 0 <= i < l.len() && l[i] == k;
                    assert(r[i] == k);
                }
                assert(r[l.len() as int] == x);
            }
            r
        } else {
            assert forall|i: int| 0 <= i < front.len() implies front[i] != x by {
                assert(l[i] == front[i]);
            }
            let f = lemma_ascending_insert(front, x);
            let r = f.push(last);
            assert forall|i: int, j: int| 0 <= i < j < r.len() implies lt(
                #[trigger] r[i],
                #[trigger] r[j],
            ) by {
                if j == f.len() {
                    assert(f.contains(f[i]));
                    if f[i] != x {
                        assert(front.contains(f[i]));
                        let k = choose|k: int| 0 <= k < front.len() && front[k] == f[i];
                        assert(lt(l[k], l[l.len() - 1]));
                    }
                }
            }
            assert forall|k: Seq<char>| r.contains(k) <==> l.contains(k) || k == x by {
                if l.contains(k) {
                    let i = choose|i: int| 0 <= i < l.len() && l[i] == k;
                    if i < front.len() {
                        assert(front[i] == k);
                        assert(f.contains(k));
                        let z = choose|z: int| 0 <= z < f.len() && f[z] == k;
                        assert(r[z] == k);
                    } else {
                        assert(r[f.len() as int] == k);
                    }
                }
                if k == x {
                    assert(f.contains(x));
                    let z = choose|z: int| 0 <= z < f.len() && f[z] == x;
                    assert(r[z] == x);
                }
                if r.contains(k) {
                    let i = choose|i: int| 0 <= i < r.len() && r[i] == k;
                    if i < f.len() {
                        assert(f[i] == k);
                        assert(f.contains(k));
                        if front.contains(k) {
                            let z = choose|z: int| 0 <= z < front.len() && front[z] == k;
                            assert(l[z] == k);
                        }
                    }
                }
            }
            r
        }
    }
}

proof fn lemma_ascending_list(s: Set<Seq<char>>) -> (r: Seq<Seq<char>>)
    requires
        s.finite(),
    ensures
        ascending(r),
        forall|k: Seq<char>| r.contains(k) <==> s.contains(k),
    decreases s.len(),
{
    if s.len() == 0 {
        assert(s =~= Set::empty());
        Seq::empty()
    } else {
        let x = s.choose();
        assert(s.contains(x));
        let l = lemma_ascending_list(s.remove(x));
        lemma_ascending_insert(l, x)
    }
}

/// The texts of a finite set have an ascending order.
pub proof fn lemma_ascending_of(s: Set<Seq<char>>)
    requires
        s.finite(),
    ensures
        ascending(ascending_of(s)),
        forall|k: Seq<char>| ascending_of(s).contains(k) <==> s.contains(k),
        ascending_of(s).len() == s.len(),
{
    let l = lemma_ascending_list(s);
    assert(ascending(l) && forall|k: Seq<char>| l.contains(k) <==> s.contains(k));
    let a = ascending_of(s);
    lemma_ascending_distinct(a);
    a.unique_seq_to_set();
    assert(a.to_set() =~= s);
}

/// A map from strings to `V`, walked in the order of its keys.
#[derive(Debug)]
pub struct StrMap<V> {
    entries: Vec<(String, V)>,
}

impl<V> StrMap<V> {
    #[verifier::type_invariant]
    spec fn sorted(self) -> bool {
        ascending(self.keys())
    }

    /// The keys, in ascending order.
    pub closed spec fn keys(self) -> Seq<Seq<char>> {
        self.entries@.map_values(|e: (String, V)| e.0@)
    }

    /// The values, in the order of their keys.
    pub closed spec fn values(self) -> Seq<V> {
        self.entries@.map_values(|e: (String, V)| e.1)
    }

    /// The map as a mathematical one.
    pub open spec fn view(self) -> Map<Seq<char>, V> {
        Map::new(
            |k: Seq<char>| self.keys().contains(k),
            |k: Seq<char>| self.values()[self.keys().index_of(k)],
        )
    }

    /// There are as many values as keys, and each key stands for the value in its
    /// place.
    pub proof fn lemma_keys(self)
        ensures
            self.keys().len() == self.values().len(),
            ascending(self.keys()) ==> forall|i: int|
                0 <= i < self.keys().len() ==> #[trigger] self@.contains_key(self.keys()[i])
                    && self@[self.keys()[i]] == self.values()[i],
    {
        if ascending(self.keys()) {
            assert forall|i: int| 0 <= i < self.keys().len() implies (
            #[trigger] self@.contains_key(self.keys()[i]) && self@[self.keys()[i]]
                == self.values()[i]) by {
                self.lemma_at(i);
            }
        }
    }

    proof fn lemma_at(self, i: int)
        requires
            ascending(self.keys()),
            0 <= i < self.entries@.len(),
        ensures
            self@.contains_key(self.entries@[i].0@),
            self@[self.entries@[i].0@] == self.entries@[i].1,
    {
        let k = self.entries@[i].0@;
        assert(self.keys()[i] == k);
        let j = self.keys().index_of(k);
        assert(self.keys()[j] == k && 0 <= j < self.keys().len());
        lemma_lt_irreflexive(k);
        assert(!(i < j) && !(j < i));
    }

    proof fn lemma_absent(self, key: Seq<char>, at: int)
        requires
            ascending(self.keys()),
            0 <= at <= self.entries@.len(),
            forall|i: int| 0 <= i < at ==> lt(#[trigger] self.keys()[i], key),
            at < self.entries@.len() ==> lt(key, self.keys()[at]),
        ensures
            !self@.contains_key(key),
    {
        lemma_lt_irreflexive(key);
        assert forall|i: int| 0 <= i < self.keys().len() implies self.keys()[i] != key by {
            if i > at {
                lemma_lt_transitive(key, self.keys()[at], self.keys()[i]);
            }
        }
    }

    /// An empty map.
    pub fn new() -> (r: StrMap<V>)
        ensures
            r@ == Map::<Seq<char>, V>::empty(),
            r.keys() == Seq::<Seq<char>>::empty(),
    {
        let r = StrMap { entries: Vec::new() };
        proof {
            assert(r.keys() =~= Seq::<Seq<char>>::empty());
            assert(r@ =~= Map::<Seq<char>, V>::empty());
        }
        r
    }

    /// The number of keys.
    pub fn len(&self) -> (r: usize)
        ensures
            r == self.keys().len(),
            r == self.values().len(),
            ascending(self.keys()),
            self.keys().no_duplicates(),
            forall|k: Seq<char>| self@.contains_key(k) <==> self.keys().contains(k),
            forall|i: int|
                0 <= i < r ==> #[trigger] self@.contains_key(self.keys()[i])
                    && self@[self.keys()[i]] == self.values()[i],
    {
        proof {
            use_type_invariant(self);
            lemma_ascending_distinct(self.keys());
            assert forall|i: int| 0 <= i < self.entries@.len() implies (
            #[trigger] self@.contains_key(self.keys()[i]) && self@[self.keys()[i]]
                == self.values()[i]) by {
                self.lemma_at(i);
            }
        }
        self.entries.len()
    }

    /// Whether there is no key.
    pub fn is_empty(&self) -> (r: bool)
        ensures
            r == (self.keys().len() == 0),
    {
        self.entries.len() == 0
    }

    /// The key at a position.
    pub fn key(&self, i: usize) -> (r: &String)
        requires
            i < self.keys().len(),
        ensures
            r@ == self.keys()[i as int],
            self@.contains_key(r@),
    {
        proof {
            use_type_invariant(self);
            self.lemma_at(i as int);
        }
        &self.entries[i].0
    }

    /// The value at a position.
    pub fn value(&self, i: usize) -> (r: &V)
        requires
            i < self.keys().len(),
        ensures
            *r == self.values()[i as int],
            self@.contains_key(self.keys()[i as int]),
            *r == self@[self.keys()[i as int]],
    {
        proof {
            use_type_invariant(self);
            self.lemma_at(i as int);
        }
        &self.entries[i].1
    }

    /// The position of the first key that does not come before `key`.
    fn slot(&self, key: &str) -> (r: usize)
        ensures
            r <= self.entries@.len(),
            forall|i: int| 0 <= i < r ==> lt(#[trigger] self.keys()[i], key@),
            r < self.entries@.len() ==> self.keys()[r as int] == key@ || lt(
                key@,
                self.keys()[r as int],
            ),
    {
        proof {
            use_type_invariant(self);
        }
        let mut lo: usize = 0;
        let mut hi: usize = self.entries.len();
        while lo < hi
            invariant
                lo <= hi <= self.entries@.len(),
                ascending(self.keys()),
                forall|i: int| 0 <= i < lo ==> lt(#[trigger] self.keys()[i], key@),
                hi < self.entries@.len() ==> !lt(self.keys()[hi as int], key@),
            decreases hi - lo,
        {
            let mid = lo + (hi - lo) / 2;
            assert(self.keys()[mid as int] == self.entries@[mid as int].0@);
            if less(self.entries[mid].0.as_str(), key) {
                proof {
                    assert forall|i: int| 0 <= i < mid + 1 implies lt(
                        #[trigger] self.keys()[i],
                        key@,
                    ) by {
                        if lo <= i < mid {
                            assert(lt(self.keys()[i], self.keys()[mid as int]));
                            lemma_lt_transitive(self.keys()[i], self.keys()[mid as int], key@);
                        }
                    }
                }
                lo = mid + 1;
            } else {
                hi = mid;
            }
        }
        proof {
            if lo < self.entries@.len() {
                lemma_lt_total(self.keys()[lo as int], key@);
            }
        }
        lo
    }

    /// The value of `key`.
    pub fn get(&self, key: &str) -> (r: Option<&V>)
        ensures
            match r {
                Some(v) => self@.contains_key(key@) && *v == self@[key@],
                None => !self@.contains_key(key@),
            },
    {
        proof {
            use_type_invariant(self);
        }
        let at = self.slot(key);
        if at < self.entries.len() && same(self.entries[at].0.as_str(), key) {
            proof {
                self.lemma_at(at as int);
            }
            Some(&self.entries[at].1)
        } else {
            proof {
                self.lemma_absent(key@, at as int);
            }
            None
        }
    }

    /// Whether `key` has a value.
    pub fn contains_key(&self, key: &str) -> (r: bool)
        ensures
            r == self@.contains_key(key@),
    {
        self.get(key).is_some()
    }

    /// Gives `key` the value `value`, in place of the one it had; tells whether
    /// it had none.
    pub fn insert(&mut self, key: String, value: V) -> (r: bool)
        ensures
            final(self)@ == old(self)@.insert(key@, value),
            r == !old(self)@.contains_key(key@),
    {
        proof {
            use_type_invariant(&*self);
        }
        let at = self.slot(key.as_str());
        let ghost before = *self;
        if at < self.entries.len() && same(self.entries[at].0.as_str(), key.as_str()) {
            let ghost changed = before.entries@.update(at as int, (key, value));
            proof {
                assert(changed.map_values(|e: (String, V)| e.0@) =~= before.keys());
            }
            let mut taken = StrMap { entries: Vec::new() };
            core::mem::swap(self, &mut taken);
            let mut entries = taken.entries;
            entries[at] = (key, value);
            *self = StrMap { entries };
            proof {
                before.lemma_at(at as int);
                assert(self.entries@ == changed);
                assert(self.keys() =~= before.keys());
                assert forall|k: Seq<char>| self.keys().contains(k) implies self@[k]
                    == before@.insert(key@, value)[k] by {
                    let i = choose|i: int| 0 <= i < self.keys().len() && self.keys()[i] == k;
                    self.lemma_at(i);
                    before.lemma_at(i);
                    lemma_lt_irreflexive(key@);
                    assert(self.entries@[i].0@ == self.keys()[i]);
                    assert(before.entries@[i].0@ == before.keys()[i]);
                    assert(i == at || k != key@);
                }
                assert(self@ =~= before@.insert(key@, value));
            }
            false
        } else {
            let ghost changed = before.entries@.insert(at as int, (key, value));
            proof {
                before.lemma_absent(key@, at as int);
                let ck = changed.map_values(|e: (String, V)| e.0@);
                assert(ck =~= before.keys().insert(at as int, key@));
                assert forall|i: int, j: int| 0 <= i < j < ck.len() implies lt(
                    #[trigger] ck[i],
                    #[trigger] ck[j],
                ) by {
                    let oi = if i < at { i } else { i - 1 };
                    let oj = if j < at { j } else { j - 1 };
                    if i == at {
                        if oj > at {
                            lemma_lt_transitive(key@, before.keys()[at as int], before.keys()[oj]);
                        }
                    } else if j != at {
                        assert(lt(before.keys()[oi], before.keys()[oj]));
                    }
                }
            }
            let mut taken = StrMap { entries: Vec::new() };
            core::mem::swap(self, &mut taken);
            let mut entries = taken.entries;
            entries.insert(at, (key, value));
            *self = StrMap { entries };
            proof {
                assert(self.entries@ == changed);
                assert(ascending(self.keys()));
                self.lemma_at(at as int);
                assert(self.entries@[at as int].0@ == key@);
                assert forall|k: Seq<char>|
                    #![trigger self.keys().contains(k)]
                    self.keys().contains(k) <==> before.keys().contains(k) || k == key@ by {
                    if before.keys().contains(k) {
                        let i = choose|i: int|
                            0 <= i < before.keys().len() && before.keys()[i] == k;
                        let ni = if i < at { i } else { i + 1 };
                        assert(self.keys()[ni] == k);
                    }
                    if self.keys().contains(k) {
                        let i = choose|i: int| 0 <= i < self.keys().len() && self.keys()[i] == k;
                        let oi = if i < at { i } else { i - 1 };
                        if i != at {
                            assert(before.keys()[oi] == k);
                        }
                    }
                    if k == key@ {
                        assert(self.keys()[at as int] == k);
                    }
                }
                assert forall|k: Seq<char>| self.keys().contains(k) implies self@[k]
                    == before@.insert(key@, value)[k] by {
                    let i = choose|i: int| 0 <= i < self.keys().len() && self.keys()[i] == k;
                    self.lemma_at(i);
                    if i != at {
                        let oi = if i < at { i } else { i - 1 };
                        before.lemma_at(oi);
                        assert(self.entries@[i] == before.entries@[oi]);
                        assert(before.keys()[oi] == k);
                    }
                }
                assert(self@ =~= before@.insert(key@, value));
            }
            true
        }
    }
}

/// A set of strings, walked in ascending order.
#[derive(Debug)]
pub struct StrSet {
    map: StrMap<()>,
}

impl StrSet {
    /// The texts in the set.
    pub closed spec fn view(self) -> Set<Seq<char>> {
        self.map@.dom()
    }

    /// The texts in ascending order.
    pub closed spec fn items(self) -> Seq<Seq<char>> {
        self.map.keys()
    }

    /// An empty set.
    pub fn new() -> (r: StrSet)
        ensures
            r@ == Set::<Seq<char>>::empty(),
    {
        StrSet { map: StrMap::new() }
    }

    /// The number of texts.
    pub fn len(&self) -> (r: usize)
        ensures
            r == self.items().len(),
            ascending(self.items()),
            forall|k: Seq<char>| self@.contains(k) <==> self.items().contains(k),
    {
        self.map.len()
    }

    /// The texts in ascending order, as a list.
    pub fn to_list(&self) -> (r: Vec<String>)
        ensures
            crate::text::texts(r@) == ascending_of(self@),
            crate::text::texts(r@) == self.items(),
            ascending(self.items()),
            forall|k: Seq<char>| self@.contains(k) <==> self.items().contains(k),
    {
        let n = self.len();
        let mut out: Vec<String> = Vec::new();
        let mut i: usize = 0;
        assert(crate::text::texts(out@) =~= self.items().take(0));
        while i < n
            invariant
                i <= n,
                n == self.items().len(),
                crate::text::texts(out@) == self.items().take(i as int),
            decreases n - i,
        {
            crate::text::push_text(&mut out, self.item(i).as_str());
            i += 1;
            assert(crate::text::texts(out@) =~= self.items().take(i as int));
        }
        proof {
            assert(self.items().take(n as int) =~= self.items());
            lemma_ascending_unique(self.items(), ascending_of(self@));
        }
        out
    }

    /// Whether the set is empty.
    pub fn is_empty(&self) -> (r: bool)
        ensures
            r == (self@ == Set::<Seq<char>>::empty()),
    {
        let n = self.len();
        proof {
            if n == 0 {
                assert(self@ =~= Set::<Seq<char>>::empty());
            } else {
                assert(self.items().contains(self.items()[0]));
            }
        }
        n == 0
    }

    /// The text at a position.
    pub fn item(&self, i: usize) -> (r: &String)
        requires
            i < self.items().len(),
        ensures
            r@ == self.items()[i as int],
            self@.contains(r@),
    {
        self.map.key(i)
    }

    /// Whether `text` is in the set.
    pub fn contains(&self, text: &str) -> (r: bool)
        ensures
            r == self@.contains(text@),
    {
        self.map.contains_key(text)
    }

    /// Adds `text`; tells whether it is new.
    pub fn insert(&mut self, text: String) -> (r: bool)
        ensures
            final(self)@ == old(self)@.insert(text@),
            r == !old(self)@.contains(text@),
    {
        let ghost before = self.map@;
        let r = self.map.insert(text, ());
        assert(self.map@.dom() =~= before.dom().insert(text@));
        r
    }
}

impl Clone for StrSet {
    fn clone(&self) -> (r: StrSet)
        ensures
            r@ == self@,
    {
        StrSet { map: self.map.clone() }
    }
}

impl Default for StrSet {
    fn default() -> (r: StrSet)
        ensures
            r@ == Set::<Seq<char>>::empty(),
    {
        StrSet::new()
    }
}

impl<V: Clone> Clone for StrMap<V> {
    fn clone(&self) -> (r: StrMap<V>)
        ensures
            r@.dom() == self@.dom(),
            forall|k: Seq<char>| #[trigger] self@.contains_key(k) ==> cloned(self@[k], r@[k]),
    {
        let n = self.len();
        let mut r: StrMap<V> = StrMap::new();
        let mut i: usize = 0;
        while i < n
            invariant
                i <= n,
                n == self.keys().len(),
                n == self.values().len(),
                forall|k: Seq<char>| #[trigger]
                    r@.contains_key(k) <==> exists|j: int| 0 <= j < i && self.keys()[j] == k,
                forall|k: Seq<char>| #[trigger] r@.contains_key(k) ==> cloned(self@[k], r@[k]),
            decreases n - i,
        {
            let ghost before = r@;
            r.insert(self.key(i).clone(), self.value(i).clone());
            proof {
                assert forall|k: Seq<char>| #[trigger] r@.contains_key(k) <==> exists|j: int|
                    0 <= j < i + 1 && self.keys()[j] == k by {
                    if before.contains_key(k) {
                        let j = choose|j: int| 0 <= j < i && self.keys()[j] == k;
                        assert(0 <= j < i + 1 && self.keys()[j] == k);
                    }
                    if k == self.keys()[i as int] {
                        assert(0 <= i < i + 1 && self.keys()[i as int] == k);
                    }
                }
            }
            i += 1;
        }
        assert(r@.dom() =~= self@.dom());
        r
    }
}

impl<V> Default for StrMap<V> {
    fn default() -> (r: StrMap<V>)
        ensures
            r@ == Map::<Seq<char>, V>::empty(),
    {
        StrMap::new()
    }
}

} // verus!
