//! Content digests.

use vstd::prelude::*;
use vstd::string::*;
use crate::text::to_chars;

verus! {

/// A content digest of 256 bits, as four words, the most significant first.
#[derive(Clone, Copy, Debug, PartialEq, Eq, Structural, Hash)]
pub struct Digest {
    /// First word.
    pub a: u64,
    /// Second word.
    pub b: u64,
    /// Third word.
    pub c: u64,
    /// Fourth word.
    pub d: u64,
}

/// A hexadecimal digit.
pub open spec fn hex_digit(n: int) -> char {
    if n < 10 {
        (48 + n) as char
    } else {
        (87 + n) as char
    }
}

/// The value of a hexadecimal digit.
pub open spec fn hex_value(c: char) -> Option<int> {
    let n = c as int;
    if 48 <= n <= 57 {
        Some(n - 48)
    } else if 97 <= n <= 102 {
        Some(n - 87)
    } else {
        None
    }
}

/// The last `k` hexadecimal digits of a number.
pub open spec fn hex_of(n: int, k: nat) -> Seq<char>
    decreases k,
{
    if k == 0 {
        Seq::empty()
    } else {
        hex_of(n / 16, (k - 1) as nat).push(hex_digit(n % 16))
    }
}

/// The number that hexadecimal digits stand for; nothing where one is none.
pub open spec fn hex_number(s: Seq<char>) -> Option<int>
    decreases s.len(),
{
    if s.len() == 0 {
        Some(0)
    } else {
        match (hex_number(s.drop_last()), hex_value(s.last())) {
            (Some(n), Some(d)) => Some(n * 16 + d),
            _ => None,
        }
    }
}

/// A digest in hexadecimal.
pub open spec fn digest_hex(d: Digest) -> Seq<char> {
    hex_of(d.a as int, 16) + hex_of(d.b as int, 16) + hex_of(d.c as int, 16) + hex_of(d.d as int, 16)
}

/// `16^k`.
pub open spec fn pow16(k: nat) -> int
    decreases k,
{
    if k == 0 {
        1
    } else {
        16 * pow16((k - 1) as nat)
    }
}

proof fn lemma_hex_len(n: int, k: nat)
    ensures
        hex_of(n, k).len() == k,
    decreases k,
{
    if k > 0 {
        lemma_hex_len(n / 16, (k - 1) as nat);
    }
}

/// Reading back the digits of a number that fits gives the number.
pub proof fn lemma_hex_round_trip(n: int, k: nat)
    requires
        0 <= n < pow16(k),
    ensures
        hex_number(hex_of(n, k)) == Some(n),
    decreases k,
{
    if k > 0 {
        let q = n / 16;
        assert(q < pow16((k - 1) as nat)) by (nonlinear_arith)
            requires
                n < 16 * pow16((k - 1) as nat),
                q == n / 16,
        ;
        lemma_hex_round_trip(q, (k - 1) as nat);
        let s = hex_of(n, k);
        assert(s.drop_last() =~= hex_of(q, (k - 1) as nat));
        assert(s.last() == hex_digit(n % 16));
        assert(hex_value(hex_digit(n % 16)) == Some(n % 16));
        assert(q * 16 + n % 16 == n);
    }
}

proof fn lemma_pow16_16()
    ensures
        pow16(16) == 0x1_0000_0000_0000_0000,
{
    reveal_with_fuel(pow16, 17);
}

fn hex_char(n: u64) -> (r: char)
    requires
        n < 16,
    ensures
        r == hex_digit(n as int),
{
    let b: u8 = if n < 10 {
        48 + (n as u8)
    } else {
        87 + (n as u8)
    };
    b as char
}

fn push_hex(out: &mut String, n: u64, k: u32)
    ensures
        final(out)@ == old(out)@ + hex_of(n as int, k as nat),
    decreases k,
{
    if k == 0 {
        assert(out@ =~= out@ + hex_of(n as int, 0));
        return;
    }
    let ghost before = out@;
    push_hex(out, n / 16, k - 1);
    out.push(hex_char(n % 16));
    assert(out@ =~= before + hex_of(n as int, k as nat));
}

fn digit_value(c: char) -> (r: Option<u64>)
    ensures
        match r {
            Some(v) => hex_value(c) == Some(v as int) && v < 16,
            None => hex_value(c) is None,
        },
{
    let n: u32 = c as u32;
    if 48 <= n && n <= 57 {
        Some((n - 48) as u64)
    } else if 97 <= n && n <= 102 {
        Some((n - 87) as u64)
    } else {
        None
    }
}

/// Reads 16 hexadecimal digits.
fn read_word(v: &Vec<char>, from: usize) -> (r: Option<u64>)
    requires
        from + 16 <= v.len(),
    ensures
        match r {
            Some(n) => hex_number(v@.subrange(from as int, from + 16)) == Some(n as int),
            None => hex_number(v@.subrange(from as int, from + 16)) is None,
        },
{
    let mut n: u64 = 0;
    let mut i: usize = 0;
    assert(v@.subrange(from as int, from as int) =~= Seq::<char>::empty());
    while i < 16
        invariant
            i <= 16,
            from + 16 <= v.len(),
            hex_number(v@.subrange(from as int, from + i)) == Some(n as int),
            n < pow16(i as nat),
        decreases 16 - i,
    {
        let ghost s = v@.subrange(from as int, from + i + 1);
        assert(s.drop_last() =~= v@.subrange(from as int, from + i));
        assert(s.last() == v@[from + i]);
        match digit_value(v[from + i]) {
            None => {
                proof {
                    lemma_hex_bad(v@.subrange(from as int, from + 16), i as int + 1);
                    assert(v@.subrange(from as int, from + 16).take(i as int + 1) =~= s);
                }
                return None;
            },
            Some(d) => {
                proof {
                    lemma_pow16_mono(i as nat + 1, 16);
                    lemma_pow16_16();
                    assert(pow16((i + 1) as nat) == 16 * pow16(i as nat));
                }
                n = n * 16 + d;
            },
        }
        i += 1;
    }
    Some(n)
}

proof fn lemma_pow16_mono(a: nat, b: nat)
    requires
        a <= b,
    ensures
        0 < pow16(a) <= pow16(b),
    decreases b,
{
    if a < b {
        lemma_pow16_mono(a, (b - 1) as nat);
    } else if b > 0 {
        lemma_pow16_mono((b - 1) as nat, (b - 1) as nat);
    }
}

/// A bad digit spoils the number.
proof fn lemma_hex_bad(s: Seq<char>, k: int)
    requires
        0 <= k <= s.len(),
        hex_number(s.take(k)) is None,
    ensures
        hex_number(s) is None,
    decreases s.len(),
{
    if k < s.len() {
        assert(s.drop_last().take(k) =~= s.take(k));
        lemma_hex_bad(s.drop_last(), k);
    } else {
        assert(s.take(k) =~= s);
    }
}

/// The digest that 64 hexadecimal digits stand for.
pub open spec fn digest_of(s: Seq<char>) -> Option<Digest> {
    if s.len() != 64 {
        None
    } else {
        match (
            hex_number(s.subrange(0, 16)),
            hex_number(s.subrange(16, 32)),
            hex_number(s.subrange(32, 48)),
            hex_number(s.subrange(48, 64)),
        ) {
            (Some(a), Some(b), Some(c), Some(d)) => Some(
                Digest { a: a as u64, b: b as u64, c: c as u64, d: d as u64 },
            ),
            _ => None,
        }
    }
}

impl Digest {
    /// The digest in hexadecimal, lower case.
    pub fn to_hex(&self) -> (r: String)
        ensures
            r@ == digest_hex(*self),
            r@.len() == 64,
    {
        let mut out = String::new();
        proof {
            reveal_strlit("");
            assert(out@ =~= Seq::<char>::empty());
            lemma_hex_len(self.a as int, 16);
            lemma_hex_len(self.b as int, 16);
            lemma_hex_len(self.c as int, 16);
            lemma_hex_len(self.d as int, 16);
        }
        push_hex(&mut out, self.a, 16);
        assert(out@ =~= hex_of(self.a as int, 16));
        push_hex(&mut out, self.b, 16);
        push_hex(&mut out, self.c, 16);
        push_hex(&mut out, self.d, 16);
        out
    }

    /// Reads a digest in hexadecimal, lower case.
    pub fn from_hex(text: &str) -> (r: Option<Digest>)
        ensures
            r == digest_of(text@),
    {
        let v = to_chars(text);
        if v.len() != 64 {
            return None;
        }
        match (read_word(&v, 0), read_word(&v, 16), read_word(&v, 32), read_word(&v, 48)) {
            (Some(a), Some(b), Some(c), Some(d)) => Some(Digest { a, b, c, d }),
            _ => None,
        }
    }
}

/// Reading back a digest in hexadecimal gives the digest.
pub proof fn digests_round_trip(d: Digest)
    ensures
        digest_of(digest_hex(d)) == Some(d),
        digest_hex(d).len() == 64,
{
    let s = digest_hex(d);
    lemma_hex_len(d.a as int, 16);
    lemma_hex_len(d.b as int, 16);
    lemma_hex_len(d.c as int, 16);
    lemma_hex_len(d.d as int, 16);
    assert(s.subrange(0, 16) =~= hex_of(d.a as int, 16));
    assert(s.subrange(16, 32) =~= hex_of(d.b as int, 16));
    assert(s.subrange(32, 48) =~= hex_of(d.c as int, 16));
    assert(s.subrange(48, 64) =~= hex_of(d.d as int, 16));
    lemma_pow16_16();
    lemma_hex_round_trip(d.a as int, 16);
    lemma_hex_round_trip(d.b as int, 16);
    lemma_hex_round_trip(d.c as int, 16);
    lemma_hex_round_trip(d.d as int, 16);
}

// ---- Sets of digests ---------------------------------------------------------------------

/// The order of digests.
pub open spec fn digest_lt(x: Digest, y: Digest) -> bool {
    ||| x.a < y.a
    ||| x.a == y.a && x.b < y.b
    ||| x.a == y.a && x.b == y.b && x.c < y.c
    ||| x.a == y.a && x.b == y.b && x.c == y.c && x.d < y.d
}

fn digest_less(x: &Digest, y: &Digest) -> (r: bool)
    ensures
        r == digest_lt(*x, *y),
{
    if x.a != y.a {
        x.a < y.a
    } else if x.b != y.b {
        x.b < y.b
    } else if x.c != y.c {
        x.c < y.c
    } else {
        x.d < y.d
    }
}

/// Whether digests stand in strictly ascending order.
pub open spec fn digests_ascending(v: Seq<Digest>) -> bool {
    forall|i: int, j: int| 0 <= i < j < v.len() ==> digest_lt(#[trigger] v[i], #[trigger] v[j])
}

/// No digest stands twice in strictly ascending order.
pub proof fn lemma_digests_distinct(v: Seq<Digest>)
    requires
        digests_ascending(v),
    ensures
        v.no_duplicates(),
{
    assert forall|i: int, j: int| 0 <= i < v.len() && 0 <= j < v.len() && i != j implies v[i]
        != v[j] by {
        if i < j {
            assert(digest_lt(v[i], v[j]));
        } else {
            assert(digest_lt(v[j], v[i]));
        }
    }
}

/// A map from digests to `V`, walked in the order of its keys.
pub struct DigestMap<V> {
    keys: Vec<Digest>,
    values: Vec<V>,
}

impl<V> DigestMap<V> {
    #[verifier::type_invariant]
    spec fn sorted(self) -> bool {
        digests_ascending(self.keys@) && self.keys@.len() == self.values@.len()
    }

    /// The keys, in ascending order.
    pub closed spec fn keys(self) -> Seq<Digest> {
        self.keys@
    }

    /// The values, in the order of their keys.
    pub closed spec fn values(self) -> Seq<V> {
        self.values@
    }

    /// The map as a mathematical one.
    pub open spec fn view(self) -> Map<Digest, V> {
        Map::new(
            |k: Digest| self.keys().contains(k),
            |k: Digest| self.values()[self.keys().index_of(k)],
        )
    }

    proof fn lemma_at(self, i: int)
        requires
            digests_ascending(self.keys@),
            0 <= i < self.keys@.len(),
        ensures
            self@.contains_key(self.keys@[i]),
            self@[self.keys@[i]] == self.values@[i],
    {
        let k = self.keys@[i];
        let j = self.keys().index_of(k);
        assert(self.keys()[i] == k);
        assert(self.keys()[j] == k && 0 <= j < self.keys().len());
        assert(!(i < j) && !(j < i));
    }

    proof fn lemma_absent(self, key: Digest, at: int)
        requires
            digests_ascending(self.keys@),
            0 <= at <= self.keys@.len(),
            forall|i: int| 0 <= i < at ==> digest_lt(#[trigger] self.keys@[i], key),
            at < self.keys@.len() ==> digest_lt(key, self.keys@[at]),
        ensures
            !self@.contains_key(key),
    {
        assert forall|i: int| 0 <= i < self.keys@.len() implies self.keys()[i] != key by {
            if i > at {
                assert(digest_lt(self.keys@[at], self.keys@[i]));
            }
        }
    }

    /// An empty map.
    pub fn new() -> (r: DigestMap<V>)
        ensures
            r@ == Map::<Digest, V>::empty(),
            r.keys() == Seq::<Digest>::empty(),
    {
        let r = DigestMap { keys: Vec::new(), values: Vec::new() };
        assert(r@ =~= Map::<Digest, V>::empty());
        r
    }

    /// The number of keys.
    pub fn len(&self) -> (r: usize)
        ensures
            r == self.keys().len(),
            r == self.values().len(),
            digests_ascending(self.keys()),
            forall|i: int|
                0 <= i < r ==> #[trigger] self@.contains_key(self.keys()[i])
                    && self@[self.keys()[i]] == self.values()[i],
    {
        proof {
            use_type_invariant(self);
            assert forall|i: int| 0 <= i < self.keys@.len() implies #[trigger] self@.contains_key(
                self.keys()[i],
            ) && self@[self.keys()[i]] == self.values()[i] by {
                self.lemma_at(i);
            }
        }
        self.keys.len()
    }

    /// The key at a position.
    pub fn key(&self, i: usize) -> (r: Digest)
        requires
            i < self.keys().len(),
        ensures
            r == self.keys()[i as int],
            self@.contains_key(r),
    {
        proof {
            use_type_invariant(self);
            self.lemma_at(i as int);
        }
        self.keys[i]
    }

    fn slot(&self, key: &Digest) -> (r: usize)
        ensures
            r <= self.keys@.len(),
            forall|i: int| 0 <= i < r ==> digest_lt(#[trigger] self.keys@[i], *key),
            r < self.keys@.len() ==> self.keys@[r as int] == *key || digest_lt(
                *key,
                self.keys@[r as int],
            ),
    {
        proof {
            use_type_invariant(self);
        }
        let mut lo: usize = 0;
        let mut hi: usize = self.keys.len();
        while lo < hi
            invariant
                lo <= hi <= self.keys@.len(),
                digests_ascending(self.keys@),
                forall|i: int| 0 <= i < lo ==> digest_lt(#[trigger] self.keys@[i], *key),
                hi < self.keys@.len() ==> !digest_lt(self.keys@[hi as int], *key),
            decreases hi - lo,
        {
            let mid = lo + (hi - lo) / 2;
            if digest_less(&self.keys[mid], key) {
                proof {
                    assert forall|i: int| 0 <= i < mid + 1 implies digest_lt(
                        #[trigger] self.keys@[i],
                        *key,
                    ) by {
                        if lo <= i < mid {
                            assert(digest_lt(self.keys@[i], self.keys@[mid as int]));
                        }
                    }
                }
                lo = mid + 1;
            } else {
                hi = mid;
            }
        }
        lo
    }

    /// The value of `key`.
    pub fn get(&self, key: &Digest) -> (r: Option<&V>)
        ensures
            match r {
                Some(v) => self@.contains_key(*key) && *v == self@[*key],
                None => !self@.contains_key(*key),
            },
    {
        proof {
            use_type_invariant(self);
        }
        let at = self.slot(key);
        if at < self.keys.len() && self.keys[at] == *key {
            proof {
                self.lemma_at(at as int);
            }
            Some(&self.values[at])
        } else {
            proof {
                self.lemma_absent(*key, at as int);
            }
            None
        }
    }

    /// Whether `key` has a value.
    pub fn contains_key(&self, key: &Digest) -> (r: bool)
        ensures
            r == self@.contains_key(*key),
    {
        self.get(key).is_some()
    }

    /// Gives `key` the value `value`; tells whether it had none.
    pub fn insert(&mut self, key: Digest, value: V) -> (r: bool)
        ensures
            final(self)@ == old(self)@.insert(key, value),
            r == !old(self)@.contains_key(key),
    {
        proof {
            use_type_invariant(&*self);
        }
        let at = self.slot(&key);
        let ghost before = *self;
        if at < self.keys.len() && self.keys[at] == key {
            let mut taken = DigestMap { keys: Vec::new(), values: Vec::new() };
            core::mem::swap(self, &mut taken);
            let keys = taken.keys;
            let mut values = taken.values;
            values[at] = value;
            *self = DigestMap { keys, values };
            proof {
                before.lemma_at(at as int);
                assert(self.keys@ == before.keys@);
                assert forall|k: Digest| self.keys().contains(k) implies self@[k] == before@.insert(
                    key,
                    value,
                )[k] by {
                    let i = choose|i: int| 0 <= i < self.keys().len() && self.keys()[i] == k;
                    self.lemma_at(i);
                    before.lemma_at(i);
                    assert(i == at || k != key);
                }
                assert(self@ =~= before@.insert(key, value));
            }
            return false;
        }
        let ghost ks = before.keys@.insert(at as int, key);
        let ghost vs = before.values@.insert(at as int, value);
        proof {
            before.lemma_absent(key, at as int);
            assert forall|i: int, j: int| 0 <= i < j < ks.len() implies digest_lt(
                #[trigger] ks[i],
                #[trigger] ks[j],
            ) by {
                let oi = if i < at { i } else { i - 1 };
                let oj = if j < at { j } else { j - 1 };
                if i == at {
                    if oj > at {
                        assert(digest_lt(before.keys@[at as int], before.keys@[oj]));
                    }
                } else if j != at {
                    assert(digest_lt(before.keys@[oi], before.keys@[oj]));
                }
            }
        }
        let mut taken = DigestMap { keys: Vec::new(), values: Vec::new() };
        core::mem::swap(self, &mut taken);
        let mut keys = taken.keys;
        let mut values = taken.values;
        keys.insert(at, key);
        values.insert(at, value);
        *self = DigestMap { keys, values };
        proof {
            assert(self.keys@ == ks);
            assert(self.values@ == vs);
            assert forall|k: Digest|
                #![trigger self.keys().contains(k)]
                self.keys().contains(k) <==> before.keys().contains(k) || k == key by {
                if before.keys().contains(k) {
                    let i = choose|i: int| 0 <= i < before.keys().len() && before.keys()[i] == k;
                    let ni = if i < at { i } else { i + 1 };
                    assert(self.keys()[ni] == k);
                }
                if k == key {
                    assert(self.keys()[at as int] == k);
                }
                if self.keys().contains(k) {
                    let i = choose|i: int| 0 <= i < self.keys().len() && self.keys()[i] == k;
                    if i != at {
                        let oi = if i < at { i } else { i - 1 };
                        assert(before.keys()[oi] == k);
                    }
                }
            }
            assert forall|k: Digest| self.keys().contains(k) implies self@[k] == before@.insert(
                key,
                value,
            )[k] by {
                let i = choose|i: int| 0 <= i < self.keys().len() && self.keys()[i] == k;
                self.lemma_at(i);
                if i != at {
                    let oi = if i < at { i } else { i - 1 };
                    before.lemma_at(oi);
                    assert(before.keys()[oi] == k);
                    assert(self.values@[i] == before.values@[oi]);
                }
            }
            assert(self@ =~= before@.insert(key, value));
        }
        true
    }
}

/// A set of digests.
pub struct DigestSet {
    map: DigestMap<()>,
}

impl DigestSet {
    /// The digests in the set.
    pub closed spec fn view(self) -> Set<Digest> {
        self.map@.dom()
    }

    /// The digests in ascending order.
    pub closed spec fn items(self) -> Seq<Digest> {
        self.map.keys()
    }

    /// An empty set.
    pub fn new() -> (r: DigestSet)
        ensures
            r@ == Set::<Digest>::empty(),
    {
        DigestSet { map: DigestMap::new() }
    }

    /// The number of digests.
    pub fn len(&self) -> (r: usize)
        ensures
            r == self.items().len(),
            digests_ascending(self.items()),
            forall|d: Digest| self@.contains(d) <==> self.items().contains(d),
    {
        self.map.len()
    }

    /// The digest at a position.
    pub fn item(&self, i: usize) -> (r: Digest)
        requires
            i < self.items().len(),
        ensures
            r == self.items()[i as int],
            self@.contains(r),
    {
        self.map.key(i)
    }

    /// Whether a digest is in the set.
    pub fn contains(&self, d: &Digest) -> (r: bool)
        ensures
            r == self@.contains(*d),
    {
        self.map.contains_key(d)
    }

    /// Adds a digest; tells whether it is new.
    pub fn insert(&mut self, d: Digest) -> (r: bool)
        ensures
            final(self)@ == old(self)@.insert(d),
            r == !old(self)@.contains(d),
    {
        let ghost before = self.map@;
        let r = self.map.insert(d, ());
        assert(self.map@.dom() =~= before.dom().insert(d));
        r
    }
}

} // verus!
