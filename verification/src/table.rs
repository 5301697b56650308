//! Ordered tables: the storage model every component of the plane is written
//! against.
//!
//! A [`Table`] maps keys to rows and walks them in key order, which is what a
//! key-value store with range scans offers. Its view is a `Map`, and the order
//! of the walk is fixed by the keys alone.

use vstd::prelude::*;
use vstd::utf8::*;

verus! {

/// How one key stands to another.
#[derive(Debug, Clone, Copy, PartialEq, Eq, Structural)]
pub enum Rank {
    Before,
    Same,
    After,
}

/// A key with a strict total order on its view.
pub trait Key: View + Sized {
    /// The order in which a table walks its keys.
    spec fn precedes(a: Self::V, b: Self::V) -> bool;

    /// No key precedes itself.
    proof fn lemma_irreflexive(a: Self::V)
        ensures
            !Self::precedes(a, a),
    ;

    /// The order is transitive.
    proof fn lemma_transitive(a: Self::V, b: Self::V, c: Self::V)
        requires
            Self::precedes(a, b),
            Self::precedes(b, c),
        ensures
            Self::precedes(a, c),
    ;

    /// Two keys are the same or one precedes the other.
    proof fn lemma_total(a: Self::V, b: Self::V)
        ensures
            a == b || Self::precedes(a, b) || Self::precedes(b, a),
    ;

    /// Where `self` stands relative to `other`.
    fn rank(&self, other: &Self) -> (r: Rank)
        ensures
            r == Rank::Before <==> Self::precedes(self@, other@),
            r == Rank::Same <==> self@ == other@,
            r == Rank::After <==> Self::precedes(other@, self@),
    ;

    /// A second copy of the key.
    fn twin(&self) -> (k: Self)
        ensures
            k@ == self@,
    ;
}

impl Key for u64 {
    open spec fn precedes(a: u64, b: u64) -> bool {
        a < b
    }

    proof fn lemma_irreflexive(a: u64) {
    }

    proof fn lemma_transitive(a: u64, b: u64, c: u64) {
    }

    proof fn lemma_total(a: u64, b: u64) {
    }

    fn rank(&self, other: &Self) -> (r: Rank) {
        if *self < *other {
            Rank::Before
        } else if *self == *other {
            Rank::Same
        } else {
            Rank::After
        }
    }

    fn twin(&self) -> (k: Self) {
        *self
    }
}

impl Key for i64 {
    open spec fn precedes(a: i64, b: i64) -> bool {
        a < b
    }

    proof fn lemma_irreflexive(a: i64) {
    }

    proof fn lemma_transitive(a: i64, b: i64, c: i64) {
    }

    proof fn lemma_total(a: i64, b: i64) {
    }

    fn rank(&self, other: &Self) -> (r: Rank) {
        if *self < *other {
            Rank::Before
        } else if *self == *other {
            Rank::Same
        } else {
            Rank::After
        }
    }

    fn twin(&self) -> (k: Self) {
        *self
    }
}

/// An instant as a key that walks from the newest to the oldest.
#[derive(Debug, Clone, Copy)]
pub struct Newest(pub i64);

impl View for Newest {
    type V = i64;

    open spec fn view(&self) -> i64 {
        self.0
    }
}

impl Key for Newest {
    open spec fn precedes(a: i64, b: i64) -> bool {
        a > b
    }

    proof fn lemma_irreflexive(a: i64) {
    }

    proof fn lemma_transitive(a: i64, b: i64, c: i64) {
    }

    proof fn lemma_total(a: i64, b: i64) {
    }

    fn rank(&self, other: &Self) -> (r: Rank) {
        if self.0 > other.0 {
            Rank::Before
        } else if self.0 == other.0 {
            Rank::Same
        } else {
            Rank::After
        }
    }

    fn twin(&self) -> (k: Self) {
        Newest(self.0)
    }
}

/// Byte strings in dictionary order.
pub open spec fn bytes_before(a: Seq<u8>, b: Seq<u8>) -> bool
    decreases b.len(),
{
    if b.len() == 0 {
        false
    } else if a.len() == 0 {
        true
    } else {
        a[0] < b[0] || (a[0] == b[0] && bytes_before(a.drop_first(), b.drop_first()))
    }
}

proof fn lemma_bytes_irreflexive(a: Seq<u8>)
    ensures
        !bytes_before(a, a),
    decreases a.len(),
{
    if a.len() > 0 {
        lemma_bytes_irreflexive(a.drop_first());
    }
}

proof fn lemma_bytes_transitive(a: Seq<u8>, b: Seq<u8>, c: Seq<u8>)
    requires
        bytes_before(a, b),
        bytes_before(b, c),
    ensures
        bytes_before(a, c),
    decreases c.len(),
{
    if a.len() > 0 && b.len() > 0 && c.len() > 0 && a[0] == b[0] && b[0] == c[0] {
        lemma_bytes_transitive(a.drop_first(), b.drop_first(), c.drop_first());
    }
}

proof fn lemma_bytes_total(a: Seq<u8>, b: Seq<u8>)
    ensures
        a == b || bytes_before(a, b) || bytes_before(b, a),
    decreases a.len(),
{
    if a.len() == 0 && b.len() == 0 {
        assert(a =~= b);
    } else if a.len() > 0 && b.len() > 0 && a[0] == b[0] {
        lemma_bytes_total(a.drop_first(), b.drop_first());
        if a.drop_first() == b.drop_first() {
            assert(a =~= seq![a[0]] + a.drop_first());
            assert(b =~= seq![b[0]] + b.drop_first());
        }
    }
}

/// Stripping an equal prefix changes nothing about the order.
proof fn lemma_bytes_skip(a: Seq<u8>, b: Seq<u8>, n: int)
    requires
        0 <= n <= a.len(),
        n <= b.len(),
        forall|i: int| 0 <= i < n ==> a[i] == b[i],
    ensures
        bytes_before(a, b) == bytes_before(a.skip(n), b.skip(n)),
        bytes_before(b, a) == bytes_before(b.skip(n), a.skip(n)),
    decreases n,
{
    if n == 0 {
        assert(a.skip(0) =~= a);
        assert(b.skip(0) =~= b);
    } else {
        assert(a.drop_first().skip(n - 1) =~= a.skip(n));
        assert(b.drop_first().skip(n - 1) =~= b.skip(n));
        lemma_bytes_skip(a.drop_first(), b.drop_first(), n - 1);
    }
}

/// Compares two byte strings.
fn rank_bytes(a: &[u8], b: &[u8]) -> (r: Rank)
    ensures
        r == Rank::Before <==> bytes_before(a@, b@),
        r == Rank::Same <==> a@ == b@,
        r == Rank::After <==> bytes_before(b@, a@),
{
    let mut i: usize = 0;
    while i < a.len() && i < b.len()
        invariant
            i <= a.len(),
            i <= b.len(),
            forall|j: int| 0 <= j < i ==> a@[j] == b@[j],
        decreases a.len() - i,
    {
        if a[i] != b[i] {
            proof {
                lemma_bytes_skip(a@, b@, i as int);
            }
            return if a[i] < b[i] {
                Rank::Before
            } else {
                Rank::After
            };
        }
        i = i + 1;
    }
    proof {
        lemma_bytes_skip(a@, b@, i as int);
        lemma_bytes_irreflexive(a@);
    }
    if i < b.len() {
        Rank::Before
    } else if i < a.len() {
        Rank::After
    } else {
        assert(a@ =~= b@);
        Rank::Same
    }
}

/// Text in the order of its UTF-8 encoding, which is also the order of its code
/// points.
pub open spec fn text_before(a: Seq<char>, b: Seq<char>) -> bool {
    bytes_before(encode_utf8(a), encode_utf8(b))
}

impl Key for String {
    open spec fn precedes(a: Seq<char>, b: Seq<char>) -> bool {
        text_before(a, b)
    }

    proof fn lemma_irreflexive(a: Seq<char>) {
        lemma_bytes_irreflexive(encode_utf8(a));
    }

    proof fn lemma_transitive(a: Seq<char>, b: Seq<char>, c: Seq<char>) {
        lemma_bytes_transitive(encode_utf8(a), encode_utf8(b), encode_utf8(c));
    }

    proof fn lemma_total(a: Seq<char>, b: Seq<char>) {
        lemma_bytes_total(encode_utf8(a), encode_utf8(b));
        encode_utf8_decode_utf8(a);
        encode_utf8_decode_utf8(b);
    }

    fn rank(&self, other: &Self) -> (r: Rank) {
        proof {
            encode_utf8_decode_utf8(self@);
            encode_utf8_decode_utf8(other@);
        }
        rank_bytes(self.as_str().as_bytes(), other.as_str().as_bytes())
    }

    fn twin(&self) -> (k: Self) {
        self.clone()
    }
}

impl Key for Vec<u8> {
    open spec fn precedes(a: Seq<u8>, b: Seq<u8>) -> bool {
        bytes_before(a, b)
    }

    proof fn lemma_irreflexive(a: Seq<u8>) {
        lemma_bytes_irreflexive(a);
    }

    proof fn lemma_transitive(a: Seq<u8>, b: Seq<u8>, c: Seq<u8>) {
        lemma_bytes_transitive(a, b, c);
    }

    proof fn lemma_total(a: Seq<u8>, b: Seq<u8>) {
        lemma_bytes_total(a, b);
    }

    fn rank(&self, other: &Self) -> (r: Rank) {
        rank_bytes(self.as_slice(), other.as_slice())
    }

    fn twin(&self) -> (k: Self) {
        vstd::slice::slice_to_vec(self.as_slice())
    }
}

impl<A: Key, B: Key> Key for (A, B) {
    open spec fn precedes(a: (A::V, B::V), b: (A::V, B::V)) -> bool {
        A::precedes(a.0, b.0) || (a.0 == b.0 && B::precedes(a.1, b.1))
    }

    proof fn lemma_irreflexive(a: (A::V, B::V)) {
        A::lemma_irreflexive(a.0);
        B::lemma_irreflexive(a.1);
    }

    proof fn lemma_transitive(a: (A::V, B::V), b: (A::V, B::V), c: (A::V, B::V)) {
        if A::precedes(a.0, b.0) && A::precedes(b.0, c.0) {
            A::lemma_transitive(a.0, b.0, c.0);
        }
        if B::precedes(a.1, b.1) && B::precedes(b.1, c.1) {
            B::lemma_transitive(a.1, b.1, c.1);
        }
    }

    proof fn lemma_total(a: (A::V, B::V), b: (A::V, B::V)) {
        A::lemma_total(a.0, b.0);
        B::lemma_total(a.1, b.1);
    }

    fn rank(&self, other: &Self) -> (r: Rank) {
        proof {
            A::lemma_irreflexive(self.0@);
        }
        match self.0.rank(&other.0) {
            Rank::Before => {
                proof {
                    if A::precedes(other.0@, self.0@) {
                        A::lemma_transitive(self.0@, other.0@, self.0@);
                    }
                }
                Rank::Before
            },
            Rank::After => {
                proof {
                    if A::precedes(self.0@, other.0@) {
                        A::lemma_transitive(self.0@, other.0@, self.0@);
                    }
                }
                Rank::After
            },
            Rank::Same => self.1.rank(&other.1),
        }
    }

    fn twin(&self) -> (k: Self) {
        (self.0.twin(), self.1.twin())
    }
}

/// Rows whose keys strictly increase.
pub open spec fn in_order<K: Key, R>(e: Seq<(K::V, R)>) -> bool {
    forall|i: int, j: int|
        0 <= i < j < e.len() ==> K::precedes((#[trigger] e[i]).0, (#[trigger] e[j]).0)
}

/// Whether some row has this key.
pub open spec fn has_key<A, R>(e: Seq<(A, R)>, k: A) -> bool {
    exists|i: int| 0 <= i < e.len() && (#[trigger] e[i]).0 == k
}

/// The rows as a map.
pub open spec fn as_map<A, R>(e: Seq<(A, R)>) -> Map<A, R> {
    Map::new(
        |k: A| has_key(e, k),
        |k: A| e[choose|i: int| 0 <= i < e.len() && (#[trigger] e[i]).0 == k].1,
    )
}

/// A row in order is found under its key.
pub proof fn lemma_entry<K: Key, R>(e: Seq<(K::V, R)>, i: int)
    requires
        in_order::<K, R>(e),
        0 <= i < e.len(),
    ensures
        as_map(e).contains_key(e[i].0),
        as_map(e)[e[i].0] == e[i].1,
{
    let k = e[i].0;
    let j = choose|j: int| 0 <= j < e.len() && (#[trigger] e[j]).0 == k;
    assert(has_key(e, k));
    K::lemma_irreflexive(k);
    assert(i == j) by {
        if i < j {
            assert(K::precedes(e[i].0, e[j].0));
        } else if j < i {
            assert(K::precedes(e[j].0, e[i].0));
        }
    }
}

/// The walk of a table is fixed by what the table holds.
pub proof fn lemma_walk_unique<K: Key, R>(a: Seq<(K::V, R)>, b: Seq<(K::V, R)>)
    requires
        in_order::<K, R>(a),
        in_order::<K, R>(b),
        as_map(a) == as_map(b),
    ensures
        a == b,
    decreases a.len(),
{
    if a.len() == 0 {
        if b.len() > 0 {
            lemma_entry::<K, R>(b, 0);
            assert(as_map(a).contains_key(b[0].0));
        }
        assert(a =~= b);
    } else {
        let n = a.len() - 1;
        lemma_entry::<K, R>(a, n);
        assert(as_map(b).contains_key(a[n].0));
        assert(has_key(b, a[n].0));
        let m = b.len() - 1;
        lemma_entry::<K, R>(b, m);
        assert(as_map(a).contains_key(b[m].0));
        assert(has_key(a, b[m].0));
        let j = choose|j: int| 0 <= j < b.len() && (#[trigger] b[j]).0 == a[n].0;
        let i = choose|i: int| 0 <= i < a.len() && (#[trigger] a[i]).0 == b[m].0;
        assert(j == m) by {
            if j < m {
                assert(K::precedes(b[j].0, b[m].0));
                if i < n {
                    assert(K::precedes(a[i].0, a[n].0));
                    K::lemma_transitive(a[n].0, b[m].0, a[n].0);
                }
                K::lemma_irreflexive(a[n].0);
            }
        }
        assert(a[n] == b[m]);
        let a2 = a.drop_last();
        let b2 = b.drop_last();
        assert forall|k: K::V| has_key(a2, k) == has_key(b2, k) by {
            K::lemma_irreflexive(k);
            if has_key(a2, k) {
                let x = choose|x: int| 0 <= x < a2.len() && (#[trigger] a2[x]).0 == k;
                assert(a[x].0 == k);
                assert(K::precedes(a[x].0, a[n].0));
                assert(as_map(a).contains_key(k));
                assert(has_key(b, k));
                let y = choose|y: int| 0 <= y < b.len() && (#[trigger] b[y]).0 == k;
                assert(y < m);
                assert(b2[y].0 == k);
            }
            if has_key(b2, k) {
                let x = choose|x: int| 0 <= x < b2.len() && (#[trigger] b2[x]).0 == k;
                assert(b[x].0 == k);
                assert(K::precedes(b[x].0, b[m].0));
                assert(as_map(b).contains_key(k));
                assert(has_key(a, k));
                let y = choose|y: int| 0 <= y < a.len() && (#[trigger] a[y]).0 == k;
                assert(y < n);
                assert(a2[y].0 == k);
            }
        }
        assert(in_order::<K, R>(a2));
        assert(in_order::<K, R>(b2));
        assert(as_map(a2) =~= as_map(b2)) by {
            assert forall|k: K::V| as_map(a2).contains_key(k) implies as_map(a2)[k] == as_map(
                b2,
            )[k] by {
                let x = choose|x: int| 0 <= x < a2.len() && (#[trigger] a2[x]).0 == k;
                let y = choose|y: int| 0 <= y < b2.len() && (#[trigger] b2[y]).0 == k;
                assert(has_key(a2, k) && has_key(b2, k));
                lemma_entry::<K, R>(a2, x);
                lemma_entry::<K, R>(b2, y);
                lemma_entry::<K, R>(a, x);
                lemma_entry::<K, R>(b, y);
            }
        }
        lemma_walk_unique::<K, R>(a2, b2);
        assert(a =~= a2.push(a[n]));
        assert(b =~= b2.push(b[m]));
    }
}

/// A table has finitely many keys.
pub proof fn lemma_keys_finite<A, R>(e: Seq<(A, R)>)
    ensures
        as_map(e).dom().finite(),
{
    let keys = Seq::new(e.len(), |i: int| e[i].0);
    vstd::seq_lib::seq_to_set_is_finite(keys);
    assert(as_map(e).dom() =~= keys.to_set()) by {
        assert forall|k: A| as_map(e).dom().contains(k) == keys.to_set().contains(k) by {
            if has_key(e, k) {
                let i = choose|i: int| 0 <= i < e.len() && (#[trigger] e[i]).0 == k;
                assert(keys[i] == k);
            }
            if keys.contains(k) {
                let i = choose|i: int| 0 <= i < keys.len() && keys[i] == k;
                assert(e[i].0 == k);
            }
        }
    }
}

/// A walk meets as many rows as the table has keys.
pub proof fn lemma_keys_counted<K: Key, R>(e: Seq<(K::V, R)>)
    requires
        in_order::<K, R>(e),
    ensures
        as_map(e).dom().len() == e.len(),
{
    let keys = Seq::new(e.len(), |i: int| e[i].0);
    assert(keys.no_duplicates()) by {
        assert forall|i: int, j: int| 0 <= i < keys.len() && 0 <= j < keys.len() && i != j implies keys[i]
            != keys[j] by {
            K::lemma_irreflexive(keys[i]);
            if i < j {
                assert(K::precedes(e[i].0, e[j].0));
            } else {
                assert(K::precedes(e[j].0, e[i].0));
            }
        }
    }
    keys.unique_seq_to_set();
    assert(as_map(e).dom() =~= keys.to_set()) by {
        assert forall|k: K::V| as_map(e).dom().contains(k) == keys.to_set().contains(k) by {
            if has_key(e, k) {
                let i = choose|i: int| 0 <= i < e.len() && (#[trigger] e[i]).0 == k;
                assert(keys[i] == k);
            }
            if keys.contains(k) {
                let i = choose|i: int| 0 <= i < keys.len() && keys[i] == k;
                assert(e[i].0 == k);
            }
        }
    }
}

/// Replacing the row under a key is inserting it into the map.
proof fn lemma_replaced<K: Key, R>(e: Seq<(K::V, R)>, p: int, k: K::V, r: R)
    requires
        in_order::<K, R>(e),
        0 <= p < e.len(),
        e[p].0 == k,
    ensures
        in_order::<K, R>(e.update(p, (k, r))),
        as_map(e.update(p, (k, r))) == as_map(e).insert(k, r),
{
    let f = e.update(p, (k, r));
    assert(in_order::<K, R>(f));
    lemma_entry::<K, R>(f, p);
    assert forall|x: K::V| has_key(f, x) == has_key(e, x) by {
        if has_key(e, x) {
            let i = choose|i: int| 0 <= i < e.len() && (#[trigger] e[i]).0 == x;
            assert(f[i].0 == x);
        }
        if has_key(f, x) {
            let i = choose|i: int| 0 <= i < f.len() && (#[trigger] f[i]).0 == x;
            assert(e[i].0 == x);
        }
    }
    assert forall|x: K::V| has_key(f, x) && x != k implies as_map(f)[x] == as_map(e)[x] by {
        let i = choose|i: int| 0 <= i < f.len() && (#[trigger] f[i]).0 == x;
        lemma_entry::<K, R>(f, i);
        lemma_entry::<K, R>(e, i);
    }
    assert(as_map(f) =~= as_map(e).insert(k, r));
}

/// Placing a new row where its key belongs is inserting it into the map.
proof fn lemma_placed<K: Key, R>(e: Seq<(K::V, R)>, p: int, k: K::V, r: R)
    requires
        in_order::<K, R>(e),
        0 <= p <= e.len(),
        !has_key(e, k),
        forall|i: int| 0 <= i < p ==> K::precedes((#[trigger] e[i]).0, k),
        forall|i: int| p <= i < e.len() ==> !K::precedes((#[trigger] e[i]).0, k),
    ensures
        in_order::<K, R>(e.insert(p, (k, r))),
        as_map(e.insert(p, (k, r))) == as_map(e).insert(k, r),
{
    let f = e.insert(p, (k, r));
    assert forall|i: int, j: int| 0 <= i < j < f.len() implies K::precedes(
        (#[trigger] f[i]).0,
        (#[trigger] f[j]).0,
    ) by {
        let oi = if i < p { i } else { i - 1 };
        let oj = if j < p { j } else { j - 1 };
        if i == p {
            K::lemma_total(k, e[oj].0);
            assert(e[oj].0 != k);
        } else if j == p {
            assert(f[i] == e[i]);
        } else {
            assert(f[i] == e[oi] && f[j] == e[oj]);
        }
    }
    lemma_entry::<K, R>(f, p);
    assert forall|x: K::V| has_key(f, x) == (has_key(e, x) || x == k) by {
        if has_key(e, x) {
            let i = choose|i: int| 0 <= i < e.len() && (#[trigger] e[i]).0 == x;
            let j = if i < p { i } else { i + 1 };
            assert(f[j].0 == x);
        }
        if x == k {
            assert(f[p].0 == x);
        }
        if has_key(f, x) && x != k {
            let i = choose|i: int| 0 <= i < f.len() && (#[trigger] f[i]).0 == x;
            let j = if i < p { i } else { i - 1 };
            assert(e[j].0 == x);
        }
    }
    assert forall|x: K::V| has_key(f, x) && x != k implies as_map(f)[x] == as_map(e)[x] by {
        let i = choose|i: int| 0 <= i < f.len() && (#[trigger] f[i]).0 == x;
        let j = if i < p { i } else { i - 1 };
        assert(e[j] == f[i]);
        lemma_entry::<K, R>(f, i);
        lemma_entry::<K, R>(e, j);
    }
    assert(as_map(f) =~= as_map(e).insert(k, r));
}

/// Taking a row out is removing its key from the map.
proof fn lemma_taken<K: Key, R>(e: Seq<(K::V, R)>, p: int)
    requires
        in_order::<K, R>(e),
        0 <= p < e.len(),
    ensures
        in_order::<K, R>(e.remove(p)),
        as_map(e.remove(p)) == as_map(e).remove(e[p].0),
{
    let k = e[p].0;
    let f = e.remove(p);
    assert forall|i: int, j: int| 0 <= i < j < f.len() implies K::precedes(
        (#[trigger] f[i]).0,
        (#[trigger] f[j]).0,
    ) by {
        let oi = if i < p { i } else { i + 1 };
        let oj = if j < p { j } else { j + 1 };
        assert(f[i] == e[oi] && f[j] == e[oj]);
    }
    K::lemma_irreflexive(k);
    assert forall|x: K::V| has_key(f, x) == (has_key(e, x) && x != k) by {
        if has_key(e, x) && x != k {
            let i = choose|i: int| 0 <= i < e.len() && (#[trigger] e[i]).0 == x;
            let j = if i < p { i } else { i - 1 };
            assert(f[j].0 == x);
        }
        if has_key(f, x) {
            let i = choose|i: int| 0 <= i < f.len() && (#[trigger] f[i]).0 == x;
            let j = if i < p { i } else { i + 1 };
            assert(e[j].0 == x);
            if i < p {
                assert(K::precedes(e[j].0, e[p].0));
            } else {
                assert(K::precedes(e[p].0, e[j].0));
            }
        }
    }
    assert forall|x: K::V| has_key(f, x) implies as_map(f)[x] == as_map(e)[x] by {
        let i = choose|i: int| 0 <= i < f.len() && (#[trigger] f[i]).0 == x;
        let j = if i < p { i } else { i + 1 };
        assert(e[j] == f[i]);
        lemma_entry::<K, R>(f, i);
        lemma_entry::<K, R>(e, j);
    }
    assert(as_map(f) =~= as_map(e).remove(k));
}

/// The rows of a map, in key order.
pub open spec fn walk<K: Key, R>(m: Map<K::V, R>) -> Seq<(K::V, R)> {
    choose|e: Seq<(K::V, R)>| in_order::<K, R>(e) && #[trigger] as_map(e) == m
}

/// The rows of a map that a rule takes, in key order.
pub open spec fn chosen<K: Key, R>(m: Map<K::V, R>, f: spec_fn((K::V, R)) -> bool) -> Seq<
    (K::V, R),
> {
    walk::<K, R>(m).filter(f)
}

/// How many of `len` a page of `limit` holds.
pub open spec fn page(len: nat, limit: usize) -> int {
    if len <= limit {
        len as int
    } else {
        limit as int
    }
}

/// The place of a key in a walk that does not have it.
proof fn lemma_place<K: Key, R>(e: Seq<(K::V, R)>, k: K::V) -> (p: int)
    requires
        in_order::<K, R>(e),
        !has_key(e, k),
    ensures
        0 <= p <= e.len(),
        forall|i: int| 0 <= i < p ==> K::precedes((#[trigger] e[i]).0, k),
        forall|i: int| p <= i < e.len() ==> K::precedes(k, (#[trigger] e[i]).0),
    decreases e.len(),
{
    if e.len() == 0 {
        0
    } else {
        let n = e.len() - 1;
        assert(e[n].0 != k);
        K::lemma_total(e[n].0, k);
        if K::precedes(e[n].0, k) {
            assert forall|i: int| 0 <= i < e.len() implies K::precedes((#[trigger] e[i]).0, k) by {
                if i < n {
                    K::lemma_transitive(e[i].0, e[n].0, k);
                }
            }
            e.len() as int
        } else {
            let d = e.drop_last();
            assert forall|i: int| 0 <= i < d.len() implies d[i] == #[trigger] e[i] by {}
            assert(!has_key(d, k)) by {
                if has_key(d, k) {
                    let i = choose|i: int| 0 <= i < d.len() && (#[trigger] d[i]).0 == k;
                    assert(e[i].0 == k);
                }
            }
            assert(in_order::<K, R>(d)) by {
                assert forall|i: int, j: int| 0 <= i < j < d.len() implies K::precedes(
                    (#[trigger] d[i]).0,
                    (#[trigger] d[j]).0,
                ) by {
                    assert(K::precedes(e[i].0, e[j].0));
                }
            }
            let p = lemma_place::<K, R>(d, k);
            assert forall|i: int| 0 <= i < p implies K::precedes((#[trigger] e[i]).0, k) by {
                assert(e[i] == d[i]);
            }
            assert forall|i: int| p <= i < e.len() implies K::precedes(k, (#[trigger] e[i]).0) by {
                if i < n {
                    assert(e[i] == d[i]);
                }
            }
            p
        }
    }
}

/// Some walk goes over the rows of a finite map.
proof fn lemma_walk_exists<K: Key, R>(m: Map<K::V, R>) -> (e: Seq<(K::V, R)>)
    requires
        m.dom().finite(),
    ensures
        in_order::<K, R>(e),
        as_map(e) == m,
    decreases m.dom().len(),
{
    if m.dom().len() == 0 {
        let e = Seq::<(K::V, R)>::empty();
        assert(as_map(e) =~= m);
        e
    } else {
        let k = m.dom().choose();
        let rest = m.remove(k);
        assert(rest.dom() =~= m.dom().remove(k));
        let e = lemma_walk_exists::<K, R>(rest);
        assert(!has_key(e, k)) by {
            if has_key(e, k) {
                assert(as_map(e).contains_key(k));
            }
        }
        let p = lemma_place::<K, R>(e, k);
        assert forall|i: int| p <= i < e.len() implies !K::precedes((#[trigger] e[i]).0, k) by {
            if K::precedes(e[i].0, k) {
                K::lemma_transitive(k, e[i].0, k);
                K::lemma_irreflexive(k);
            }
        }
        lemma_placed::<K, R>(e, p, k, m[k]);
        let out = e.insert(p, (k, m[k]));
        assert(as_map(out) =~= m);
        out
    }
}

/// The walk over a finite map is in order and goes over exactly its rows.
pub proof fn lemma_walk<K: Key, R>(m: Map<K::V, R>)
    requires
        m.dom().finite(),
    ensures
        in_order::<K, R>(walk::<K, R>(m)),
        as_map(walk::<K, R>(m)) == m,
{
    let e = lemma_walk_exists::<K, R>(m);
}

/// A walk is the walk over its rows.
pub proof fn lemma_is_walk<K: Key, R>(e: Seq<(K::V, R)>)
    requires
        in_order::<K, R>(e),
    ensures
        walk::<K, R>(as_map(e)) == e,
{
    let w = walk::<K, R>(as_map(e));
    assert(in_order::<K, R>(w) && as_map(w) == as_map(e));
    lemma_walk_unique::<K, R>(w, e);
}

/// The taken rows among one row more.
pub proof fn lemma_filter_step<A>(e: Seq<A>, f: spec_fn(A) -> bool, i: int)
    requires
        0 <= i < e.len(),
    ensures
        e.take(i + 1).filter(f) == if f(e[i]) {
            e.take(i).filter(f).push(e[i])
        } else {
            e.take(i).filter(f)
        },
{
    reveal(Seq::filter);
    assert(e.take(i + 1).drop_last() =~= e.take(i));
    assert(e.take(i + 1).last() == e[i]);
}

/// What a rule takes from a prefix is a prefix of what it takes.
pub proof fn lemma_filter_prefix<A>(e: Seq<A>, f: spec_fn(A) -> bool, i: int)
    requires
        0 <= i <= e.len(),
    ensures
        e.take(i).filter(f).len() <= e.filter(f).len(),
        forall|j: int|
            0 <= j < e.take(i).filter(f).len() ==> #[trigger] e.take(i).filter(f)[j] == e.filter(
                f,
            )[j],
    decreases e.len() - i,
{
    if i == e.len() {
        assert(e.take(i) =~= e);
    } else {
        lemma_filter_prefix(e, f, i + 1);
        lemma_filter_step(e, f, i);
        assert forall|j: int| 0 <= j < e.take(i).filter(f).len() implies #[trigger] e.take(
            i,
        ).filter(f)[j] == e.filter(f)[j] by {
            assert(e.take(i + 1).filter(f)[j] == e.take(i).filter(f)[j]);
        }
    }
}

/// Where each taken row stood, in order.
pub proof fn lemma_filter_origin<A>(e: Seq<A>, f: spec_fn(A) -> bool) -> (at: Seq<int>)
    ensures
        at.len() == e.filter(f).len(),
        forall|i: int|
            0 <= i < at.len() ==> 0 <= #[trigger] at[i] < e.len() && e[at[i]] == e.filter(f)[i]
                && f(e[at[i]]),
        forall|i: int, j: int| 0 <= i < j < at.len() ==> #[trigger] at[i] < #[trigger] at[j],
        forall|j: int|
            0 <= j < e.len() && f(#[trigger] e[j]) ==> exists|i: int|
                0 <= i < at.len() && #[trigger] at[i] == j,
    decreases e.len(),
{
    reveal(Seq::filter);
    if e.len() == 0 {
        Seq::empty()
    } else {
        let d = e.drop_last();
        let n = e.len() - 1;
        let before = lemma_filter_origin(d, f);
        assert forall|i: int| 0 <= i < before.len() implies 0 <= #[trigger] before[i] < d.len()
            && e[before[i]] == d[before[i]] by {}
        let at = if f(e[n]) {
            before.push(n)
        } else {
            before
        };
        assert forall|j: int| 0 <= j < e.len() && f(#[trigger] e[j]) implies exists|i: int|
            0 <= i < at.len() && #[trigger] at[i] == j by {
            if j < n {
                assert(d[j] == e[j]);
                let i = choose|i: int| 0 <= i < before.len() && #[trigger] before[i] == j;
                assert(at[i] == j);
            } else {
                assert(at[before.len() as int] == j);
            }
        }
        at
    }
}

/// A rising run of places below `n` has at most `n` of them.
proof fn lemma_rising(at: Seq<int>, n: int)
    requires
        n >= 0,
        forall|i: int| 0 <= i < at.len() ==> 0 <= #[trigger] at[i] < n,
        forall|i: int, j: int| 0 <= i < j < at.len() ==> #[trigger] at[i] < #[trigger] at[j],
    ensures
        at.len() <= n,
    decreases at.len(),
{
    if at.len() > 0 {
        let last = at[at.len() - 1];
        let d = at.drop_last();
        assert forall|i: int| 0 <= i < d.len() implies 0 <= #[trigger] d[i] < last by {
            assert(at[i] < at[at.len() - 1]);
        }
        lemma_rising(d, last);
    }
}

/// The chosen rows of a finite map: each is a row that the rule takes, they are
/// in key order, and no such row is left out.
pub proof fn lemma_chosen<K: Key, R>(m: Map<K::V, R>, f: spec_fn((K::V, R)) -> bool)
    requires
        m.dom().finite(),
    ensures
        in_order::<K, R>(chosen::<K, R>(m, f)),
        forall|i: int|
            0 <= i < chosen::<K, R>(m, f).len() ==> {
                let e = #[trigger] chosen::<K, R>(m, f)[i];
                m.contains_key(e.0) && m[e.0] == e.1 && f(e)
            },
        forall|k: K::V| #[trigger]
            m.contains_key(k) && f((k, m[k])) ==> has_key(chosen::<K, R>(m, f), k),
{
    lemma_walk::<K, R>(m);
    lemma_chosen_of::<K, R>(walk::<K, R>(m), f);
}

/// Two tables give the same choice where the same rows of them are picked.
pub proof fn lemma_chosen_alike<K: Key, R>(
    m: Map<K::V, R>,
    n: Map<K::V, R>,
    f: spec_fn((K::V, R)) -> bool,
    g: spec_fn((K::V, R)) -> bool,
)
    requires
        m.dom().finite(),
        n.dom().finite(),
        forall|k: K::V|
            (#[trigger] m.contains_key(k) && f((k, m[k]))) ==> n.contains_key(k) && g((k, n[k]))
                && n[k] == m[k],
        forall|k: K::V|
            (#[trigger] n.contains_key(k) && g((k, n[k]))) ==> m.contains_key(k) && f((k, m[k]))
                && n[k] == m[k],
    ensures
        chosen::<K, R>(m, f) == chosen::<K, R>(n, g),
{
    lemma_chosen::<K, R>(m, f);
    lemma_chosen::<K, R>(n, g);
    let a = chosen::<K, R>(m, f);
    let b = chosen::<K, R>(n, g);
    assert forall|k: K::V| #[trigger] has_key(a, k) implies has_key(b, k) by {
        let i = choose|i: int| 0 <= i < a.len() && (#[trigger] a[i]).0 == k;
        assert(m.contains_key(a[i].0) && f(a[i]));
        assert(n.contains_key(k) && g((k, n[k])));
    }
    assert forall|k: K::V| #[trigger] has_key(b, k) implies has_key(a, k) by {
        let i = choose|i: int| 0 <= i < b.len() && (#[trigger] b[i]).0 == k;
        assert(n.contains_key(b[i].0) && g(b[i]));
        assert(m.contains_key(k) && f((k, m[k])));
    }
    assert forall|i: int| 0 <= i < a.len() implies as_map(a)[(#[trigger] a[i]).0] == a[i].1 by {
        lemma_entry::<K, R>(a, i);
    }
    assert forall|i: int| 0 <= i < b.len() implies as_map(b)[(#[trigger] b[i]).0] == b[i].1 by {
        lemma_entry::<K, R>(b, i);
    }
    assert forall|k: K::V| #[trigger] as_map(a).contains_key(k) implies as_map(b)[k]
        == as_map(a)[k] by {
        assert(has_key(a, k));
        assert(has_key(b, k));
        let i = choose|i: int| 0 <= i < a.len() && (#[trigger] a[i]).0 == k;
        let j = choose|j: int| 0 <= j < b.len() && (#[trigger] b[j]).0 == k;
        assert(m[k] == a[i].1 && n[k] == b[j].1);
        assert(m.contains_key(k) && f((k, m[k])));
    }
    assert(as_map(a) =~= as_map(b));
    lemma_walk_unique::<K, R>(a, b);
}

/// What a rule takes from a walk.
pub proof fn lemma_chosen_of<K: Key, R>(w: Seq<(K::V, R)>, f: spec_fn((K::V, R)) -> bool)
    requires
        in_order::<K, R>(w),
    ensures
        in_order::<K, R>(w.filter(f)),
        forall|i: int|
            0 <= i < w.filter(f).len() ==> {
                let e = #[trigger] w.filter(f)[i];
                as_map(w).contains_key(e.0) && as_map(w)[e.0] == e.1 && f(e)
            },
        forall|k: K::V| #[trigger]
            as_map(w).contains_key(k) && f((k, as_map(w)[k])) ==> has_key(w.filter(f), k),
{
    let c = w.filter(f);
    let at = lemma_filter_origin(w, f);
    assert forall|i: int, j: int| 0 <= i < j < c.len() implies K::precedes(
        (#[trigger] c[i]).0,
        (#[trigger] c[j]).0,
    ) by {
        assert(at[i] < at[j]);
        assert(w[at[i]] == c[i] && w[at[j]] == c[j]);
    }
    assert forall|i: int| 0 <= i < c.len() implies {
        let e = #[trigger] c[i];
        as_map(w).contains_key(e.0) && as_map(w)[e.0] == e.1 && f(e)
    } by {
        assert(w[at[i]] == c[i]);
        lemma_entry::<K, R>(w, at[i]);
    }
    assert forall|k: K::V| #[trigger]
        as_map(w).contains_key(k) && f((k, as_map(w)[k])) implies has_key(c, k) by {
        let j = choose|j: int| 0 <= j < w.len() && (#[trigger] w[j]).0 == k;
        lemma_entry::<K, R>(w, j);
        assert(w[j] == (k, as_map(w)[k]));
        assert(f(w[j]));
        let i = choose|i: int| 0 <= i < at.len() && #[trigger] at[i] == j;
        assert(w[at[i]] == c[i]);
        assert(c[i].0 == k);
    }
}

/// A choice of rows, by what they hold.
pub trait Pick<K: View, R: View>: Sized {
    /// Whether the choice takes this row.
    spec fn picks(&self, k: K::V, r: R::V) -> bool;

    /// Decides whether the choice takes this row.
    fn test(&self, k: &K, r: &R) -> (b: bool)
        ensures
            b == self.picks(k@, r@),
    ;
}

/// An instant that some rows of a table are listed by.
pub trait Stamp<K: View, R: View>: Sized {
    /// The instant of a row, where it is listed at all.
    spec fn stamp(&self, k: K::V, r: R::V) -> Option<i64>;

    /// Finds the instant of a row.
    fn instant(&self, k: &K, r: &R) -> (at: Option<i64>)
        ensures
            at == self.stamp(k@, r@),
    ;
}

/// The keys of the rows that have an instant, under that instant.
pub open spec fn stamped<K: Key, R>(
    m: Map<K::V, R>,
    f: spec_fn((K::V, R)) -> Option<i64>,
) -> Map<(i64, K::V), ()> {
    Map::new(
        |e: (i64, K::V)| m.contains_key(e.1) && f((e.1, m[e.1])) == Some(e.0),
        |e: (i64, K::V)| (),
    )
}

/// The keys of the rows that have an instant, by that instant.
pub open spec fn listed<K: Key, R>(m: Map<K::V, R>, f: spec_fn((K::V, R)) -> Option<i64>) -> Seq<
    ((i64, K::V), ()),
> {
    walk::<(i64, K), ()>(stamped::<K, R>(m, f))
}

/// What is listed: the rows that have an instant, each once, by that instant.
pub proof fn lemma_listed<K: Key, R>(m: Map<K::V, R>, f: spec_fn((K::V, R)) -> Option<i64>)
    requires
        m.dom().finite(),
    ensures
        in_order::<(i64, K), ()>(listed::<K, R>(m, f)),
        forall|i: int|
            0 <= i < listed::<K, R>(m, f).len() ==> {
                let e = (#[trigger] listed::<K, R>(m, f)[i]).0;
                m.contains_key(e.1) && f((e.1, m[e.1])) == Some(e.0)
            },
        forall|k: K::V, at: i64|
            m.contains_key(k) && #[trigger] f((k, m[k])) == Some(at) ==> #[trigger] has_key(
                listed::<K, R>(m, f),
                (at, k),
            ),
{
    let s = stamped::<K, R>(m, f);
    let g = |k: K::V| (f((k, m[k]))->0, k);
    m.dom().lemma_map_finite(g);
    assert(s.dom().subset_of(m.dom().map(g))) by {
        assert forall|e: (i64, K::V)| s.dom().contains(e) implies m.dom().map(g).contains(e) by {
            assert(m.dom().contains(e.1) && g(e.1) == e);
        }
    }
    vstd::set_lib::lemma_set_subset_finite(m.dom().map(g), s.dom());
    lemma_walk::<(i64, K), ()>(s);
    let w = listed::<K, R>(m, f);
    assert forall|i: int| 0 <= i < w.len() implies {
        let e = (#[trigger] w[i]).0;
        m.contains_key(e.1) && f((e.1, m[e.1])) == Some(e.0)
    } by {
        lemma_entry::<(i64, K), ()>(w, i);
        assert(s.contains_key(w[i].0));
    }
    assert forall|k: K::V, at: i64|
        m.contains_key(k) && #[trigger] f((k, m[k])) == Some(at) implies #[trigger] has_key(
        w,
        (at, k),
    ) by {
        assert(s.contains_key((at, k)));
        assert(as_map(w).contains_key((at, k)));
    }
}

/// The chosen rows, as a table of their own.
pub proof fn lemma_chosen_map<K: Key, R>(m: Map<K::V, R>, f: spec_fn((K::V, R)) -> bool)
    requires
        m.dom().finite(),
    ensures
        in_order::<K, R>(chosen::<K, R>(m, f)),
        as_map(chosen::<K, R>(m, f)) == Map::new(
            |k: K::V| m.contains_key(k) && f((k, m[k])),
            |k: K::V| m[k],
        ),
{
    let rows = chosen::<K, R>(m, f);
    lemma_chosen::<K, R>(m, f);
    let want = Map::new(|k: K::V| m.contains_key(k) && f((k, m[k])), |k: K::V| m[k]);
    assert forall|k: K::V| #[trigger] as_map(rows).contains_key(k) == want.contains_key(k) by {
        if has_key(rows, k) {
            let i = choose|i: int| 0 <= i < rows.len() && (#[trigger] rows[i]).0 == k;
            assert(m.contains_key(rows[i].0) && f(rows[i]));
        }
        if want.contains_key(k) {
            assert(m.contains_key(k) && f((k, m[k])));
        }
    }
    assert forall|k: K::V| #[trigger] as_map(rows).contains_key(k) implies as_map(rows)[k]
        == want[k] by {
        let i = choose|i: int| 0 <= i < rows.len() && (#[trigger] rows[i]).0 == k;
        lemma_entry::<K, R>(rows, i);
        assert(m[rows[i].0] == rows[i].1);
    }
    assert(as_map(rows) =~= want);
}

/// A row more that the rule takes is one chosen row more.
pub proof fn lemma_chosen_gains<K: Key, R>(
    m: Map<K::V, R>,
    f: spec_fn((K::V, R)) -> bool,
    k: K::V,
    r: R,
) -> (p: int)
    requires
        m.dom().finite(),
        !m.contains_key(k),
        f((k, r)),
    ensures
        0 <= p <= chosen::<K, R>(m, f).len(),
        chosen::<K, R>(m.insert(k, r), f) == chosen::<K, R>(m, f).insert(p, (k, r)),
{
    let rows = chosen::<K, R>(m, f);
    let after = m.insert(k, r);
    lemma_chosen_map::<K, R>(m, f);
    lemma_chosen_map::<K, R>(after, f);
    assert(!has_key(rows, k)) by {
        if has_key(rows, k) {
            assert(as_map(rows).contains_key(k));
        }
    }
    let p = lemma_place::<K, R>(rows, k);
    assert forall|i: int| p <= i < rows.len() implies !K::precedes((#[trigger] rows[i]).0, k) by {
        if K::precedes(rows[i].0, k) {
            K::lemma_transitive(k, rows[i].0, k);
            K::lemma_irreflexive(k);
        }
    }
    lemma_placed::<K, R>(rows, p, k, r);
    let more = rows.insert(p, (k, r));
    assert(as_map(more) =~= as_map(chosen::<K, R>(after, f)));
    lemma_walk_unique::<K, R>(more, chosen::<K, R>(after, f));
    p
}

/// A chosen row that changes, and is chosen still, changes in its place.
pub proof fn lemma_chosen_changes<K: Key, R>(
    m: Map<K::V, R>,
    f: spec_fn((K::V, R)) -> bool,
    k: K::V,
    r: R,
) -> (p: int)
    requires
        m.dom().finite(),
        m.contains_key(k),
        f((k, m[k])),
        f((k, r)),
    ensures
        0 <= p < chosen::<K, R>(m, f).len(),
        chosen::<K, R>(m, f)[p] == (k, m[k]),
        chosen::<K, R>(m.insert(k, r), f) == chosen::<K, R>(m, f).update(p, (k, r)),
{
    let rows = chosen::<K, R>(m, f);
    let after = m.insert(k, r);
    lemma_chosen::<K, R>(m, f);
    lemma_chosen_map::<K, R>(m, f);
    lemma_chosen_map::<K, R>(after, f);
    assert(has_key(rows, k));
    let p = choose|p: int| 0 <= p < rows.len() && (#[trigger] rows[p]).0 == k;
    lemma_replaced::<K, R>(rows, p, k, r);
    let more = rows.update(p, (k, r));
    assert(as_map(more) =~= as_map(chosen::<K, R>(after, f)));
    lemma_walk_unique::<K, R>(more, chosen::<K, R>(after, f));
    p
}

/// As many rows are chosen as there are keys whose row the rule takes.
pub proof fn lemma_chosen_counted<K: Key, R>(m: Map<K::V, R>, f: spec_fn((K::V, R)) -> bool)
    requires
        m.dom().finite(),
    ensures
        Set::new(|k: K::V| m.contains_key(k) && f((k, m[k]))).finite(),
        chosen::<K, R>(m, f).len() == Set::new(
            |k: K::V| m.contains_key(k) && f((k, m[k])),
        ).len(),
{
    let rows = chosen::<K, R>(m, f);
    let keys = Set::new(|k: K::V| m.contains_key(k) && f((k, m[k])));
    lemma_chosen::<K, R>(m, f);
    lemma_keys_counted::<K, R>(rows);
    lemma_keys_finite(rows);
    assert forall|k: K::V| #[trigger] keys.contains(k) <==> as_map(rows).dom().contains(k) by {
        if keys.contains(k) {
            assert(m.contains_key(k) && f((k, m[k])));
            assert(has_key(rows, k));
        }
        if has_key(rows, k) {
            let i = choose|i: int| 0 <= i < rows.len() && (#[trigger] rows[i]).0 == k;
            assert(f(rows[i]) && m.contains_key(rows[i].0));
        }
    }
    assert(keys =~= as_map(rows).dom());
}

/// As many keys are listed as there are rows that have an instant, and the
/// instants rise along the list.
pub proof fn lemma_listed_counted<K: Key, R>(
    m: Map<K::V, R>,
    f: spec_fn((K::V, R)) -> Option<i64>,
)
    requires
        m.dom().finite(),
    ensures
        Set::new(|k: K::V| m.contains_key(k) && f((k, m[k])) is Some).finite(),
        listed::<K, R>(m, f).len() == Set::new(
            |k: K::V| m.contains_key(k) && f((k, m[k])) is Some,
        ).len(),
        forall|i: int, j: int|
            0 <= i < j < listed::<K, R>(m, f).len() ==> (#[trigger] listed::<K, R>(m, f)[i]).0.0
                <= (#[trigger] listed::<K, R>(m, f)[j]).0.0,
        forall|i: int, j: int|
            0 <= i < j < listed::<K, R>(m, f).len() ==> (#[trigger] listed::<K, R>(m, f)[i]).0.1
                != (#[trigger] listed::<K, R>(m, f)[j]).0.1,
{
    lemma_listed::<K, R>(m, f);
    let w = listed::<K, R>(m, f);
    let s = stamped::<K, R>(m, f);
    let keys = Set::new(|k: K::V| m.contains_key(k) && f((k, m[k])) is Some);
    let g = |k: K::V| (f((k, m[k]))->0, k);
    vstd::set_lib::lemma_set_subset_finite(m.dom(), keys);
    lemma_keys_counted::<(i64, K), ()>(w);
    assert forall|e: (i64, K::V)| #[trigger]
        as_map(w).dom().contains(e) <==> keys.map(g).contains(e) by {
        if has_key(w, e) {
            let i = choose|i: int| 0 <= i < w.len() && (#[trigger] w[i]).0 == e;
            assert(f((e.1, m[e.1])) == Some(e.0));
            assert(keys.contains(e.1) && g(e.1) == e);
        }
        if keys.map(g).contains(e) {
            let k = choose|k: K::V| keys.contains(k) && g(k) == e;
            let at = f((k, m[k]))->0;
            assert(m.contains_key(k) && f((k, m[k])) == Some(at));
            assert(has_key(w, (at, k)));
        }
    }
    assert(as_map(w).dom() =~= keys.map(g));
    vstd::set_lib::lemma_map_size(keys, as_map(w).dom(), g);
    assert forall|i: int, j: int| 0 <= i < j < w.len() implies (#[trigger] w[i]).0.0 <= (
    #[trigger] w[j]).0.0 by {
        assert(<(i64, K)>::precedes(w[i].0, w[j].0));
    }
    assert forall|i: int, j: int| 0 <= i < j < w.len() implies (#[trigger] w[i]).0.1 != (
    #[trigger] w[j]).0.1 by {
        assert(<(i64, K)>::precedes(w[i].0, w[j].0));
        if w[i].0.1 == w[j].0.1 {
            let a = w[i].0;
            let b = w[j].0;
            assert(f((a.1, m[a.1])) == Some(a.0) && f((b.1, m[b.1])) == Some(b.0));
            K::lemma_irreflexive(a.1);
        }
    }
}

/// Whether a rule holds of every row of a table.
pub open spec fn every<K, R>(m: Map<K, R>, f: spec_fn((K, R)) -> bool) -> bool {
    forall|k: K| #[trigger] m.dom().contains(k) ==> f((k, m[k]))
}

/// What is left of a table when every picked row is taken out.
pub open spec fn kept<K: View, R: View, P: Pick<K, R>>(m: Map<K::V, R::V>, p: P) -> Map<
    K::V,
    R::V,
> {
    Map::new(|k: K::V| m.contains_key(k) && !p.picks(k, m[k]), |k: K::V| m[k])
}

/// The picked rows, in key order.
pub open spec fn picked<K: View, R: View, P: Pick<K, R>>(e: Seq<(K::V, R::V)>, p: P) -> Seq<
    (K::V, R::V),
> {
    e.filter(|x: (K::V, R::V)| p.picks(x.0, x.1))
}

/// The picked rows among one row more.
pub proof fn lemma_picked_step<K: View, R: View, P: Pick<K, R>>(
    e: Seq<(K::V, R::V)>,
    p: P,
    i: int,
)
    requires
        0 <= i < e.len(),
    ensures
        picked::<K, R, P>(e.take(i + 1), p) == if p.picks(e[i].0, e[i].1) {
            picked::<K, R, P>(e.take(i), p).push(e[i])
        } else {
            picked::<K, R, P>(e.take(i), p)
        },
{
    reveal(Seq::filter);
    assert(e.take(i + 1).drop_last() =~= e.take(i));
    assert(e.take(i + 1).last() == e[i]);
}

/// The views of a run of rows.
spec fn viewed<K: View, R: View>(rows: Seq<(K, R)>) -> Seq<(K::V, R::V)> {
    Seq::new(rows.len(), |i: int| (rows[i].0@, rows[i].1@))
}

/// An ordered table from keys to rows.
pub struct Table<K: Key, R: View> {
    rows: Vec<(K, R)>,
}

impl<K: Key, R: View> View for Table<K, R> {
    type V = Map<K::V, R::V>;

    open spec fn view(&self) -> Map<K::V, R::V> {
        as_map(self.entries())
    }
}

impl<K: Key, R: View> Table<K, R> {
    /// The rows in key order.
    pub closed spec fn entries(&self) -> Seq<(K::V, R::V)> {
        viewed(self.rows@)
    }

    #[verifier::type_invariant]
    spec fn sorted(&self) -> bool {
        in_order::<K, R::V>(self.entries())
    }

    /// A table with no rows.
    pub fn new() -> (t: Self)
        ensures
            t.entries() == Seq::<(K::V, R::V)>::empty(),
            t@ == Map::<K::V, R::V>::empty(),
    {
        let t = Table { rows: Vec::new() };
        assert(t.entries() =~= Seq::empty());
        assert(t@ =~= Map::<K::V, R::V>::empty());
        t
    }

    /// How many rows the table holds, and what the walk over them is like.
    pub fn len(&self) -> (n: usize)
        ensures
            n == self.entries().len(),
            in_order::<K, R::V>(self.entries()),
            forall|i: int|
                0 <= i < n ==> self@.contains_key((#[trigger] self.entries()[i]).0)
                    && self@[self.entries()[i].0] == self.entries()[i].1,
            forall|k: K::V| #[trigger] self@.contains_key(k) ==> has_key(self.entries(), k),
    {
        proof {
            use_type_invariant(self);
            assert forall|i: int| 0 <= i < self.entries().len() implies self@.contains_key(
                (#[trigger] self.entries()[i]).0,
            ) && self@[self.entries()[i].0] == self.entries()[i].1 by {
                lemma_entry::<K, R::V>(self.entries(), i);
            }
        }
        self.rows.len()
    }

    /// The key of the row at a position of the walk.
    pub fn key_at(&self, i: usize) -> (k: &K)
        requires
            i < self.entries().len(),
        ensures
            k@ == self.entries()[i as int].0,
    {
        &self.rows[i].0
    }

    /// The row at a position of the walk.
    pub fn row_at(&self, i: usize) -> (r: &R)
        requires
            i < self.entries().len(),
        ensures
            r@ == self.entries()[i as int].1,
    {
        &self.rows[i].1
    }

    /// The first position whose key does not precede `k`.
    fn seek(&self, k: &K) -> (p: usize)
        ensures
            p <= self.entries().len(),
            forall|i: int|
                0 <= i < p ==> K::precedes((#[trigger] self.entries()[i]).0, k@),
            forall|i: int|
                p <= i < self.entries().len() ==> !K::precedes(
                    (#[trigger] self.entries()[i]).0,
                    k@,
                ),
    {
        proof {
            use_type_invariant(self);
        }
        let mut lo: usize = 0;
        let mut hi: usize = self.rows.len();
        while lo < hi
            invariant
                lo <= hi <= self.rows@.len(),
                in_order::<K, R::V>(self.entries()),
                forall|i: int|
                    0 <= i < lo ==> K::precedes((#[trigger] self.entries()[i]).0, k@),
                forall|i: int|
                    hi <= i < self.entries().len() ==> !K::precedes(
                        (#[trigger] self.entries()[i]).0,
                        k@,
                    ),
            decreases hi - lo,
        {
            let mid: usize = lo + (hi - lo) / 2;
            let before = match self.rows[mid].0.rank(k) {
                Rank::Before => true,
                _ => false,
            };
            assert(self.entries()[mid as int].0 == self.rows@[mid as int].0@);
            if before {
                proof {
                    assert forall|i: int| 0 <= i < mid + 1 implies K::precedes(
                        (#[trigger] self.entries()[i]).0,
                        k@,
                    ) by {
                        if i < mid {
                            K::lemma_transitive(
                                self.entries()[i].0,
                                self.entries()[mid as int].0,
                                k@,
                            );
                        }
                    }
                }
                lo = mid + 1;
            } else {
                proof {
                    assert forall|i: int| mid <= i < self.entries().len() implies !K::precedes(
                        (#[trigger] self.entries()[i]).0,
                        k@,
                    ) by {
                        if i > mid && K::precedes(self.entries()[i].0, k@) {
                            K::lemma_transitive(
                                self.entries()[mid as int].0,
                                self.entries()[i].0,
                                k@,
                            );
                        }
                    }
                }
                hi = mid;
            }
        }
        lo
    }

    /// Whether `p`, the place `seek` gave for `k`, holds `k`.
    fn hit(&self, p: usize, k: &K) -> (b: bool)
        requires
            p <= self.entries().len(),
            forall|i: int|
                0 <= i < p ==> K::precedes((#[trigger] self.entries()[i]).0, k@),
            forall|i: int|
                p <= i < self.entries().len() ==> !K::precedes(
                    (#[trigger] self.entries()[i]).0,
                    k@,
                ),
        ensures
            b == self@.contains_key(k@),
            b ==> p < self.entries().len() && self.entries()[p as int].0 == k@
                && self.entries()[p as int].1 == self@[k@],
    {
        proof {
            use_type_invariant(self);
            K::lemma_irreflexive(k@);
        }
        if p < self.rows.len() {
            assert(self.entries()[p as int].0 == self.rows@[p as int].0@);
            match self.rows[p].0.rank(k) {
                Rank::Same => {
                    proof {
                        lemma_entry::<K, R::V>(self.entries(), p as int);
                    }
                    true
                },
                _ => {
                    proof {
                        if has_key(self.entries(), k@) {
                            let i = choose|i: int|
                                0 <= i < self.entries().len() && (#[trigger] self.entries()[i]).0
                                    == k@;
                            assert(i > p);
                            assert(K::precedes(self.entries()[p as int].0, self.entries()[i].0));
                        }
                    }
                    false
                },
            }
        } else {
            proof {
                if has_key(self.entries(), k@) {
                    let i = choose|i: int|
                        0 <= i < self.entries().len() && (#[trigger] self.entries()[i]).0 == k@;
                    assert(K::precedes(self.entries()[i].0, k@));
                }
            }
            false
        }
    }

    /// The row under a key.
    pub fn get(&self, k: &K) -> (r: Option<&R>)
        ensures
            r is Some == self@.contains_key(k@),
            r matches Some(v) ==> v@ == self@[k@],
    {
        let p = self.seek(k);
        if self.hit(p, k) {
            Some(&self.rows[p].1)
        } else {
            None
        }
    }

    /// Whether the table has a row under a key.
    pub fn contains(&self, k: &K) -> (b: bool)
        ensures
            b == self@.contains_key(k@),
    {
        let p = self.seek(k);
        self.hit(p, k)
    }

    /// Puts a row under a key, replacing the one that is there.
    pub fn insert(&mut self, k: K, r: R)
        ensures
            final(self)@ == old(self)@.insert(k@, r@),
    {
        proof {
            use_type_invariant(&*self);
            K::lemma_irreflexive(k@);
        }
        let ghost before = self.entries();
        let p = self.seek(&k);
        let found = self.hit(p, &k);
        let mut rows: Vec<(K, R)> = Vec::new();
        std::mem::swap(&mut rows, &mut self.rows);
        let ghost kv = k@;
        let ghost rv = r@;
        if found {
            rows.set(p, (k, r));
            proof {
                lemma_replaced::<K, R::V>(before, p as int, kv, rv);
                assert(viewed(rows@) =~= before.update(p as int, (kv, rv)));
            }
            self.rows = rows;
        } else {
            proof {
                lemma_placed::<K, R::V>(before, p as int, kv, rv);
            }
            rows.insert(p, (k, r));
            assert(viewed(rows@) =~= before.insert(p as int, (kv, rv)));
            self.rows = rows;
        }
    }

    /// Takes the row under a key out of the table.
    pub fn remove(&mut self, k: &K) -> (r: Option<R>)
        ensures
            final(self)@ == old(self)@.remove(k@),
            r is Some == old(self)@.contains_key(k@),
            r matches Some(v) ==> v@ == old(self)@[k@],
    {
        proof {
            use_type_invariant(&*self);
        }
        let p = self.seek(k);
        if !self.hit(p, k) {
            assert(self@.remove(k@) =~= self@);
            return None;
        }
        let ghost before = self.entries();
        let mut rows: Vec<(K, R)> = Vec::new();
        std::mem::swap(&mut rows, &mut self.rows);
        let (_, out) = rows.remove(p);
        proof {
            lemma_taken::<K, R::V>(before, p as int);
            assert(viewed(rows@) =~= before.remove(p as int));
        }
        self.rows = rows;
        Some(out)
    }

    /// Takes out every row the choice picks.
    pub fn drop_where<P: Pick<K, R>>(&mut self, p: &P)
        ensures
            final(self)@ == kept::<K, R, P>(old(self)@, *p),
    {
        proof {
            use_type_invariant(&*self);
        }
        let ghost before = self.entries();
        let mut rows: Vec<(K, R)> = Vec::new();
        std::mem::swap(&mut rows, &mut self.rows);
        let mut i: usize = 0;
        proof {
            assert forall|k: K::V| #[trigger] as_map(before).contains_key(k) implies has_key(
                before,
                k,
            ) by {}
        }
        while i < rows.len()
            invariant
                i <= rows@.len(),
                in_order::<K, R::V>(viewed(rows@)),
                forall|k: K::V| #[trigger]
                    as_map(viewed(rows@)).contains_key(k) ==> as_map(before).contains_key(k)
                        && as_map(viewed(rows@))[k] == as_map(before)[k],
                forall|k: K::V| #[trigger]
                    as_map(before).contains_key(k) && !p.picks(k, as_map(before)[k])
                        ==> as_map(viewed(rows@)).contains_key(k),
                forall|j: int|
                    0 <= j < i ==> !p.picks(
                        (#[trigger] viewed(rows@)[j]).0,
                        viewed(rows@)[j].1,
                    ),
            decreases rows@.len() - i,
        {
            let ghost cur = viewed(rows@);
            proof {
                lemma_entry::<K, R::V>(cur, i as int);
            }
            if p.test(&rows[i].0, &rows[i].1) {
                proof {
                    lemma_taken::<K, R::V>(cur, i as int);
                }
                let _ = rows.remove(i);
                assert(viewed(rows@) =~= cur.remove(i as int));
            } else {
                i = i + 1;
            }
        }
        proof {
            let cur = viewed(rows@);
            assert forall|k: K::V| as_map(cur).contains_key(k) implies !p.picks(
                k,
                as_map(before)[k],
            ) by {
                assert(has_key(cur, k));
                let j = choose|j: int| 0 <= j < cur.len() && (#[trigger] cur[j]).0 == k;
                lemma_entry::<K, R::V>(cur, j);
            }
            assert(as_map(cur) =~= kept::<K, R, P>(as_map(before), *p));
        }
        self.rows = rows;
    }

    /// Whether every row is picked.
    pub fn all<P: Pick<K, R>>(&self, p: &P, f: Ghost<spec_fn((K::V, R::V)) -> bool>) -> (b: bool)
        requires
            forall|k: K::V, r: R::V| #[trigger] p.picks(k, r) == (f@)((k, r)),
        ensures
            b == every::<K::V, R::V>(self@, f@),
    {
        let n = self.len();
        let ghost e = self.entries();
        let mut i: usize = 0;
        while i < n
            invariant
                i <= n,
                n == e.len(),
                e == self.entries(),
                forall|k: K::V, r: R::V| #[trigger] p.picks(k, r) == (f@)((k, r)),
                forall|j: int|
                    0 <= j < n ==> self@.contains_key((#[trigger] e[j]).0) && self@[e[j].0]
                        == e[j].1,
                forall|j: int| 0 <= j < i ==> (f@)(#[trigger] e[j]),
            decreases n - i,
        {
            let right = p.test(self.key_at(i), self.row_at(i));
            assert(right == p.picks(e[i as int].0, e[i as int].1));
            if !right {
                assert(self@.dom().contains(e[i as int].0));
                assert(!(f@)((e[i as int].0, self@[e[i as int].0])));
                return false;
            }
            i = i + 1;
        }
        proof {
            assert forall|k: K::V| #[trigger] self@.dom().contains(k) implies (f@)((k, self@[k])) by {
                assert(self@.contains_key(k));
                assert(has_key(e, k));
                let j = choose|j: int| 0 <= j < e.len() && (#[trigger] e[j]).0 == k;
                assert((f@)(e[j]));
            }
        }
        true
    }

    /// The keys of the rows that a rule takes, in key order and no more than
    /// `limit` of them.
    pub fn select<P: Pick<K, R>>(
        &self,
        p: &P,
        limit: usize,
        f: Ghost<spec_fn((K::V, R::V)) -> bool>,
    ) -> (out: Vec<K>)
        requires
            forall|k: K::V, r: R::V| #[trigger] p.picks(k, r) == (f@)((k, r)),
        ensures
            out@.len() == if chosen::<K, R::V>(self@, f@).len() <= limit {
                chosen::<K, R::V>(self@, f@).len()
            } else {
                limit as nat
            },
            forall|i: int|
                0 <= i < out@.len() ==> {
                    let e = chosen::<K, R::V>(self@, f@)[i];
                    (#[trigger] out@[i])@ == e.0 && self@.contains_key(e.0) && self@[e.0] == e.1
                },
            self@.dom().finite(),
            chosen::<K, R::V>(self@, f@).len() <= usize::MAX,
    {
        let mut out: Vec<K> = Vec::new();
        let n = self.rows.len();
        let mut i: usize = 0;
        let ghost e = self.entries();
        let ghost c = chosen::<K, R::V>(self@, f@);
        proof {
            use_type_invariant(self);
            lemma_is_walk::<K, R::V>(e);
            lemma_chosen_of::<K, R::V>(e, f@);
            lemma_keys_finite(e);
            assert(n == e.len());
            let at = lemma_filter_origin(e, f@);
            lemma_rising(at, e.len() as int);
            assert(e.take(0) =~= Seq::empty());
            reveal(Seq::filter);
            assert(e.take(0).filter(f@) =~= Seq::empty());
        }
        while i < self.rows.len() && out.len() < limit
            invariant
                e == self.entries(),
                i <= e.len(),
                out@.len() <= limit,
                c == e.filter(f@),
                forall|k: K::V, r: R::V| #[trigger] p.picks(k, r) == (f@)((k, r)),
                out@.len() == e.take(i as int).filter(f@).len(),
                forall|j: int|
                    0 <= j < out@.len() ==> (#[trigger] out@[j])@ == e.take(i as int).filter(
                        f@,
                    )[j].0,
            decreases e.len() - i,
        {
            proof {
                lemma_filter_step(e, f@, i as int);
            }
            if p.test(&self.rows[i].0, &self.rows[i].1) {
                out.push(self.rows[i].0.twin());
            }
            i = i + 1;
        }
        proof {
            lemma_filter_prefix(e, f@, i as int);
            assert(e.take(e.len() as int) =~= e);
        }
        out
    }

    /// The keys of the rows that have an instant, by that instant and no more
    /// than `limit` of them.
    pub fn list<S: Stamp<K, R>>(
        &self,
        s: &S,
        limit: usize,
        f: Ghost<spec_fn((K::V, R::V)) -> Option<i64>>,
    ) -> (out: Vec<K>)
        requires
            forall|k: K::V, r: R::V| #[trigger] s.stamp(k, r) == (f@)((k, r)),
        ensures
            listed::<K, R::V>(self@, f@).len() <= usize::MAX,
            out@.len() == page(listed::<K, R::V>(self@, f@).len(), limit),
            forall|i: int|
                0 <= i < out@.len() ==> {
                    let e = listed::<K, R::V>(self@, f@)[i].0;
                    (#[trigger] out@[i])@ == e.1 && self@.contains_key(e.1) && (f@)(
                        (e.1, self@[e.1]),
                    ) == Some(e.0)
                },
    {
        let mut index: Table<(i64, K), ()> = Table::new();
        let ghost e = self.entries();
        proof {
            use_type_invariant(self);
        }
        let mut i: usize = 0;
        while i < self.rows.len()
            invariant
                e == self.entries(),
                in_order::<K, R::V>(e),
                i <= e.len(),
                forall|k: K::V, r: R::V| #[trigger] s.stamp(k, r) == (f@)((k, r)),
                forall|x: (i64, K::V)| #[trigger]
                    index@.contains_key(x) <==> exists|j: int|
                        0 <= j < i && (#[trigger] e[j]).0 == x.1 && (f@)(e[j]) == Some(x.0),
            decreases e.len() - i,
        {
            let ghost before = index@;
            assert(e[i as int] == (self.rows@[i as int].0@, self.rows@[i as int].1@));
            let at = s.instant(&self.rows[i].0, &self.rows[i].1);
            assert(at == s.stamp(e[i as int].0, e[i as int].1));
            if let Some(at) = at {
                index.insert((at, self.rows[i].0.twin()), ());
            }
            proof {
                assert forall|x: (i64, K::V)| #[trigger] index@.contains_key(x) <==> exists|j: int|
                    0 <= j < i + 1 && (#[trigger] e[j]).0 == x.1 && (f@)(e[j]) == Some(x.0) by {
                    if before.contains_key(x) {
                        let j = choose|j: int|
                            0 <= j < i && (#[trigger] e[j]).0 == x.1 && (f@)(e[j]) == Some(x.0);
                        assert(0 <= j < i + 1 && e[j].0 == x.1);
                    }
                    if at matches Some(a) && x == (a, e[i as int].0) {
                        assert(0 <= i < i + 1 && e[i as int].0 == x.1);
                    }
                    if exists|j: int|
                        0 <= j < i + 1 && (#[trigger] e[j]).0 == x.1 && (f@)(e[j]) == Some(x.0) {
                        let j = choose|j: int|
                            0 <= j < i + 1 && (#[trigger] e[j]).0 == x.1 && (f@)(e[j]) == Some(
                                x.0,
                            );
                        if j < i {
                            assert(before.contains_key(x));
                        }
                    }
                }
            }
            i = i + 1;
        }
        proof {
            let want = stamped::<K, R::V>(self@, f@);
            assert forall|x: (i64, K::V)| #[trigger] index@.contains_key(x) == want.contains_key(
                x,
            ) by {
                if index@.contains_key(x) {
                    let j = choose|j: int|
                        0 <= j < i && (#[trigger] e[j]).0 == x.1 && (f@)(e[j]) == Some(x.0);
                    lemma_entry::<K, R::V>(e, j);
                }
                if want.contains_key(x) {
                    assert(has_key(e, x.1));
                    let j = choose|j: int| 0 <= j < e.len() && (#[trigger] e[j]).0 == x.1;
                    lemma_entry::<K, R::V>(e, j);
                    assert(e[j] == (x.1, self@[x.1]));
                }
            }
            assert(index@ =~= want);
        }
        let n = index.len();
        let ghost w = index.entries();
        proof {
            lemma_is_walk::<(i64, K), ()>(w);
        }
        let mut out: Vec<K> = Vec::new();
        while out.len() < n && out.len() < limit
            invariant
                n == w.len(),
                w == index.entries(),
                w == listed::<K, R::V>(self@, f@),
                index@ == stamped::<K, R::V>(self@, f@),
                out@.len() <= n,
                out@.len() <= limit,
                forall|j: int| 0 <= j < n ==> index@.contains_key((#[trigger] w[j]).0),
                forall|j: int| 0 <= j < out@.len() ==> (#[trigger] out@[j])@ == w[j].0.1,
            decreases n - out@.len(),
        {
            let i = out.len();
            let k = index.key_at(i);
            assert(k@ == w[i as int].0);
            out.push(k.1.twin());
        }
        proof {
            assert forall|j: int| 0 <= j < out@.len() implies {
                let x = listed::<K, R::V>(self@, f@)[j].0;
                (#[trigger] out@[j])@ == x.1 && self@.contains_key(x.1) && (f@)((x.1, self@[x.1]))
                    == Some(x.0)
            } by {
                assert(index@.contains_key(w[j].0));
            }
        }
        out
    }

    /// How many rows a rule takes.
    pub fn tally<P: Pick<K, R>>(&self, p: &P, f: Ghost<spec_fn((K::V, R::V)) -> bool>) -> (n: usize)
        requires
            forall|k: K::V, r: R::V| #[trigger] p.picks(k, r) == (f@)((k, r)),
        ensures
            n == chosen::<K, R::V>(self@, f@).len(),
            self@.dom().finite(),
    {
        proof {
            use_type_invariant(self);
            lemma_is_walk::<K, R::V>(self.entries());
            lemma_keys_finite(self.entries());
            let g = |x: (K::V, R::V)| p.picks(x.0, x.1);
            assert(g =~= f@);
        }
        self.count_where(p)
    }

    /// How many rows the choice picks.
    fn count_where<P: Pick<K, R>>(&self, p: &P) -> (n: usize)
        ensures
            n == picked::<K, R, P>(self.entries(), *p).len(),
    {
        let mut n: usize = 0;
        let mut i: usize = 0;
        let ghost e = self.entries();
        proof {
            assert(e.take(0) =~= Seq::empty());
        }
        while i < self.rows.len()
            invariant
                e == self.entries(),
                i <= e.len(),
                n == picked::<K, R, P>(e.take(i as int), *p).len(),
                n <= i,
            decreases e.len() - i,
        {
            proof {
                lemma_picked_step::<K, R, P>(e, *p, i as int);
            }
            if p.test(&self.rows[i].0, &self.rows[i].1) {
                n = n + 1;
            }
            i = i + 1;
        }
        assert(e.take(i as int) =~= e);
        n
    }

}

} // verus!
