//! Keys are byte strings in lexicographic order. This module states that
//! order, and keeps sets of keys sorted by it.
use vstd::prelude::*;

verus! {

/// The keys agree on their first `n` bytes, and there `a` ends or has the
/// smaller byte.
pub open spec fn below_at(a: Seq<u8>, b: Seq<u8>, n: int) -> bool {
    &&& 0 <= n <= a.len()
    &&& n < b.len()
    &&& forall|j: int| 0 <= j < n ==> a[j] == b[j]
    &&& n < a.len() ==> a[n] < b[n]
}

/// `a` stands before `b` in the order of keys.
pub open spec fn key_lt(a: Seq<u8>, b: Seq<u8>) -> bool {
    exists|n: int| below_at(a, b, n)
}

/// `a` stands before `b` or is the same key.
pub open spec fn key_le(a: Seq<u8>, b: Seq<u8>) -> bool {
    key_lt(a, b) || a == b
}

/// No key stands before itself.
pub proof fn lemma_key_lt_irreflexive(a: Seq<u8>)
    ensures
        !key_lt(a, a),
{
}

/// The order of keys is transitive.
pub proof fn lemma_key_lt_transitive(a: Seq<u8>, b: Seq<u8>, c: Seq<u8>)
    requires
        key_lt(a, b),
        key_lt(b, c),
    ensures
        key_lt(a, c),
{
    let m = choose|n: int| below_at(a, b, n);
    let n = choose|n: int| below_at(b, c, n);
    let least = if m < n {
        m
    } else {
        n
    };
    assert(below_at(a, c, least));
}

proof fn lemma_key_total_after(a: Seq<u8>, b: Seq<u8>, n: int)
    requires
        0 <= n <= a.len(),
        n <= b.len(),
        forall|j: int| 0 <= j < n ==> a[j] == b[j],
    ensures
        key_lt(a, b) || key_lt(b, a) || a == b,
    decreases a.len() - n,
{
    if n == a.len() && n == b.len() {
        assert(a =~= b);
    } else if n == a.len() {
        assert(below_at(a, b, n));
    } else if n == b.len() {
        assert(below_at(b, a, n));
    } else if a[n] < b[n] {
        assert(below_at(a, b, n));
    } else if b[n] < a[n] {
        assert(below_at(b, a, n));
    } else {
        lemma_key_total_after(a, b, n + 1);
    }
}

/// Of two different keys, one stands before the other.
pub proof fn lemma_key_lt_total(a: Seq<u8>, b: Seq<u8>)
    ensures
        key_lt(a, b) || key_lt(b, a) || a == b,
{
    lemma_key_total_after(a, b, 0);
}

/// Of two keys, at most one stands before the other.
pub proof fn lemma_key_lt_asymmetric(a: Seq<u8>, b: Seq<u8>)
    requires
        key_lt(a, b),
    ensures
        !key_lt(b, a),
        a != b,
{
    if key_lt(b, a) {
        lemma_key_lt_transitive(a, b, a);
    }
    lemma_key_lt_irreflexive(a);
}

/// The order of keys is that of a dictionary. The empty key stands before all
/// others. Of two keys that are not empty, the one with the smaller first byte
/// stands first, and where these bytes are the same, what follows them decides.
pub proof fn law_key_order_is_lexicographic(x: u8, a: Seq<u8>, y: u8, b: Seq<u8>)
    ensures
        !key_lt(a, Seq::empty()),
        key_lt(Seq::empty(), seq![x] + a),
        key_lt(seq![x] + a, seq![y] + b) <==> x < y || (x == y && key_lt(a, b)),
        key_le(a, b) <==> !key_lt(b, a),
{
    let xa = seq![x] + a;
    let yb = seq![y] + b;
    assert(below_at(Seq::empty(), xa, 0));
    if key_lt(xa, yb) {
        let n = choose|n: int| below_at(xa, yb, n);
        if n > 0 {
            assert(xa[0] == yb[0]);
            assert forall|j: int| 0 <= j < n - 1 implies a[j] == b[j] by {
                assert(xa[j + 1] == yb[j + 1]);
            }
            assert(below_at(a, b, n - 1));
        }
    }
    if x < y {
        assert(below_at(xa, yb, 0));
    }
    if x == y && key_lt(a, b) {
        let n = choose|n: int| below_at(a, b, n);
        assert(below_at(xa, yb, n + 1));
    }
    lemma_key_lt_total(a, b);
    if key_le(a, b) && key_lt(b, a) {
        lemma_key_lt_asymmetric(b, a);
    }
}

/// Whether `a` stands before `b`.
pub fn key_less(a: &[u8], b: &[u8]) -> (less: bool)
    ensures
        less == key_lt(a@, b@),
{
    let mut n: usize = 0;
    while n < a.len() && n < b.len() && a[n] == b[n]
        invariant
            n <= a@.len(),
            n <= b@.len(),
            forall|j: int| 0 <= j < n ==> a@[j] == b@[j],
        decreases a@.len() - n,
    {
        n += 1;
    }
    let less = n < b.len() && (n == a.len() || a[n] < b[n]);
    proof {
        if less {
            assert(below_at(a@, b@, n as int));
        } else if n == a@.len() && n == b@.len() {
            assert(a@ =~= b@);
            lemma_key_lt_irreflexive(a@);
        } else {
            assert(below_at(b@, a@, n as int));
            lemma_key_lt_asymmetric(b@, a@);
        }
    }
    less
}

/// A set of keys, kept in order.
pub struct KeySet {
    keys: Vec<Vec<u8>>,
}

impl View for KeySet {
    type V = Set<Seq<u8>>;

    /// The keys of the set.
    closed spec fn view(&self) -> Set<Seq<u8>> {
        Set::new(|k: Seq<u8>| exists|i: int| 0 <= i < self.keys@.len() && self.keys@[i]@ == k)
    }
}

impl KeySet {
    /// The keys stand in ascending order, so none occurs twice.
    pub closed spec fn wf(&self) -> bool {
        forall|i: int, j: int|
            0 <= i < j < self.keys@.len() ==> key_lt(#[trigger] self.keys@[i]@, #[trigger] self.keys@[j]@)
    }

    /// The empty set.
    pub fn new() -> (set: KeySet)
        ensures
            set.wf(),
            set@ == Set::<Seq<u8>>::empty(),
    {
        let set = KeySet { keys: Vec::new() };
        assert(set@ =~= Set::<Seq<u8>>::empty());
        set
    }

    /// How many keys stand before `key`.
    fn position(&self, key: &[u8]) -> (at: usize)
        requires
            self.wf(),
        ensures
            at <= self.keys@.len(),
            forall|i: int| 0 <= i < at ==> key_lt(#[trigger] self.keys@[i]@, key@),
            forall|i: int|
                at <= i < self.keys@.len() ==> !key_lt(#[trigger] self.keys@[i]@, key@),
    {
        let mut low: usize = 0;
        let mut high: usize = self.keys.len();
        while low < high
            invariant
                self.wf(),
                low <= high <= self.keys@.len(),
                forall|i: int| 0 <= i < low ==> key_lt(#[trigger] self.keys@[i]@, key@),
                forall|i: int|
                    high <= i < self.keys@.len() ==> !key_lt(#[trigger] self.keys@[i]@, key@),
            decreases high - low,
        {
            let mid: usize = low + (high - low) / 2;
            if key_less(self.keys[mid].as_slice(), key) {
                proof {
                    assert forall|i: int| 0 <= i < mid + 1 implies key_lt(
                        #[trigger] self.keys@[i]@,
                        key@,
                    ) by {
                        if i < mid {
                            lemma_key_lt_transitive(self.keys@[i]@, self.keys@[mid as int]@, key@);
                        }
                    }
                }
                low = mid + 1;
            } else {
                proof {
                    assert forall|i: int| mid <= i < self.keys@.len() implies !key_lt(
                        #[trigger] self.keys@[i]@,
                        key@,
                    ) by {
                        if i > mid && key_lt(self.keys@[i]@, key@) {
                            lemma_key_lt_transitive(self.keys@[mid as int]@, self.keys@[i]@, key@);
                        }
                    }
                }
                high = mid;
            }
        }
        low
    }

    /// Whether the key at `at`, the position of `key`, is `key` itself.
    fn found(&self, at: usize, key: &[u8]) -> (found: bool)
        requires
            self.wf(),
            at <= self.keys@.len(),
            forall|i: int| 0 <= i < at ==> key_lt(#[trigger] self.keys@[i]@, key@),
            forall|i: int|
                at <= i < self.keys@.len() ==> !key_lt(#[trigger] self.keys@[i]@, key@),
        ensures
            found == self@.contains(key@),
            found ==> at < self.keys@.len() && self.keys@[at as int]@ == key@,
            !found && at < self.keys@.len() ==> key_lt(key@, self.keys@[at as int]@),
    {
        let found = at < self.keys.len() && !key_less(key, self.keys[at].as_slice());
        proof {
            if found {
                lemma_key_lt_total(self.keys@[at as int]@, key@);
            } else {
                assert forall|i: int| 0 <= i < self.keys@.len() implies #[trigger] self.keys@[i]@
                    != key@ by {
                    lemma_key_lt_irreflexive(key@);
                    if i > at {
                        lemma_key_lt_transitive(key@, self.keys@[at as int]@, self.keys@[i]@);
                    }
                }
            }
        }
        found
    }

    /// Takes `key` out of the set; says whether it was there.
    pub fn remove(&mut self, key: &[u8]) -> (removed: bool)
        requires
            old(self).wf(),
        ensures
            final(self).wf(),
            removed == old(self)@.contains(key@),
            final(self)@ == old(self)@.remove(key@),
    {
        let at: usize = self.position(key);
        let removed = self.found(at, key);
        if removed {
            let ghost before = self.keys@;
            self.keys.remove(at);
            assert(self@ =~= old(self)@.remove(key@)) by {
                assert forall|k: Seq<u8>| self@.contains(k) == old(self)@.remove(key@).contains(
                    k,
                ) by {
                    if self@.contains(k) {
                        let i = choose|i: int|
                            0 <= i < self.keys@.len() && #[trigger] self.keys@[i]@ == k;
                        let j = if i < at {
                            i
                        } else {
                            i + 1
                        };
                        assert(before[j]@ == k);
                        if i < at {
                            lemma_key_lt_asymmetric(before[j]@, before[at as int]@);
                        } else {
                            lemma_key_lt_asymmetric(before[at as int]@, before[j]@);
                        }
                    }
                    if old(self)@.remove(key@).contains(k) {
                        let j = choose|j: int| 0 <= j < before.len() && #[trigger] before[j]@ == k;
                        let i = if j < at {
                            j
                        } else {
                            j - 1
                        };
                        assert(self.keys@[i]@ == k);
                    }
                }
            }
        } else {
            assert(self@ =~= old(self)@.remove(key@));
        }
        removed
    }

    /// Puts `key` into the set.
    pub fn insert(&mut self, key: Vec<u8>)
        requires
            old(self).wf(),
        ensures
            final(self).wf(),
            final(self)@ == old(self)@.insert(key@),
    {
        let at: usize = self.position(key.as_slice());
        let present = self.found(at, key.as_slice());
        if !present {
            let ghost before = self.keys@;
            proof {
                assert forall|i: int| at <= i < before.len() implies key_lt(
                    key@,
                    #[trigger] before[i]@,
                ) by {
                    if i > at {
                        lemma_key_lt_transitive(key@, before[at as int]@, before[i]@);
                    }
                }
            }
            self.keys.insert(at, key);
            assert(self@ =~= old(self)@.insert(key@)) by {
                assert forall|k: Seq<u8>| self@.contains(k) == old(self)@.insert(key@).contains(
                    k,
                ) by {
                    if self@.contains(k) {
                        let i = choose|i: int|
                            0 <= i < self.keys@.len() && #[trigger] self.keys@[i]@ == k;
                        if i < at {
                            assert(before[i]@ == k);
                        } else if i > at {
                            assert(before[i - 1]@ == k);
                        }
                    }
                    if old(self)@.contains(k) {
                        let j = choose|j: int| 0 <= j < before.len() && #[trigger] before[j]@ == k;
                        let i = if j < at {
                            j
                        } else {
                            j + 1
                        };
                        assert(self.keys@[i]@ == k);
                    }
                    assert(self.keys@[at as int]@ == key@);
                }
            }
        } else {
            assert(self@ =~= old(self)@.insert(key@));
        }
    }

    /// Whether the set holds no key.
    pub fn is_empty(&self) -> (empty: bool)
        ensures
            empty == (self@ == Set::<Seq<u8>>::empty()),
    {
        let empty = self.keys.len() == 0;
        proof {
            if empty {
                assert(self@ =~= Set::<Seq<u8>>::empty());
            } else {
                assert(self@.contains(self.keys@[0]@));
            }
        }
        empty
    }

    /// Takes every key out of the set.
    pub fn clear(&mut self)
        ensures
            final(self).wf(),
            final(self)@ == Set::<Seq<u8>>::empty(),
    {
        self.keys.clear();
        assert(self@ =~= Set::<Seq<u8>>::empty());
    }
}

} // verus!
