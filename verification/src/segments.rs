//! Sets of key ranges that do not overlap.
use crate::keys::{
    key_le, key_less, key_lt, lemma_key_lt_asymmetric, lemma_key_lt_total, lemma_key_lt_transitive,
};
use vstd::prelude::*;

verus! {

/// A range of keys: from the first key, inclusive, to the second, exclusive.
pub type KeyRange = (Seq<u8>, Seq<u8>);

/// Whether the key lies in the range.
pub open spec fn in_range(key: Seq<u8>, range: KeyRange) -> bool {
    key_le(range.0, key) && key_lt(key, range.1)
}

/// Whether each of the ranges starts before the other ends.
pub open spec fn ranges_overlap(a: KeyRange, b: KeyRange) -> bool {
    key_lt(a.0, b.1) && key_lt(b.0, a.1)
}

/// Whether one of the ranges overlaps with `range`.
pub open spec fn any_overlaps(ranges: Set<KeyRange>, range: KeyRange) -> bool {
    exists|r: KeyRange| #[trigger] ranges.contains(r) && ranges_overlap(r, range)
}

/// Whether a range and what lies from `start`, inclusive, to `end`, exclusive,
/// each start before the other ends. Where neither is empty, they then share a
/// key. An empty `end` means infinity.
pub open spec fn overlaps_from(r: KeyRange, start: Seq<u8>, end: Seq<u8>) -> bool {
    key_lt(start, r.1) && (end.len() == 0 || key_lt(r.0, end))
}

/// Whether no two of the ranges overlap.
pub open spec fn disjoint(ranges: Set<KeyRange>) -> bool {
    forall|a: KeyRange, b: KeyRange| #[trigger]
        ranges.contains(a) && #[trigger] ranges.contains(b) && a != b ==> !ranges_overlap(a, b)
}

/// A set of key ranges, no two of which overlap.
pub struct SegmentSet {
    segments: Vec<(Vec<u8>, Vec<u8>)>,
}

impl View for SegmentSet {
    type V = Set<KeyRange>;

    /// The ranges of the set.
    closed spec fn view(&self) -> Set<KeyRange> {
        Set::new(
            |r: KeyRange|
                exists|i: int|
                    0 <= i < self.segments@.len() && (
                    #[trigger] self.segments@[i].0@, self.segments@[i].1@) == r,
        )
    }
}

impl Default for SegmentSet {
    /// The empty set.
    fn default() -> (set: SegmentSet)
        ensures
            set@ == Set::<KeyRange>::empty(),
            disjoint(set@),
    {
        let set = SegmentSet { segments: Vec::new() };
        assert(set@ =~= Set::<KeyRange>::empty());
        set
    }
}

impl SegmentSet {
    /// Whether a range overlaps with one of the set.
    pub fn is_overlapping(&self, range: (&[u8], &[u8])) -> (overlapping: bool)
        ensures
            overlapping == any_overlaps(self@, (range.0@, range.1@)),
    {
        let mut i: usize = 0;
        while i < self.segments.len()
            invariant
                i <= self.segments@.len(),
                forall|j: int|
                    0 <= j < i ==> !ranges_overlap(
                        (#[trigger] self.segments@[j].0@, self.segments@[j].1@),
                        (range.0@, range.1@),
                    ),
            decreases self.segments@.len() - i,
        {
            let segment = &self.segments[i];
            if key_less(segment.0.as_slice(), range.1) && key_less(range.0, segment.1.as_slice()) {
                assert(self@.contains((self.segments@[i as int].0@, self.segments@[i as int].1@)));
                return true;
            }
            i += 1;
        }
        false
    }

    /// Whether what lies from `start` to `end` overlaps with a range of the
    /// set. An empty `end` means infinity.
    pub fn is_overlapping_from(&self, start: &[u8], end: &[u8]) -> (overlapping: bool)
        ensures
            overlapping == exists|r: KeyRange| #[trigger]
                self@.contains(r) && overlaps_from(r, start@, end@),
    {
        let mut i: usize = 0;
        while i < self.segments.len()
            invariant
                i <= self.segments@.len(),
                forall|j: int|
                    0 <= j < i ==> !overlaps_from(
                        (#[trigger] self.segments@[j].0@, self.segments@[j].1@),
                        start@,
                        end@,
                    ),
            decreases self.segments@.len() - i,
        {
            let segment = &self.segments[i];
            if key_less(start, segment.1.as_slice()) && (end.len() == 0 || key_less(
                segment.0.as_slice(),
                end,
            )) {
                assert(self@.contains((self.segments@[i as int].0@, self.segments@[i as int].1@)));
                return true;
            }
            i += 1;
        }
        false
    }

    /// Puts a range into the set, unless it overlaps with one that is there.
    /// Says whether it did.
    pub fn add(&mut self, range: (Vec<u8>, Vec<u8>)) -> (added: bool)
        ensures
            added == !any_overlaps(old(self)@, (range.0@, range.1@)),
            final(self)@ == if added {
                old(self)@.insert((range.0@, range.1@))
            } else {
                old(self)@
            },
            disjoint(old(self)@) ==> disjoint(final(self)@),
    {
        if self.is_overlapping((range.0.as_slice(), range.1.as_slice())) {
            return false;
        }
        let ghost before = self.segments@;
        let ghost new = (range.0@, range.1@);
        self.segments.push(range);
        assert(self@ =~= old(self)@.insert(new)) by {
            assert forall|r: KeyRange| self@.contains(r) == old(self)@.insert(new).contains(r) by {
                if old(self)@.contains(r) {
                    let i = choose|i: int|
                        0 <= i < before.len() && (#[trigger] before[i].0@, before[i].1@) == r;
                    assert((self.segments@[i].0@, self.segments@[i].1@) == r);
                }
                assert((self.segments@[before.len() as int].0@, self.segments@[before.len()
                    as int].1@) == new);
                if self@.contains(r) {
                    let i = choose|i: int|
                        0 <= i < self.segments@.len() && (
                        #[trigger] self.segments@[i].0@, self.segments@[i].1@) == r;
                    if i < before.len() {
                        assert((before[i].0@, before[i].1@) == r);
                    }
                }
            }
        }
        true
    }
}

/// Two ranges that are not empty overlap exactly where some key lies in both.
pub proof fn law_overlap_is_shared_key(a: KeyRange, b: KeyRange)
    requires
        key_lt(a.0, a.1),
        key_lt(b.0, b.1),
    ensures
        ranges_overlap(a, b) <==> exists|k: Seq<u8>| #[trigger] in_range(k, a) && in_range(k, b),
{
    if ranges_overlap(a, b) {
        lemma_key_lt_total(a.0, b.0);
        if key_lt(a.0, b.0) {
            assert(in_range(b.0, a) && in_range(b.0, b));
        } else {
            assert(in_range(a.0, a) && in_range(a.0, b));
        }
    }
    if exists|k: Seq<u8>| #[trigger] in_range(k, a) && in_range(k, b) {
        let k = choose|k: Seq<u8>| #[trigger] in_range(k, a) && in_range(k, b);
        if a.0 != k {
            lemma_key_lt_transitive(a.0, k, b.1);
        }
        if b.0 != k {
            lemma_key_lt_transitive(b.0, k, a.1);
        }
    }
}

/// What has an end overlaps with a range as a range does. What has none
/// overlaps with every range that ends after its start, however far that range
/// lies.
pub proof fn law_empty_end_is_infinity(r: KeyRange, start: Seq<u8>, end: Seq<u8>)
    ensures
        end.len() > 0 ==> overlaps_from(r, start, end) == ranges_overlap(r, (start, end)),
        end.len() == 0 ==> overlaps_from(r, start, end) == key_lt(start, r.1),
{
}

/// A range overlaps with none of a set exactly where it lies before or after
/// each of them. The end of a range does not belong to it, so a range may
/// start where another ends.
pub proof fn law_no_overlap_is_apart(ranges: Set<KeyRange>, range: KeyRange)
    ensures
        !any_overlaps(ranges, range) <==> forall|r: KeyRange| #[trigger]
            ranges.contains(r) ==> key_le(r.1, range.0) || key_le(range.1, r.0),
{
    assert forall|r: KeyRange| ranges_overlap(r, range) <==> !(key_le(r.1, range.0) || key_le(
        range.1,
        r.0,
    )) by {
        lemma_key_lt_total(r.1, range.0);
        lemma_key_lt_total(range.1, r.0);
        if key_lt(range.0, r.1) {
            lemma_key_lt_asymmetric(range.0, r.1);
        }
        if key_lt(r.0, range.1) {
            lemma_key_lt_asymmetric(r.0, range.1);
        }
    }
}

/// A key lies in a range unless it stands before its start, or does not stand
/// before its end. Two ranges overlap unless one of them ends where the other
/// starts or before. What has no end lies before nothing.
pub proof fn law_overlap_is_not_apart(a: KeyRange, b: KeyRange, key: Seq<u8>)
    ensures
        in_range(key, a) <==> !key_lt(key, a.0) && key_lt(key, a.1),
        ranges_overlap(a, b) <==> !key_le(a.1, b.0) && !key_le(b.1, a.0),
        ranges_overlap(a, b) == ranges_overlap(b, a),
        overlaps_from(a, b.0, b.1) <==> !key_le(a.1, b.0) && (b.1.len() == 0 || !key_le(
            b.1,
            a.0,
        )),
{
    lemma_key_lt_total(key, a.0);
    lemma_key_lt_total(a.1, b.0);
    lemma_key_lt_total(b.1, a.0);
    if key_lt(key, a.0) {
        lemma_key_lt_asymmetric(key, a.0);
    }
    if key_lt(a.0, key) {
        lemma_key_lt_asymmetric(a.0, key);
    }
    if key_lt(b.0, a.1) {
        lemma_key_lt_asymmetric(b.0, a.1);
    }
    if key_lt(a.0, b.1) {
        lemma_key_lt_asymmetric(a.0, b.1);
    }
}

/// Ranges are disjoint exactly where of any two of them one ends where the
/// other starts or before.
pub proof fn law_disjoint_is_apart(ranges: Set<KeyRange>)
    ensures
        disjoint(ranges) <==> forall|a: KeyRange, b: KeyRange| #[trigger]
            ranges.contains(a) && #[trigger] ranges.contains(b) && a != b ==> key_le(a.1, b.0)
                || key_le(b.1, a.0),
{
    assert forall|a: KeyRange, b: KeyRange| #[trigger] ranges.contains(a) && #[trigger]
        ranges.contains(b) implies (ranges_overlap(a, b) <==> !key_le(a.1, b.0) && !key_le(
        b.1,
        a.0,
    )) by {
        law_overlap_is_not_apart(a, b, a.0);
    }
}

/// A range overlaps with one of two sets together exactly where it overlaps
/// with one of either, and with no range of an empty set.
pub proof fn law_overlap_of_union(a: Set<KeyRange>, b: Set<KeyRange>, range: KeyRange)
    ensures
        any_overlaps(a.union(b), range) <==> any_overlaps(a, range) || any_overlaps(b, range),
        !any_overlaps(Set::empty(), range),
        any_overlaps(set![range], range) <==> key_lt(range.0, range.1),
{
    if any_overlaps(a, range) {
        let r = choose|r: KeyRange| #[trigger] a.contains(r) && ranges_overlap(r, range);
        assert(a.union(b).contains(r));
    }
    if any_overlaps(b, range) {
        let r = choose|r: KeyRange| #[trigger] b.contains(r) && ranges_overlap(r, range);
        assert(a.union(b).contains(r));
    }
    if any_overlaps(a.union(b), range) {
        let r = choose|r: KeyRange| #[trigger] a.union(b).contains(r) && ranges_overlap(r, range);
        assert(a.contains(r) || b.contains(r));
    }
    assert(set![range].contains(range));
}

} // verus!
