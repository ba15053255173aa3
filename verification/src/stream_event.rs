//! The framing of backup events: a key and a value, each preceded by its
//! length as four little-endian bytes, written one event after another.
use vstd::prelude::*;
use vstd::slice::{slice_subrange, slice_to_vec};

verus! {

/// The number that four little-endian bytes stand for.
pub open spec fn le_value(b: Seq<u8>) -> int {
    b[0] + 0x100 * b[1] + 0x1_0000 * b[2] + 0x100_0000 * b[3]
}

/// The four low bytes of `n`, least significant first.
pub open spec fn le_bytes(n: int) -> Seq<u8> {
    seq![
        (n % 0x100) as u8,
        (n / 0x100 % 0x100) as u8,
        (n / 0x1_0000 % 0x100) as u8,
        (n / 0x100_0000 % 0x100) as u8,
    ]
}

/// A byte string preceded by its length.
pub open spec fn field_bytes(s: Seq<u8>) -> Seq<u8> {
    le_bytes(s.len() as int) + s
}

/// One event as it stands in the stream.
pub open spec fn event_bytes(key: Seq<u8>, value: Seq<u8>) -> Seq<u8> {
    field_bytes(key) + field_bytes(value)
}

/// A list of events, one after another.
pub open spec fn stream_bytes(events: Seq<(Seq<u8>, Seq<u8>)>) -> Seq<u8>
    decreases events.len(),
{
    if events.len() == 0 {
        Seq::empty()
    } else {
        event_bytes(events[0].0, events[0].1) + stream_bytes(events.drop_first())
    }
}

/// Whether `b` starts with a complete length-prefixed byte string.
pub open spec fn has_field(b: Seq<u8>) -> bool {
    4 <= b.len() && 4 + le_value(b) <= b.len()
}

/// The byte string that `b` starts with.
pub open spec fn first_field(b: Seq<u8>) -> Seq<u8> {
    b.subrange(4, 4 + le_value(b))
}

/// What follows the byte string that `b` starts with.
pub open spec fn after_field(b: Seq<u8>) -> Seq<u8> {
    b.subrange(4 + le_value(b), b.len() as int)
}

/// Whether `b` starts with a complete event.
pub open spec fn has_event(b: Seq<u8>) -> bool {
    has_field(b) && has_field(after_field(b))
}

/// The key of the event that `b` starts with.
pub open spec fn event_key(b: Seq<u8>) -> Seq<u8> {
    first_field(b)
}

/// The value of the event that `b` starts with.
pub open spec fn event_value(b: Seq<u8>) -> Seq<u8> {
    first_field(after_field(b))
}

/// What follows the event that `b` starts with.
pub open spec fn after_event(b: Seq<u8>) -> Seq<u8> {
    after_field(after_field(b))
}

/// The events that a stream holds, or `None` where it is not a sequence of
/// complete events.
pub open spec fn stream_events(b: Seq<u8>) -> Option<Seq<(Seq<u8>, Seq<u8>)>>
    decreases b.len(),
{
    if b.len() == 0 {
        Some(Seq::empty())
    } else if has_event(b) {
        match stream_events(after_event(b)) {
            Some(rest) => Some(seq![(event_key(b), event_value(b))] + rest),
            None => None,
        }
    } else {
        None
    }
}

/// Whether the lengths of an event fit their four bytes.
pub open spec fn fits(event: (Seq<u8>, Seq<u8>)) -> bool {
    event.0.len() <= u32::MAX && event.1.len() <= u32::MAX
}

proof fn lemma_le_value_of_bytes(n: int)
    requires
        0 <= n <= u32::MAX,
    ensures
        le_value(le_bytes(n)) == n,
{
}

proof fn lemma_le_bytes_of_value(b: Seq<u8>)
    requires
        4 <= b.len(),
    ensures
        le_bytes(le_value(b)) == b.subrange(0, 4),
{
    let n = le_value(b);
    assert(n % 0x100 == b[0]);
    assert(n / 0x100 % 0x100 == b[1]);
    assert(n / 0x1_0000 % 0x100 == b[2]);
    assert(n / 0x100_0000 % 0x100 == b[3]);
    assert(le_bytes(n) =~= b.subrange(0, 4));
}

proof fn lemma_field_read_back(s: Seq<u8>, rest: Seq<u8>)
    requires
        s.len() <= u32::MAX,
    ensures
        has_field(field_bytes(s) + rest),
        first_field(field_bytes(s) + rest) == s,
        after_field(field_bytes(s) + rest) == rest,
{
    let b = field_bytes(s) + rest;
    lemma_le_value_of_bytes(s.len() as int);
    assert(b.subrange(0, 4) =~= le_bytes(s.len() as int));
    assert(le_value(b) == le_value(b.subrange(0, 4)));
    assert(first_field(b) =~= s);
    assert(after_field(b) =~= rest);
}

proof fn lemma_field_is_rewritten(b: Seq<u8>)
    requires
        has_field(b),
    ensures
        b == field_bytes(first_field(b)) + after_field(b),
{
    lemma_le_bytes_of_value(b);
    assert(b =~= field_bytes(first_field(b)) + after_field(b));
}

/// An event is read back as it was written, whatever follows it in the stream.
pub proof fn law_event_round_trip(key: Seq<u8>, value: Seq<u8>, rest: Seq<u8>)
    requires
        fits((key, value)),
    ensures
        has_event(event_bytes(key, value) + rest),
        event_key(event_bytes(key, value) + rest) == key,
        event_value(event_bytes(key, value) + rest) == value,
        after_event(event_bytes(key, value) + rest) == rest,
{
    let b = event_bytes(key, value) + rest;
    let tail = field_bytes(value) + rest;
    assert(b =~= field_bytes(key) + tail);
    lemma_field_read_back(key, tail);
    lemma_field_read_back(value, rest);
}

/// Writing the event that was read gives back the bytes that were read: no two
/// byte strings encode the same event.
pub proof fn law_event_encoding_is_unique(b: Seq<u8>)
    requires
        has_event(b),
    ensures
        b == event_bytes(event_key(b), event_value(b)) + after_event(b),
{
    lemma_field_is_rewritten(b);
    lemma_field_is_rewritten(after_field(b));
    assert(b =~= event_bytes(event_key(b), event_value(b)) + after_event(b));
}

/// A stream holds the events that were written to it, in that order, and
/// nothing else.
pub proof fn law_stream_round_trip(events: Seq<(Seq<u8>, Seq<u8>)>)
    requires
        forall|i: int| 0 <= i < events.len() ==> fits(#[trigger] events[i]),
    ensures
        stream_events(stream_bytes(events)) == Some(events),
    decreases events.len(),
{
    if events.len() > 0 {
        let rest = events.drop_first();
        law_stream_round_trip(rest);
        assert(fits(events[0]));
        law_event_round_trip(events[0].0, events[0].1, stream_bytes(rest));
        assert(seq![events[0]] + rest =~= events);
    } else {
        assert(events =~= Seq::empty());
    }
}

/// As long as a stream holds events, an iterator that stands at its start may
/// read one: it gets the first event and then stands before the others.
pub proof fn law_iteration_yields_events(b: Seq<u8>)
    requires
        stream_events(b) is Some,
    ensures
        b.len() == 0 <==> stream_events(b)->0.len() == 0,
        b.len() > 0 ==> {
            &&& has_event(b)
            &&& stream_events(b)->0[0] == (event_key(b), event_value(b))
            &&& stream_events(after_event(b)) == Some(stream_events(b)->0.drop_first())
        },
{
    if b.len() > 0 {
        let rest = stream_events(after_event(b))->0;
        assert((seq![(event_key(b), event_value(b))] + rest).drop_first() =~= rest);
    }
}

/// Writing down the events that a stream holds gives the stream back: every
/// byte of it belongs to one of them.
pub proof fn law_stream_is_its_events(b: Seq<u8>)
    requires
        stream_events(b) is Some,
    ensures
        stream_bytes(stream_events(b)->0) == b,
        forall|i: int|
            0 <= i < stream_events(b)->0.len() ==> (#[trigger] stream_events(b)->0[i]).0.len()
                <= u32::MAX && stream_events(b)->0[i].1.len() <= u32::MAX,
    decreases b.len(),
{
    if b.len() > 0 {
        let events = stream_events(b)->0;
        let rest = after_event(b);
        law_iteration_yields_events(b);
        law_stream_is_its_events(rest);
        law_event_encoding_is_unique(b);
        assert forall|i: int| 0 <= i < events.len() implies (#[trigger] events[i]).0.len()
            <= u32::MAX && events[i].1.len() <= u32::MAX by {
            if i > 0 {
                assert(events[i] == stream_events(rest)->0[i - 1]);
            }
        }
    }
}

/// Streams are written one after another: an empty list of events gives no
/// bytes, one event gives its own bytes, and two lists give the bytes of the
/// first and then those of the second.
pub proof fn law_stream_of_parts(
    a: Seq<(Seq<u8>, Seq<u8>)>,
    b: Seq<(Seq<u8>, Seq<u8>)>,
    key: Seq<u8>,
    value: Seq<u8>,
)
    ensures
        stream_bytes(Seq::empty()) == Seq::<u8>::empty(),
        stream_bytes(seq![(key, value)]) == event_bytes(key, value),
        stream_bytes(a + b) == stream_bytes(a) + stream_bytes(b),
    decreases a.len(),
{
    let one = seq![(key, value)];
    assert(one.drop_first() =~= Seq::empty());
    assert(stream_bytes(one.drop_first()) =~= Seq::<u8>::empty());
    assert(stream_bytes(one) =~= event_bytes(key, value));
    if a.len() == 0 {
        assert(a + b =~= b);
        assert(stream_bytes(a) + stream_bytes(b) =~= stream_bytes(b));
    } else {
        law_stream_of_parts(a.drop_first(), b, key, value);
        assert((a + b).drop_first() =~= a.drop_first() + b);
        assert(stream_bytes(a + b) =~= stream_bytes(a) + stream_bytes(b));
    }
}

/// Where everything stands in a written event. The first four bytes add up to
/// the length of the key, each worth 256 times the one before it; the key
/// follows as it is; then come the length of the value in the same way and the
/// value as it is. Of a length only the remainder by the number of lengths
/// that four bytes can tell apart is kept.
pub proof fn law_event_layout(key: Seq<u8>, value: Seq<u8>)
    ensures
        ({
            let b = event_bytes(key, value);
            let k = key.len() as int;
            let v = value.len() as int;
            &&& b.len() == k + v + 8
            &&& b[0] + 0x100 * b[1] + 0x1_0000 * b[2] + 0x100_0000 * b[3] == k % 0x1_0000_0000
            &&& b.subrange(4, 4 + k) == key
            &&& b[k + 4] + 0x100 * b[k + 5] + 0x1_0000 * b[k + 6] + 0x100_0000 * b[k + 7] == v
                % 0x1_0000_0000
            &&& b.subrange(k + 8, k + 8 + v) == value
        }),
        fits((key, value)) <==> key.len() < 0x1_0000_0000 && value.len() < 0x1_0000_0000,
{
    let b = event_bytes(key, value);
    let k = key.len() as int;
    let v = value.len() as int;
    lemma_low_bytes(k);
    lemma_low_bytes(v);
    assert(b.subrange(0, 4) =~= le_bytes(k));
    assert(b.subrange(k + 4, k + 8) =~= le_bytes(v));
    assert(le_value(b.subrange(0, 4)) == k % 0x1_0000_0000);
    assert(le_value(b.subrange(k + 4, k + 8)) == v % 0x1_0000_0000);
    assert(b.subrange(4, 4 + k) =~= key);
    assert(b.subrange(k + 8, k + 8 + v) =~= value);
}

/// The four low bytes of any number add up to its remainder.
proof fn lemma_low_bytes(n: int)
    requires
        0 <= n,
    ensures
        le_value(le_bytes(n)) == n % 0x1_0000_0000,
{
    let a = n / 0x100;
    let b = a / 0x100;
    let c = b / 0x100;
    assert(n / 0x1_0000 == b);
    assert(n / 0x100_0000 == c);
    assert(n / 0x1_0000_0000 == c / 0x100);
}

/// Where everything is looked for in a stream. An event stands at the front of
/// `b` exactly where there is room for a length, for as many bytes as that
/// length says, for another length and for as many bytes as that one says; the
/// key and the value are those bytes, and the rest is what follows them.
pub proof fn law_event_is_read_by_its_lengths(b: Seq<u8>, k: int, v: int)
    requires
        4 <= b.len() ==> k == b[0] + 0x100 * b[1] + 0x1_0000 * b[2] + 0x100_0000 * b[3],
        8 + k <= b.len() ==> v == b[k + 4] + 0x100 * b[k + 5] + 0x1_0000 * b[k + 6] + 0x100_0000
            * b[k + 7],
    ensures
        has_event(b) <==> 4 <= b.len() && 8 + k <= b.len() && 8 + k + v <= b.len(),
        has_event(b) ==> {
            &&& event_key(b) == b.subrange(4, 4 + k)
            &&& event_value(b) == b.subrange(8 + k, 8 + k + v)
            &&& after_event(b) == b.subrange(8 + k + v, b.len() as int)
        },
{
    if 4 <= b.len() && 4 + k <= b.len() {
        assert(has_field(b));
        let rest = after_field(b);
        assert(rest.len() == b.len() - 4 - k);
        if 4 <= rest.len() {
            assert(rest[0] == b[k + 4] && rest[1] == b[k + 5] && rest[2] == b[k + 6] && rest[3]
                == b[k + 7]);
            assert(le_value(rest) == v);
            if has_field(rest) {
                assert(first_field(rest) =~= b.subrange(8 + k, 8 + k + v));
                assert(after_field(rest) =~= b.subrange(8 + k + v, b.len() as int));
            }
        }
    }
}

/// Reads a little-endian `u32` from the front of `buf`.
///
/// Calls `bytes::Buf::get_u32_le` on the slice: it reads the first four bytes
/// in little-endian order and advances the slice by four. It panics on a
/// shorter slice.
#[verifier::external_body]
fn get_u32_le(buf: &mut &[u8]) -> (n: u32)
    requires
        4 <= old(buf)@.len(),
    ensures
        n == le_value(old(buf)@),
        final(buf)@ == old(buf)@.subrange(4, old(buf)@.len() as int),
{
    bytes::Buf::get_u32_le(buf)
}

/// Reads one length-prefixed byte string from the front of `buf`.
fn read_field(buf: &mut &[u8]) -> (s: Vec<u8>)
    requires
        has_field(old(buf)@),
    ensures
        s@ == first_field(old(buf)@),
        final(buf)@ == after_field(old(buf)@),
{
    let ghost whole = buf@;
    let len: usize = get_u32_le(buf) as usize;
    let rest: &[u8] = *buf;
    let s = slice_to_vec(slice_subrange(rest, 0, len));
    *buf = slice_subrange(rest, len, rest.len());
    assert(s@ =~= first_field(whole));
    assert(buf@ =~= after_field(whole));
    s
}

/// One of two values.
pub enum Either<L, R> {
    Left(L),
    Right(R),
}

impl<'e> Either<[u8; 4], &'e [u8]> {
    /// The bytes of this part.
    pub open spec fn spec_bytes(&self) -> Seq<u8> {
        match *self {
            Either::Left(a) => a@,
            Either::Right(s) => s@,
        }
    }

}

impl<'e> AsRef<[u8]> for Either<[u8; 4], &'e [u8]> {
    /// The bytes of this part.
    fn as_ref(&self) -> (s: &[u8])
        ensures
            s@ == self.spec_bytes(),
            *self matches Either::Left(a) ==> s@ == a@,
            *self matches Either::Right(r) ==> s@ == r@,
    {
        match self {
            Either::Left(a) => a.as_slice(),
            Either::Right(s) => *s,
        }
    }
}

/// The four low bytes of a length, least significant first.
fn length_bytes(n: usize) -> (b: [u8; 4])
    ensures
        b@ == le_bytes(n as int),
{
    [
        (n % 0x100) as u8,
        (n / 0x100 % 0x100) as u8,
        (n / 0x1_0000 % 0x100) as u8,
        (n / 0x100_0000 % 0x100) as u8,
    ]
}

/// Writes events and reads a single one back.
#[derive(Clone, Copy)]
pub struct EventEncoder;

impl EventEncoder {
    /// The four parts of an event, to be written one after another: the length
    /// of the key, the key, the length of the value, the value.
    ///
    /// A length is written modulo two to the power of 32.
    pub fn encode_event<'e>(key: &'e [u8], value: &'e [u8]) -> (parts: [Either<
        [u8; 4],
        &'e [u8],
    >; 4])
        ensures
            parts@[0].spec_bytes() == le_bytes(key@.len() as int),
            parts@[1].spec_bytes() == key@,
            parts@[2].spec_bytes() == le_bytes(value@.len() as int),
            parts@[3].spec_bytes() == value@,
            parts@[0].spec_bytes() + parts@[1].spec_bytes() + parts@[2].spec_bytes()
                + parts@[3].spec_bytes() == event_bytes(key@, value@),
            parts@[0] matches Either::Left(n) && n@[0] + 0x100 * n@[1] + 0x1_0000 * n@[2]
                + 0x100_0000 * n@[3] == key@.len() % 0x1_0000_0000,
            parts@[1] matches Either::Right(k) && k@ == key@,
            parts@[2] matches Either::Left(n) && n@[0] + 0x100 * n@[1] + 0x1_0000 * n@[2]
                + 0x100_0000 * n@[3] == value@.len() % 0x1_0000_0000,
            parts@[3] matches Either::Right(v) && v@ == value@,
    {
        proof {
            lemma_low_bytes(key@.len() as int);
            lemma_low_bytes(value@.len() as int);
        }
        let key_len = length_bytes(key.len());
        let val_len = length_bytes(value.len());
        let parts = [
            Either::Left(key_len),
            Either::Right(key),
            Either::Left(val_len),
            Either::Right(value),
        ];
        assert(parts@[0].spec_bytes() + parts@[1].spec_bytes() + parts@[2].spec_bytes()
            + parts@[3].spec_bytes() =~= event_bytes(key@, value@));
        parts
    }

    /// The key and the value of the event that `e` starts with. What follows
    /// that event is ignored.
    pub fn decode_event(e: &[u8]) -> (event: (Vec<u8>, Vec<u8>))
        requires
            has_event(e@),
        ensures
            event.0@ == event_key(e@),
            event.1@ == event_value(e@),
    {
        let mut buf = e;
        let key = read_field(&mut buf);
        let val = read_field(&mut buf);
        (key, val)
    }
}

/// A stream and the position up to which it has been read.
pub struct EventCursor {
    buf: Vec<u8>,
    index: usize,
    len: usize,
}

impl EventCursor {
    /// The position lies within the stream.
    #[verifier::type_invariant]
    spec fn in_stream(&self) -> bool {
        self.index <= self.len && self.len == self.buf@.len()
    }

    /// The bytes that have not been read yet.
    pub closed spec fn remaining(&self) -> Seq<u8> {
        self.buf@.subrange(self.index as int, self.len as int)
    }

    /// The start of `buf`.
    fn new(buf: Vec<u8>) -> (cursor: EventCursor)
        ensures
            cursor.remaining() == buf@,
    {
        let len = buf.len();
        let cursor = EventCursor { buf, index: 0, len };
        assert(cursor.remaining() =~= buf@);
        cursor
    }

    /// Whether the whole stream has been read.
    fn at_end(&self) -> (end: bool)
        ensures
            end == (self.remaining().len() == 0),
    {
        proof {
            use_type_invariant(self);
        }
        self.index >= self.len
    }

    /// Reads the key and the value of one event.
    fn read_event(&mut self) -> (event: (Vec<u8>, Vec<u8>))
        requires
            has_event(old(self).remaining()),
        ensures
            event.0@ == event_key(old(self).remaining()),
            event.1@ == event_value(old(self).remaining()),
            final(self).remaining() == after_event(old(self).remaining()),
    {
        proof {
            use_type_invariant(&*self);
        }
        let ghost start = self.remaining();
        let mut buf = slice_subrange(self.buf.as_slice(), self.index, self.len);
        let key = read_field(&mut buf);
        let val = read_field(&mut buf);
        self.index = self.len - buf.len();
        assert(self.remaining() =~= after_event(start));
        (key, val)
    }
}

/// Reads the events of a stream one by one.
pub struct EventIterator {
    /// What is left to read.
    pub cursor: EventCursor,
    /// The value of the event whose key was returned last.
    pub val: Vec<u8>,
}

impl EventIterator {
    /// The bytes that have not been read yet.
    pub open spec fn remaining(&self) -> Seq<u8> {
        self.cursor.remaining()
    }

    /// An iterator at the start of `buf`.
    pub fn new(buf: Vec<u8>) -> (iter: EventIterator)
        ensures
            iter.remaining() == buf@,
            iter.val@ == Seq::<u8>::empty(),
    {
        EventIterator { cursor: EventCursor::new(buf), val: vec![] }
    }

    /// Reads one event: returns its key and leaves its value in `val`, or
    /// returns `None` at the end of the stream.
    pub fn next(&mut self) -> (key: Option<Vec<u8>>)
        requires
            old(self).remaining().len() == 0 || has_event(old(self).remaining()),
        ensures
            match key {
                None => old(self).remaining().len() == 0 && *final(self) == *old(self),
                Some(k) => {
                    &&& has_event(old(self).remaining())
                    &&& k@ == event_key(old(self).remaining())
                    &&& final(self).val@ == event_value(old(self).remaining())
                    &&& final(self).remaining() == after_event(old(self).remaining())
                },
            },
    {
        if self.cursor.at_end() {
            None
        } else {
            let (key, val) = self.cursor.read_event();
            self.val = val;
            Some(key)
        }
    }
}

} // verus!
