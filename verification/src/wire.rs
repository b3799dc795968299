//! Messages on the wire: time-stamped payloads, gossip frames, filler.

use bytes::Bytes;
use vstd::prelude::*;

verus! {

/// The buffer type of the `bytes` crate, held without looking inside.
#[verifier::external_type_specification]
#[verifier::external_body]
pub struct ExBytes(bytes::Bytes);

/// The bytes that a buffer holds.
pub uninterp spec fn contents(b: Bytes) -> Seq<u8>;

/// `Bytes::from(Vec<u8>)`: the buffer holds the bytes of the vector, in
/// order.
#[verifier::external_body]
fn buffer(v: Vec<u8>) -> (r: Bytes)
    ensures
        contents(r) == v@,
{
    Bytes::from(v)
}

/// `Bytes::as_ref`: the slice is what the buffer holds.
#[verifier::external_body]
fn slice(b: &Bytes) -> (r: &[u8])
    ensures
        r@ == contents(*b),
{
    b.as_ref()
}

/// `n` in big-endian order, on `len` bytes; higher places are dropped.
pub open spec fn big_endian(n: nat, len: nat) -> Seq<u8>
    decreases len,
{
    if len == 0 {
        Seq::empty()
    } else {
        big_endian(n / 256, (len - 1) as nat).push((n % 256) as u8)
    }
}

/// The number that bytes in big-endian order denote.
pub open spec fn big_endian_value(s: Seq<u8>) -> nat
    decreases s.len(),
{
    if s.len() == 0 {
        0
    } else {
        big_endian_value(s.drop_last()) * 256 + s.last() as nat
    }
}

/// 256 to the power of `len`.
pub open spec fn places(len: nat) -> nat
    decreases len,
{
    if len == 0 {
        1
    } else {
        256 * places((len - 1) as nat)
    }
}

/// Reading big-endian bytes gives back the number that was written.
pub proof fn lemma_big_endian_inverse(n: nat, len: nat)
    requires
        n < places(len),
    ensures
        big_endian(n, len).len() == len,
        big_endian_value(big_endian(n, len)) == n,
    decreases len,
{
    if len > 0 {
        assert(n / 256 < places((len - 1) as nat));
        lemma_big_endian_inverse(n / 256, (len - 1) as nat);
        let s = big_endian(n, len);
        assert(s.drop_last() =~= big_endian(n / 256, (len - 1) as nat));
    }
}

proof fn lemma_big_endian_len(n: nat, len: nat)
    ensures
        big_endian(n, len).len() == len,
    decreases len,
{
    if len > 0 {
        lemma_big_endian_len(n / 256, (len - 1) as nat);
    }
}

proof fn lemma_value_bound(s: Seq<u8>)
    ensures
        big_endian_value(s) < places(s.len()),
    decreases s.len(),
{
    if s.len() > 0 {
        lemma_value_bound(s.drop_last());
    }
}

proof fn lemma_places()
    ensures
        places(4) == 0x1_0000_0000,
        places(8) == 0x1_0000_0000_0000_0000,
        places(12) == 0x1_0000_0000_0000_0000_0000_0000,
        places(16) == 0x1_0000_0000_0000_0000_0000_0000_0000_0000int,
{
    reveal_with_fuel(places, 17);
}

/// Appends `n` in big-endian order.
fn push_big_endian(out: &mut Vec<u8>, n: u128, len: usize)
    ensures
        final(out)@ == old(out)@ + big_endian(n as nat, len as nat),
    decreases len,
{
    if len > 0 {
        push_big_endian(out, n / 256, len - 1);
        out.push((n % 256) as u8);
        assert(out@ =~= old(out)@ + big_endian(n as nat, len as nat));
    } else {
        assert(out@ =~= old(out)@ + big_endian(n as nat, len as nat));
    }
}

/// Reads a number in big-endian order from `data[start..end]`.
fn read_big_endian(data: &[u8], start: usize, end: usize) -> (r: u128)
    requires
        start <= end <= data@.len(),
        end - start <= 16,
    ensures
        r as nat == big_endian_value(data@.subrange(start as int, end as int)),
{
    let mut value: u128 = 0;
    let mut i: usize = start;
    proof {
        assert(data@.subrange(start as int, start as int) =~= Seq::empty());
    }
    while i < end
        invariant
            start <= i <= end <= data@.len(),
            end - start <= 16,
            value as nat == big_endian_value(data@.subrange(start as int, i as int)),
        decreases end - i,
    {
        proof {
            let here = data@.subrange(start as int, i as int);
            let next = data@.subrange(start as int, i + 1);
            assert(next.drop_last() =~= here);
            lemma_value_bound(here);
            lemma_places_grow(here.len(), 15);
            reveal_with_fuel(places, 17);
        }
        value = value * 256 + data[i] as u128;
        i = i + 1;
    }
    value
}

proof fn lemma_places_grow(a: nat, b: nat)
    requires
        a <= b,
    ensures
        0 < places(a) <= places(b),
    decreases b,
{
    if a < b {
        lemma_places_grow(a, (b - 1) as nat);
    } else if b > 0 {
        lemma_places_grow((a - 1) as nat, (b - 1) as nat);
    }
}

/// The bytes in front of a payload that carry the time of sending.
pub const STAMP_LEN: usize = 16;

/// A payload with the time of sending in front, padded with zeros.
pub open spec fn stamped(size: nat, ts_ns: nat) -> Seq<u8> {
    big_endian(ts_ns, STAMP_LEN as nat) + Seq::new(
        if size > STAMP_LEN {
            (size - STAMP_LEN) as nat
        } else {
            0
        },
        |i: int| 0u8,
    )
}

/// A payload of at least 16 bytes that carries its time of sending.
pub fn make_payload(size: usize, ts_ns: u128) -> (r: Bytes)
    requires
        size <= isize::MAX as usize,
    ensures
        contents(r) == stamped(size as nat, ts_ns as nat),
{
    let mut v: Vec<u8> = Vec::new();
    push_big_endian(&mut v, ts_ns, STAMP_LEN);
    proof {
        lemma_big_endian_len(ts_ns as nat, STAMP_LEN as nat);
    }
    if size > STAMP_LEN {
        v.resize(size, 0);
    }
    proof {
        assert(v@ =~= stamped(size as nat, ts_ns as nat));
    }
    buffer(v)
}

/// The round-trip time that an echo shows: none for an echo without a time
/// of sending, or with one that is not in the past.
pub open spec fn rtt_of(data: Seq<u8>, now_ns: nat) -> Option<nat> {
    if data.len() < STAMP_LEN {
        None
    } else {
        let sent = big_endian_value(data.subrange(0, STAMP_LEN as int));
        if now_ns > sent {
            Some((now_ns - sent) as nat)
        } else {
            None
        }
    }
}

/// The round-trip time of an echo.
pub fn rtt_sample(data: &Bytes, now_ns: u128) -> (r: Option<u128>)
    ensures
        r is Some <==> rtt_of(contents(*data), now_ns as nat) is Some,
        r matches Some(v) ==> rtt_of(contents(*data), now_ns as nat) == Some(v as nat),
{
    let bytes: &[u8] = slice(data);
    if bytes.len() < STAMP_LEN {
        return None;
    }
    let sent: u128 = read_big_endian(bytes, 0, STAMP_LEN);
    if now_ns > sent {
        Some(now_ns - sent)
    } else {
        None
    }
}

/// The number of bytes in a message.
pub fn message_len(data: &Bytes) -> (r: usize)
    ensures
        r == contents(*data).len(),
{
    slice(data).len()
}

/// The echo of a time-stamped payload shows exactly the time since it was
/// sent, whatever its size.
pub proof fn law_echo_shows_round_trip(size: nat, ts_ns: u128, now_ns: u128)
    requires
        now_ns > ts_ns,
    ensures
        rtt_of(stamped(size, ts_ns as nat), now_ns as nat) == Some((now_ns - ts_ns) as nat),
{
    lemma_places();
    lemma_big_endian_inverse(ts_ns as nat, STAMP_LEN as nat);
    assert(stamped(size, ts_ns as nat).subrange(0, STAMP_LEN as int) =~= big_endian(
        ts_ns as nat,
        STAMP_LEN as nat,
    ));
}

/// The bytes of a gossip frame: sender, then sequence number.
pub const GOSSIP_LEN: usize = 12;

pub open spec fn gossip_bytes(from: nat, seq: nat) -> Seq<u8> {
    big_endian(from, 4) + big_endian(seq, 8)
}

/// A gossip frame.
pub fn gossip_frame(from: u32, seq: u64) -> (r: Bytes)
    ensures
        contents(r) == gossip_bytes(from as nat, seq as nat),
{
    let mut v: Vec<u8> = Vec::with_capacity(GOSSIP_LEN);
    push_big_endian(&mut v, from as u128, 4);
    push_big_endian(&mut v, seq as u128, 8);
    proof {
        assert(v@ =~= gossip_bytes(from as nat, seq as nat));
    }
    buffer(v)
}

/// The sender and the sequence number in front of a message; none in one
/// that is too short.
pub open spec fn gossip_of(data: Seq<u8>) -> Option<(nat, nat)> {
    if data.len() < GOSSIP_LEN {
        None
    } else {
        Some(
            (
                big_endian_value(data.subrange(0, 4)),
                big_endian_value(data.subrange(4, GOSSIP_LEN as int)),
            ),
        )
    }
}

/// Reads a gossip frame.
pub fn read_gossip(data: &Bytes) -> (r: Option<(u32, u64)>)
    ensures
        r is Some <==> gossip_of(contents(*data)) is Some,
        r matches Some(v) ==> gossip_of(contents(*data)) == Some((v.0 as nat, v.1 as nat)),
{
    let bytes: &[u8] = slice(data);
    if bytes.len() < GOSSIP_LEN {
        return None;
    }
    let from: u128 = read_big_endian(bytes, 0, 4);
    let seq: u128 = read_big_endian(bytes, 4, GOSSIP_LEN);
    proof {
        lemma_places();
        lemma_value_bound(bytes@.subrange(0, 4));
        lemma_value_bound(bytes@.subrange(4, GOSSIP_LEN as int));
    }
    Some((from as u32, seq as u64))
}

/// Reading a gossip frame gives back its sender and sequence number.
pub proof fn law_gossip_frame_reads_back(from: u32, seq: u64)
    ensures
        gossip_of(gossip_bytes(from as nat, seq as nat)) == Some((from as nat, seq as nat)),
{
    lemma_places();
    lemma_big_endian_inverse(from as nat, 4);
    lemma_big_endian_inverse(seq as nat, 8);
    let data = gossip_bytes(from as nat, seq as nat);
    assert(data.subrange(0, 4) =~= big_endian(from as nat, 4));
    assert(data.subrange(4, GOSSIP_LEN as int) =~= big_endian(seq as nat, 8));
}

/// A message of one byte repeated.
pub fn filler(byte: u8, len: usize) -> (r: Bytes)
    requires
        len <= isize::MAX as usize,
    ensures
        contents(r) == Seq::new(len as nat, |i: int| byte),
{
    let mut v: Vec<u8> = Vec::new();
    v.resize(len, byte);
    proof {
        assert(v@ =~= Seq::new(len as nat, |i: int| byte));
    }
    buffer(v)
}

/// A message that holds the given bytes.
pub fn message(bytes: Vec<u8>) -> (r: Bytes)
    ensures
        contents(r) == bytes@,
{
    buffer(bytes)
}

/// A message that holds a text.
pub fn text_message(text: &str) -> (r: Bytes)
    ensures
        contents(r) == vstd::utf8::encode_utf8(text@),
{
    buffer(text.as_bytes_vec())
}

/// Whether two messages hold the same bytes.
pub fn same_bytes(a: &Bytes, b: &Bytes) -> (r: bool)
    ensures
        r == (contents(*b) == contents(*a)),
{
    let x: &[u8] = slice(a);
    let y: &[u8] = slice(b);
    if x.len() != y.len() {
        return false;
    }
    let mut i: usize = 0;
    while i < x.len()
        invariant
            i <= x@.len(),
            x@ == contents(*a),
            y@ == contents(*b),
            x@.len() == y@.len(),
            forall|k: int| 0 <= k < i ==> x@[k] == y@[k],
        decreases x@.len() - i,
    {
        if x[i] != y[i] {
            return false;
        }
        i = i + 1;
    }
    assert(x@ =~= y@);
    true
}

/// A stamped payload is as long as it should be, and no shorter than its stamp;
/// it starts with the time of sending, and zeros fill the rest.
pub proof fn law_stamp_stands_in_front(size: nat, ts_ns: u128)
    ensures
        stamped(size, ts_ns as nat).len() == (if size > 16 {
            size
        } else {
            16
        }),
        big_endian_value(stamped(size, ts_ns as nat).take(16)) == ts_ns,
        forall|i: int| 16 <= i < size ==> #[trigger] stamped(size, ts_ns as nat)[i] == 0,
{
    lemma_places();
    lemma_big_endian_inverse(ts_ns as nat, STAMP_LEN as nat);
    assert(stamped(size, ts_ns as nat).take(16) =~= big_endian(ts_ns as nat, STAMP_LEN as nat));
}

/// The round trip is read from the first bytes of an echo alone; an echo that
/// is too short, or that was not sent before now, shows none.
pub proof fn law_round_trip_is_read_from_the_front(data: Seq<u8>, more: Seq<u8>, now_ns: nat)
    ensures
        data.len() < 16 ==> rtt_of(data, now_ns) is None,
        data.len() >= 16 ==> rtt_of(data + more, now_ns) == rtt_of(data, now_ns),
        data.len() >= 16 ==> {
            let sent = big_endian_value(data.take(16));
            &&& now_ns <= sent ==> rtt_of(data, now_ns) is None
            &&& now_ns > sent ==> rtt_of(data, now_ns) is Some && sent + rtt_of(data, now_ns)->0
                == now_ns
        },
{
    if data.len() >= 16 {
        assert((data + more).subrange(0, 16) =~= data.subrange(0, 16));
        assert(data.take(16) =~= data.subrange(0, 16));
    }
}

/// A gossip frame is read from the first bytes of a message alone, the sender
/// from four and the number from the next eight; a message that is too short
/// is none.
pub proof fn law_gossip_is_read_from_the_front(data: Seq<u8>, more: Seq<u8>)
    ensures
        data.len() < 12 ==> gossip_of(data) is None,
        data.len() >= 12 ==> gossip_of(data + more) == gossip_of(data),
        data.len() >= 12 ==> gossip_of(data) == Some(
            (big_endian_value(data.take(4)), big_endian_value(data.subrange(4, 12))),
        ),
{
    if data.len() >= 12 {
        assert((data + more).subrange(0, 4) =~= data.subrange(0, 4));
        assert((data + more).subrange(4, 12) =~= data.subrange(4, 12));
        assert(data.take(4) =~= data.subrange(0, 4));
    }
}

/// Every further byte of a number in big-endian order is worth the 256th part
/// of those before it.
pub proof fn law_big_endian_places(front: Seq<u8>, last: u8)
    ensures
        big_endian_value(Seq::empty()) == 0,
        big_endian_value(front.push(last)) == big_endian_value(front) * 256 + last,
{
    assert(front.push(last).drop_last() =~= front);
}

/// A message that carries its time of sending and comes back later shows the
/// time in between, whatever was appended to it on the way.
pub proof fn law_sent_message_shows_its_round_trip(
    size: usize,
    sent: u128,
    message: Bytes,
    echo: Bytes,
    now: u128,
    r: Option<u128>,
)
    requires
        call_ensures(make_payload, (size, sent), message),
        call_ensures(rtt_sample, (&echo, now), r),
        contents(echo).len() >= contents(message).len(),
        contents(echo).take(contents(message).len() as int) == contents(message),
        sent < now,
    ensures
        r == Some((now - sent) as u128),
{
    law_stamp_stands_in_front(size as nat, sent);
    law_echo_shows_round_trip(size as nat, sent, now);
    let front = contents(message);
    let more = contents(echo).skip(front.len() as int);
    assert(contents(echo) =~= front + more);
    law_round_trip_is_read_from_the_front(front, more, now as nat);
}

/// A gossip frame that is sent is read as the sender and the number it was made
/// of.
pub proof fn law_sent_frame_is_read(from: u32, seq: u64, frame: Bytes, r: Option<(u32, u64)>)
    requires
        call_ensures(gossip_frame, (from, seq), frame),
        call_ensures(read_gossip, (&frame,), r),
    ensures
        r == Some((from, seq)),
{
    law_gossip_frame_reads_back(from, seq);
}

} // verus!
