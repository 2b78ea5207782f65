//! Ordered packet cache and byte-stream view of one TCP half-stream.
//!
//! Frames are held in a vector kept sorted by TCP sequence number (the
//! min-heap of a classic reassembler, with the heap replaced by a sorted
//! vector so that its ordering is a stated invariant).  `next_seq` is the
//! absolute sequence of the next byte to deliver, and `fin` records whether
//! a FIN-carrying frame has been taken out of the cache.
//!
//! Sequence wrap-around is not tolerated within one conversation: a frame
//! whose payload would run past the largest 32-bit sequence number is
//! rejected at push time, and `next_seq` arithmetic saturates, so delivery
//! positions never go backwards.

use vstd::prelude::*;

use crate::packet::Packet;

verus! {

/// Most frames one half-stream cache will hold; pushes beyond it are dropped.
pub const MAX_CACHE_PKTS: usize = 32;

/// A frame the cache admits: well formed, decoded, TCP, and its payload does
/// not run past the largest 32-bit sequence number.
pub open spec fn cacheable(p: Packet) -> bool {
    &&& p.wf()
    &&& p.spec_decoded()
    &&& p.spec_is_tcp()
    &&& p.spec_seq() + p.spec_payload_len() <= u32::MAX
}

pub open spec fn cache_ok(c: Seq<Packet>) -> bool {
    forall|i: int| 0 <= i < c.len() ==> cacheable(#[trigger] c[i])
}

pub open spec fn cache_sorted(c: Seq<Packet>) -> bool {
    forall|i: int, j: int|
        0 <= i < j < c.len() ==> #[trigger] c[i].spec_seq() <= #[trigger] c[j].spec_seq()
}

/// Every byte of `p` lies before `ns`: a fully covered retransmission.
pub open spec fn covered(p: Packet, ns: u32) -> bool {
    p.spec_seq() + p.spec_payload_len() <= ns
}

/// A zero-payload SYN or FIN: preserved by de-duplication so it can be
/// surfaced as a terminal signal.
pub open spec fn bare_ctl(p: Packet) -> bool {
    (p.spec_fin() && p.spec_payload_len() == 0) || (p.spec_syn() && p.spec_payload_len() == 0)
}

/// The top-of-cache de-duplication step: drop fully covered frames from the
/// front until the front is a bare SYN/FIN or still carries undelivered
/// bytes.  Popping a covered FIN-carrying data frame records the FIN.
pub open spec fn spec_dedup(c: Seq<Packet>, ns: u32, fin: bool) -> (Seq<Packet>, bool)
    decreases c.len(),
{
    if c.len() > 0 && covered(c[0], ns) && !bare_ctl(c[0]) {
        spec_dedup(c.drop_first(), ns, fin || c[0].spec_fin())
    } else {
        (c, fin)
    }
}

/// Saturating 32-bit addition: `next_seq` never moves backwards, and flows
/// that would wrap the sequence space are out of scope.
pub open spec fn sat_add(ns: u32, k: u32) -> u32 {
    if ns + k <= u32::MAX {
        (ns + k) as u32
    } else {
        u32::MAX
    }
}

/// How `next_seq` advances when an in-order data-bearing frame is consumed:
/// a frame starting exactly at `next_seq` contributes its whole payload; a
/// frame overlapping the delivered prefix contributes only the bytes past
/// `next_seq`, i.e. the stream position moves to the frame's end.
pub open spec fn data_advance(ns: u32, p: Packet) -> u32 {
    if ns == p.spec_seq() {
        sat_add(ns, p.spec_payload_len())
    } else if ns > p.spec_seq() {
        if p.spec_seq() + p.spec_payload_len() >= ns {
            sat_add(p.spec_seq(), p.spec_payload_len())
        } else {
            ns
        }
    } else {
        ns
    }
}

/// How `next_seq` advances when any in-order frame is consumed: a
/// zero-payload SYN consumes exactly one sequence number, everything else
/// advances as data does.
pub open spec fn ord_advance(ns: u32, p: Packet) -> u32 {
    if p.spec_syn() && p.spec_payload_len() == 0 {
        sat_add(ns, 1)
    } else {
        data_advance(ns, p)
    }
}

/// The in-order peek: with `next_seq` still unset, adopt the top frame's
/// sequence; otherwise de-duplicate and surface the top frame when it does
/// not start past `next_seq`.
pub open spec fn spec_peek_ord(c: Seq<Packet>, ns: u32, fin: bool) -> (
    Seq<Packet>,
    u32,
    bool,
    Option<Packet>,
) {
    if ns == 0 {
        if c.len() == 0 {
            (c, ns, fin, None::<Packet>)
        } else {
            (c, c[0].spec_seq(), fin, Some(c[0]))
        }
    } else {
        let (c1, fin1) = spec_dedup(c, ns, fin);
        if c1.len() > 0 && c1[0].spec_seq() <= ns {
            (c1, ns, fin1, Some(c1[0]))
        } else {
            (c1, ns, fin1, None::<Packet>)
        }
    }
}

/// The in-order pop: peek, advance `next_seq` past the frame, remove it.
pub open spec fn spec_pop_ord(c: Seq<Packet>, ns: u32, fin: bool) -> (
    Seq<Packet>,
    u32,
    bool,
    Option<Packet>,
) {
    let (c1, ns1, fin1, ro) = spec_peek_ord(c, ns, fin);
    match ro {
        Some(p) => (c1.drop_first(), ord_advance(ns1, p), fin1 || p.spec_fin(), Some(p)),
        None => (c1, ns1, fin1, None::<Packet>),
    }
}

/// Consume in-order zero-payload frames (pure ACK, bare SYN, bare FIN)
/// until the front is either a data-bearing in-order frame or nothing is
/// in order yet.
pub open spec fn spec_seek_data(c: Seq<Packet>, ns: u32, fin: bool) -> (Seq<Packet>, u32, bool)
    decreases c.len(),
    via spec_seek_data_decreases
{
    let (c1, ns1, fin1, ro) = spec_peek_ord(c, ns, fin);
    match ro {
        Some(p) => if p.spec_payload_len() == 0 {
            let (c2, ns2, fin2, r2) = spec_pop_ord(c1, ns1, fin1);
            spec_seek_data(c2, ns2, fin2)
        } else {
            (c1, ns1, fin1)
        },
        None => (c1, ns1, fin1),
    }
}

#[via_fn]
proof fn spec_seek_data_decreases(c: Seq<Packet>, ns: u32, fin: bool) {
    lemma_dedup_props(c, ns, fin);
    let (c1, ns1, fin1, ro) = spec_peek_ord(c, ns, fin);
    if ro is Some {
        lemma_dedup_props(c1, ns1, fin1);
    }
}

/// The in-order data peek: seek past zero-payload frames, then peek.
pub open spec fn spec_peek_ord_data(c: Seq<Packet>, ns: u32, fin: bool) -> (
    Seq<Packet>,
    u32,
    bool,
    Option<Packet>,
) {
    let (cs, nss, fins) = spec_seek_data(c, ns, fin);
    spec_peek_ord(cs, nss, fins)
}

/// What one poll of the byte view reports.
#[derive(Debug, Clone, Copy, PartialEq, Eq, Structural)]
pub enum BytePoll {
    /// The next in-order byte of the half-stream.
    Byte(u8),
    /// No in-order byte yet and the stream has not ended.
    Pending,
    /// In-order data is exhausted and FIN has been observed.
    End,
}

/// What one poll of a multi-byte read (`readn`, `readline`) reports.
#[derive(Debug, Clone, Copy, PartialEq, Eq, Structural)]
pub enum ReadPoll {
    /// The read completed: `readn` gathered its count, `readline` found a
    /// newline.
    Ready,
    /// Not enough in-order data yet; the bytes read so far stay in the
    /// caller's buffer and the read can be polled again.
    Pending,
    /// The stream ended before the read completed; the buffer holds
    /// everything that was read.
    End,
}

/// What one poll of the frame view reports.
#[derive(Debug, Clone)]
pub enum PktPoll {
    /// The next frame.
    Pkt(Packet),
    /// No frame available yet.
    Pending,
    /// In-order frames are exhausted and FIN has been observed.
    End,
}

/// One poll of the byte view: seek to the in-order data frame, deliver the
/// byte at stream position `next_seq`, and step `next_seq` forward.
pub open spec fn spec_next_byte(c: Seq<Packet>, ns: u32, fin: bool) -> (
    Seq<Packet>,
    u32,
    bool,
    BytePoll,
) {
    let (c2, ns2, fin2, ro) = spec_peek_ord_data(c, ns, fin);
    match ro {
        Some(p) => (
            c2,
            (ns2 + 1) as u32,
            fin2,
            BytePoll::Byte(p.data@[p.spec_payload_offset() + (ns2 - p.spec_seq())]),
        ),
        None => (c2, ns2, fin2, if fin2 {
            BytePoll::End
        } else {
            BytePoll::Pending
        }),
    }
}

/// The in-order data pop: seek, then advance past the data frame and
/// remove it.
pub open spec fn spec_pop_ord_data(c: Seq<Packet>, ns: u32, fin: bool) -> (
    Seq<Packet>,
    u32,
    bool,
    Option<Packet>,
) {
    let (c2, ns2, fin2, ro) = spec_peek_ord_data(c, ns, fin);
    match ro {
        Some(p) => (c2.drop_first(), data_advance(ns2, p), fin2 || p.spec_fin(), Some(p)),
        None => (c2, ns2, fin2, None::<Packet>),
    }
}

/// De-duplication only removes frames from the front, and stops at a frame
/// that is a bare SYN/FIN or still carries undelivered bytes.
pub proof fn lemma_dedup_props(c: Seq<Packet>, ns: u32, fin: bool)
    ensures
        spec_dedup(c, ns, fin).0.len() <= c.len(),
        spec_dedup(c, ns, fin).0.len() > 0 ==> !(covered(spec_dedup(c, ns, fin).0[0], ns)
            && !bare_ctl(spec_dedup(c, ns, fin).0[0])),
        exists|k: int|
            0 <= k <= c.len() && spec_dedup(c, ns, fin).0 == #[trigger] c.skip(k),
        cache_ok(c) ==> cache_ok(spec_dedup(c, ns, fin).0),
    decreases c.len(),
{
    if c.len() > 0 && covered(c[0], ns) && !bare_ctl(c[0]) {
        lemma_dedup_props(c.drop_first(), ns, fin || c[0].spec_fin());
        let (cr, finr) = spec_dedup(c, ns, fin);
        let k0 = choose|k: int|
            0 <= k <= c.drop_first().len() && cr == #[trigger] c.drop_first().skip(k);
        assert(c.drop_first().skip(k0) =~= c.skip(k0 + 1));
        assert(cr == c.skip(k0 + 1));
    } else {
        assert(spec_dedup(c, ns, fin).0 == c.skip(0)) by {
            assert(c.skip(0) =~= c);
        }
    }
}

/// The state `spec_seek_data` leaves behind is a fixed point of the
/// in-order peek: peeking it again changes nothing, and what that peek
/// surfaces is the front frame, carrying data, with `next_seq` inside its
/// payload.
pub proof fn lemma_seek_fixpoint(c: Seq<Packet>, ns: u32, fin: bool)
    ensures
        spec_seek_data(c, ns, fin).0.len() <= c.len(),
        cache_ok(c) ==> cache_ok(spec_seek_data(c, ns, fin).0),
        ({
            let (cs, nss, fins) = spec_seek_data(c, ns, fin);
            let (c2, ns2, fin2, ro) = spec_peek_ord(cs, nss, fins);
            &&& c2 == cs
            &&& ns2 == nss
            &&& fin2 == fins
            &&& match ro {
                Some(p) => {
                    &&& cs.len() > 0
                    &&& p == cs[0]
                    &&& p.spec_payload_len() > 0
                    &&& p.spec_seq() <= nss < p.spec_seq() + p.spec_payload_len()
                },
                None => true,
            }
        }),
    decreases c.len(),
{
    let (c1, ns1, fin1, ro) = spec_peek_ord(c, ns, fin);
    lemma_dedup_props(c, ns, fin);
    match ro {
        Some(p) => {
            if p.spec_payload_len() == 0 {
                let (c2, ns2, fin2, r2) = spec_pop_ord(c1, ns1, fin1);
                lemma_dedup_props(c1, ns1, fin1);
                assert(covered(c1[0], ns1));
                if ns1 != 0 && !bare_ctl(c1[0]) {
                    lemma_dedup_props(c1.drop_first(), ns1, fin1 || c1[0].spec_fin());
                }
                assert(c2.len() < c.len());
                if cache_ok(c) {
                    let (cq, nsq, finq, rq) = spec_peek_ord(c1, ns1, fin1);
                    assert(cache_ok(cq));
                    if rq is Some {
                        lemma_cache_ok_drop_first(cq);
                    }
                    assert(cache_ok(c2));
                }
                lemma_seek_fixpoint(c2, ns2, fin2);
            } else {
                assert(!covered(c1[0], ns1));
            }
        }
        None => {
        }
    }
}

/// Dropping the front frame keeps every remaining frame admissible.
proof fn lemma_cache_ok_drop_first(c: Seq<Packet>)
    requires
        cache_ok(c),
        c.len() > 0,
    ensures
        cache_ok(c.drop_first()),
{
    assert forall|i: int| 0 <= i < c.drop_first().len() implies cacheable(
        #[trigger] c.drop_first()[i],
    ) by {
        assert(c.drop_first()[i] == c[i + 1]);
    }
}

/// The not-yet-delivered payload bytes of an in-order frame, read from
/// stream position `ns` to the frame's end.
pub open spec fn frame_tail(p: Packet, ns: u32) -> Seq<u8> {
    p.data@.subrange(
        p.spec_payload_offset() + (ns - p.spec_seq()),
        p.spec_payload_offset() + p.spec_payload_len(),
    )
}

/// Everything the byte view can deliver right now: the undelivered tail of
/// the current in-order data frame, then of the next, until a hole or an
/// empty cache stops delivery.  This is the mathematical content of the
/// half-stream: reads return exactly a prefix of this sequence.
pub open spec fn deliverable(c: Seq<Packet>, ns: u32, fin: bool) -> Seq<u8>
    decreases c.len(),
    via deliverable_decreases
{
    let (c2, ns2, fin2, ro) = spec_peek_ord_data(c, ns, fin);
    match ro {
        Some(p) => frame_tail(p, ns2) + deliverable(
            c2.drop_first(),
            sat_add(p.spec_seq(), p.spec_payload_len()),
            fin2 || p.spec_fin(),
        ),
        None => Seq::empty(),
    }
}

#[via_fn]
proof fn deliverable_decreases(c: Seq<Packet>, ns: u32, fin: bool) {
    lemma_seek_fixpoint(c, ns, fin);
}

/// The half-stream state after `k` polls of the byte view: what a
/// multi-byte read that consumed `k` bytes leaves behind.
pub open spec fn spec_read_k(c: Seq<Packet>, ns: u32, fin: bool, k: nat) -> (Seq<Packet>, u32, bool)
    decreases k,
{
    if k == 0 {
        (c, ns, fin)
    } else {
        let (c1, ns1, fin1) = spec_read_k(c, ns, fin, (k - 1) as nat);
        let (c2, ns2, fin2, rb) = spec_next_byte(c1, ns1, fin1);
        (c2, ns2, fin2)
    }
}

/// One poll of the byte view consumes exactly the head of `deliverable`:
/// a delivered byte is its first element and leaves its tail behind, and
/// `Pending`/`End` are possible only when nothing is deliverable.
#[verifier::rlimit(40)]
pub proof fn lemma_byte_step(c: Seq<Packet>, ns: u32, fin: bool)
    requires
        cache_ok(c),
    ensures
        ({
            let d = deliverable(c, ns, fin);
            let (c3, ns3, fin3, rb) = spec_next_byte(c, ns, fin);
            match rb {
                BytePoll::Byte(b) => {
                    &&& d.len() > 0
                    &&& b == d[0]
                    &&& deliverable(c3, ns3, fin3) == d.drop_first()
                },
                BytePoll::Pending => d.len() == 0 && !fin3 && deliverable(c3, ns3, fin3).len()
                    == 0,
                BytePoll::End => d.len() == 0 && fin3 && deliverable(c3, ns3, fin3).len() == 0,
            }
        }),
{
    lemma_seek_fixpoint(c, ns, fin);
    let (cs, nss, fins) = spec_seek_data(c, ns, fin);
    let (c2, ns2, fin2, ro) = spec_peek_ord(cs, nss, fins);
    let d = deliverable(c, ns, fin);
    match ro {
        None => {
            assert(spec_seek_data(c2, ns2, fin2) == (c2, ns2, fin2));
            assert(deliverable(c2, ns2, fin2) == Seq::<u8>::empty());
        }
        Some(p) => {
            let off = p.spec_payload_offset();
            let seqp = p.spec_seq();
            let lenp = p.spec_payload_len();
            let tail_c = c2.drop_first();
            let tail_ns = sat_add(seqp, lenp);
            let tail_fin = fin2 || p.spec_fin();
            assert(cacheable(p));
            assert(tail_ns == seqp + lenp);
            assert(d == frame_tail(p, ns2) + deliverable(tail_c, tail_ns, tail_fin));
            assert(frame_tail(p, ns2).len() == lenp - (ns2 - seqp));
            assert(d[0] == p.data@[off + (ns2 - seqp)]);
            let nsx = (ns2 + 1) as u32;
            if ns2 + 1 < seqp + lenp {
                // the head frame still carries undelivered bytes: peeking the
                // stepped state finds the same frame and changes nothing
                assert(!covered(p, nsx));
                assert(spec_dedup(c2, nsx, fin2) == (c2, fin2));
                assert(spec_peek_ord(c2, nsx, fin2) == (c2, nsx, fin2, Some(p)));
                assert(spec_seek_data(c2, nsx, fin2) == (c2, nsx, fin2));
                assert(deliverable(c2, nsx, fin2) == frame_tail(p, nsx) + deliverable(
                    tail_c,
                    tail_ns,
                    tail_fin,
                ));
                assert(frame_tail(p, ns2).drop_first() =~= frame_tail(p, nsx));
                assert(deliverable(c2, nsx, fin2) =~= d.drop_first());
            } else {
                // the delivered byte was the head frame's last: the stepped
                // state de-duplicates it away and continues with the rest
                assert(ns2 + 1 == seqp + lenp);
                assert(nsx == tail_ns);
                assert(frame_tail(p, ns2).len() == 1);
                assert(covered(p, nsx) && !bare_ctl(p));
                assert(spec_dedup(c2, nsx, fin2) == spec_dedup(tail_c, nsx, tail_fin));
                assert(spec_peek_ord(c2, nsx, fin2) == spec_peek_ord(tail_c, nsx, tail_fin));
                assert(spec_seek_data(c2, nsx, fin2) == spec_seek_data(tail_c, nsx, tail_fin));
                assert(spec_peek_ord_data(c2, nsx, fin2) == spec_peek_ord_data(
                    tail_c,
                    nsx,
                    tail_fin,
                ));
                assert(deliverable(c2, nsx, fin2) == deliverable(tail_c, nsx, tail_fin));
                assert(deliverable(c2, nsx, fin2) =~= d.drop_first());
            }
        }
    }
}

/// Delivery moves strictly forward: no operation of the half-stream moves
/// `next_seq` backwards, and a delivered byte's stream position (the
/// `next_seq` the seek reached) lies strictly below the `next_seq` left
/// behind, so the positions of successive delivered bytes strictly
/// increase.
pub proof fn lemma_monotonic_delivery(c: Seq<Packet>, ns: u32, fin: bool)
    requires
        cache_ok(c),
    ensures
        spec_peek_ord(c, ns, fin).1 >= ns,
        spec_pop_ord(c, ns, fin).1 >= ns,
        spec_seek_data(c, ns, fin).1 >= ns,
        spec_pop_ord_data(c, ns, fin).1 >= ns,
        spec_next_byte(c, ns, fin).1 >= ns,
        spec_next_byte(c, ns, fin).3 is Byte ==> spec_next_byte(c, ns, fin).1 > spec_seek_data(
            c,
            ns,
            fin,
        ).1 >= ns,
    decreases c.len(),
{
    lemma_seek_fixpoint(c, ns, fin);
    let (c1, ns1, fin1, ro) = spec_peek_ord(c, ns, fin);
    match ro {
        Some(p) => {
            if p.spec_payload_len() == 0 {
                let (c2, ns2, fin2, r2) = spec_pop_ord(c1, ns1, fin1);
                lemma_dedup_props(c, ns, fin);
                lemma_dedup_props(c1, ns1, fin1);
                assert(c2.len() < c.len());
                if cache_ok(c) {
                    let (cq, nsq, finq, rq) = spec_peek_ord(c1, ns1, fin1);
                    assert(cache_ok(cq));
                    if rq is Some {
                        lemma_cache_ok_drop_first(cq);
                    }
                }
                lemma_monotonic_delivery(c2, ns2, fin2);
            }
        }
        None => {
        }
    }
}

/// A zero-payload SYN consumes exactly one sequence number: popping it in
/// order advances `next_seq` by one, saturating only at the top of the
/// sequence space.
pub proof fn lemma_syn_accounting(c: Seq<Packet>, ns: u32, fin: bool)
    ensures
        ({
            let (c1, ns1, fin1, ro) = spec_peek_ord(c, ns, fin);
            (ro matches Some(p) && p.spec_syn() && p.spec_payload_len() == 0) ==> spec_pop_ord(
                c,
                ns,
                fin,
            ).1 == sat_add(ns1, 1)
        }),
{
}

/// Frames with pairwise distinct sequence numbers.
pub open spec fn distinct_seqs(c: Seq<Packet>) -> bool {
    forall|i: int, j: int|
        0 <= i < j < c.len() ==> #[trigger] c[i].spec_seq() != #[trigger] c[j].spec_seq()
}

/// A set of frames with pairwise distinct sequence numbers has exactly one
/// sorted arrangement: two sorted caches holding the same frames are equal
/// position by position.
pub proof fn lemma_sorted_unique(a: Seq<Packet>, b: Seq<Packet>)
    requires
        cache_sorted(a),
        cache_sorted(b),
        distinct_seqs(a),
        a.to_multiset() == b.to_multiset(),
    ensures
        a == b,
    decreases a.len(),
{
    broadcast use vstd::seq_lib::group_to_multiset_ensures;

    if a.len() == 0 {
        assert(b.to_multiset().len() == 0);
        assert(a =~= b);
    } else {
        assert(a.to_multiset().contains(a[0]));
        assert(b.to_multiset().contains(b[0]));
        assert(a.contains(b[0]));
        assert(b.contains(a[0]));
        let ia = choose|k: int| 0 <= k < a.len() && a[k] == b[0];
        let jb = choose|k: int| 0 <= k < b.len() && b[k] == a[0];
        assert(a[0].spec_seq() <= a[ia].spec_seq());
        assert(b[0].spec_seq() <= b[jb].spec_seq());
        assert(a[0].spec_seq() == b[0].spec_seq());
        assert(a[ia] == b[0]);
        if ia != 0 {
            assert(a[0].spec_seq() != a[ia].spec_seq());
            assert(false);
        }
        assert(a[0] == b[0]);
        assert(a.remove(0).to_multiset() =~= a.to_multiset().remove(a[0]));
        assert(b.remove(0).to_multiset() =~= b.to_multiset().remove(b[0]));
        assert(a.remove(0) =~= a.drop_first());
        assert(b.remove(0) =~= b.drop_first());
        assert forall|i: int, j: int| 0 <= i < j < a.drop_first().len() implies #[trigger] a
            .drop_first()[i].spec_seq() != #[trigger] a.drop_first()[j].spec_seq() by {
            assert(a.drop_first()[i] == a[i + 1]);
            assert(a.drop_first()[j] == a[j + 1]);
        }
        assert forall|i: int, j: int| 0 <= i < j < a.drop_first().len() implies #[trigger] a
            .drop_first()[i].spec_seq() <= #[trigger] a.drop_first()[j].spec_seq() by {
            assert(a.drop_first()[i] == a[i + 1]);
            assert(a.drop_first()[j] == a[j + 1]);
        }
        assert forall|i: int, j: int| 0 <= i < j < b.drop_first().len() implies #[trigger] b
            .drop_first()[i].spec_seq() <= #[trigger] b.drop_first()[j].spec_seq() by {
            assert(b.drop_first()[i] == b[i + 1]);
            assert(b.drop_first()[j] == b[j + 1]);
        }
        lemma_sorted_unique(a.drop_first(), b.drop_first());
        assert(a.len() == b.len());
        assert forall|i: int| 0 <= i < a.len() implies a[i] == b[i] by {
            if i > 0 {
                assert(a.drop_first()[i - 1] == a[i]);
                assert(b.drop_first()[i - 1] == b[i]);
            }
        }
        assert(a =~= b);
    }
}

/// Arrival order does not matter once the frames are the same: two
/// half-streams that admitted the same frames (in any order, no two
/// sharing a sequence number) and agree on delivery state are the same
/// stream, byte for byte.  Together with `push_rel`, which says each push
/// only inserts into the cache's multiset, this is permutation invariance.
pub proof fn lemma_permutation_invariance(s1: PktStrm, s2: PktStrm)
    requires
        s1.wf(),
        s2.wf(),
        distinct_seqs(s1.cache@),
        s1.cache@.to_multiset() == s2.cache@.to_multiset(),
        s1.next_seq == s2.next_seq,
        s1.fin == s2.fin,
    ensures
        s1.cache@ == s2.cache@,
        deliverable(s1.cache@, s1.next_seq, s1.fin) == deliverable(
            s2.cache@,
            s2.next_seq,
            s2.fin,
        ),
{
    lemma_sorted_unique(s1.cache@, s2.cache@);
}

/// Two pushes land in the same cache whichever arrives first: swapping
/// adjacent pushes preserves the cache's multiset, the delivery position
/// and the FIN record - and adjacent swaps generate every permutation.
/// With `lemma_permutation_invariance`, any two arrival orders of the same
/// admitted frames deliver the same bytes.
pub proof fn lemma_push_order_immaterial(
    s: PktStrm,
    sa: PktStrm,
    sab: PktStrm,
    sb: PktStrm,
    sba: PktStrm,
    a: Packet,
    b: Packet,
)
    requires
        push_rel(s, sa, a),
        push_rel(sa, sab, b),
        push_rel(s, sb, b),
        push_rel(sb, sba, a),
        a.spec_is_tcp() && a.spec_seq() + a.spec_payload_len() <= u32::MAX,
        b.spec_is_tcp() && b.spec_seq() + b.spec_payload_len() <= u32::MAX,
        s.cache@.len() + 1 < MAX_CACHE_PKTS,
    ensures
        sab.cache@.to_multiset() == sba.cache@.to_multiset(),
        sab.next_seq == sba.next_seq,
        sab.fin == sba.fin,
{
    broadcast use vstd::seq_lib::group_to_multiset_ensures;

    assert(sa.cache@.len() == s.cache@.len() + 1);
    assert(sb.cache@.len() == s.cache@.len() + 1);
    assert(sab.cache@.to_multiset() =~= s.cache@.to_multiset().insert(a).insert(b));
    assert(sba.cache@.to_multiset() =~= s.cache@.to_multiset().insert(b).insert(a));
    assert(s.cache@.to_multiset().insert(a).insert(b) =~= s.cache@.to_multiset().insert(
        b,
    ).insert(a));
}

/// Once observed, FIN stays observed through every transition.
proof fn lemma_fin_monotone(c: Seq<Packet>, ns: u32, fin: bool)
    ensures
        fin ==> spec_dedup(c, ns, fin).1,
        fin ==> spec_peek_ord(c, ns, fin).2,
        fin ==> spec_pop_ord(c, ns, fin).2,
        fin ==> spec_seek_data(c, ns, fin).2,
    decreases c.len(),
{
    if c.len() > 0 && covered(c[0], ns) && !bare_ctl(c[0]) {
        lemma_fin_monotone(c.drop_first(), ns, fin || c[0].spec_fin());
    }
    let (c1, ns1, fin1, ro) = spec_peek_ord(c, ns, fin);
    if fin {
        assert(fin1) by {
            lemma_dedup_fin(c, ns, fin);
        }
        match ro {
            Some(p) => {
                if p.spec_payload_len() == 0 {
                    let (c2, ns2, fin2, r2) = spec_pop_ord(c1, ns1, fin1);
                    lemma_dedup_props(c, ns, fin);
                    lemma_dedup_props(c1, ns1, fin1);
                    assert(c1.len() > 0);
                    assert(covered(c1[0], ns1));
                    if ns1 != 0 && !bare_ctl(c1[0]) {
                        lemma_dedup_props(c1.drop_first(), ns1, fin1 || c1[0].spec_fin());
                    }
                    assert(c2.len() < c.len());
                    lemma_dedup_fin(c1, ns1, fin1);
                    lemma_fin_monotone(c2, ns2, fin2);
                    assert(fin2);
                    assert(spec_seek_data(c, ns, fin) == spec_seek_data(c2, ns2, fin2));
                } else {
                    assert(spec_seek_data(c, ns, fin) == (c1, ns1, fin1));
                }
            }
            None => {
                assert(spec_seek_data(c, ns, fin) == (c1, ns1, fin1));
            }
        }
    }
}

proof fn lemma_dedup_fin(c: Seq<Packet>, ns: u32, fin: bool)
    ensures
        fin ==> spec_dedup(c, ns, fin).1,
    decreases c.len(),
{
    if c.len() > 0 && covered(c[0], ns) && !bare_ctl(c[0]) {
        lemma_dedup_fin(c.drop_first(), ns, fin || c[0].spec_fin());
    }
}

/// De-duplication with one extra covered, payload-bearing frame inserted:
/// the FIN record is unchanged, and the result is the same cache, with the
/// extra frame possibly still waiting behind the front.
proof fn lemma_dedup_insert(c: Seq<Packet>, ns: u32, fin: bool, i: int, f: Packet)
    requires
        0 <= i <= c.len(),
        covered(f, ns),
        !bare_ctl(f),
        f.spec_fin() ==> fin,
    ensures
        ({
            let (d, g) = spec_dedup(c, ns, fin);
            let (d2, g2) = spec_dedup(c.insert(i, f), ns, fin);
            &&& g2 == g
            &&& (d2 == d || exists|j: int| 1 <= j <= d.len() && d2 == #[trigger] d.insert(j, f))
        }),
    decreases c.len(),
{
    let cp = c.insert(i, f);
    if i == 0 {
        assert(cp[0] == f);
        assert(cp.drop_first() =~= c);
        assert((fin || f.spec_fin()) == fin);
    } else {
        assert(c.len() > 0);
        assert(cp[0] == c[0]);
        if covered(c[0], ns) && !bare_ctl(c[0]) {
            assert(cp.drop_first() =~= c.drop_first().insert(i - 1, f));
            lemma_dedup_insert(c.drop_first(), ns, fin || c[0].spec_fin(), i - 1, f);
        } else {
            assert(spec_dedup(c, ns, fin) == (c, fin));
            assert(spec_dedup(cp, ns, fin) == (cp, fin));
        }
    }
}

/// The in-order peek with one extra covered, payload-bearing frame: same
/// surfaced frame, same delivery state, the extra frame at most waiting
/// behind the front.
proof fn lemma_peek_insert(c: Seq<Packet>, ns: u32, fin: bool, i: int, f: Packet)
    requires
        0 <= i <= c.len(),
        covered(f, ns),
        !bare_ctl(f),
        f.spec_fin() ==> fin,
        ns != 0,
    ensures
        ({
            let (c1, ns1, fin1, ro) = spec_peek_ord(c, ns, fin);
            let (c1b, ns1b, fin1b, rob) = spec_peek_ord(c.insert(i, f), ns, fin);
            &&& ns1b == ns1
            &&& fin1b == fin1
            &&& rob == ro
            &&& (c1b == c1 || exists|j: int|
                1 <= j <= c1.len() && c1b == #[trigger] c1.insert(j, f))
        }),
{
    lemma_dedup_insert(c, ns, fin, i, f);
    let (d, g) = spec_dedup(c, ns, fin);
    let (d2, g2) = spec_dedup(c.insert(i, f), ns, fin);
    if d2 != d {
        let j = choose|j: int| 1 <= j <= d.len() && d2 == #[trigger] d.insert(j, f);
        assert(d.len() > 0);
        assert(d2[0] == d[0]);
        assert(d2.len() > 0);
    }
}

/// The seek with one extra covered, payload-bearing frame: same delivery
/// state, the extra frame at most waiting behind the front, and still
/// covered at the position the seek reached.
#[verifier::rlimit(100)]
proof fn lemma_seek_insert(c: Seq<Packet>, ns: u32, fin: bool, i: int, f: Packet)
    requires
        0 <= i <= c.len(),
        covered(f, ns),
        !bare_ctl(f),
        f.spec_fin() ==> fin,
        ns != 0,
    ensures
        ({
            let (cs, nss, fins) = spec_seek_data(c, ns, fin);
            let (csb, nssb, finsb) = spec_seek_data(c.insert(i, f), ns, fin);
            &&& nssb == nss
            &&& finsb == fins
            &&& (csb == cs || exists|j: int|
                1 <= j <= cs.len() && csb == #[trigger] cs.insert(j, f))
            &&& covered(f, nss)
            &&& nss >= ns
        }),
    decreases c.len(),
{
    lemma_peek_insert(c, ns, fin, i, f);
    lemma_monotone_state(c, ns, fin);
    if f.spec_fin() {
        lemma_dedup_fin(c, ns, fin);
    }
    let (c1, ns1, fin1, ro) = spec_peek_ord(c, ns, fin);
    let (c1b, ns1b, fin1b, rob) = spec_peek_ord(c.insert(i, f), ns, fin);
    match ro {
        Some(p) => {
            if p.spec_payload_len() == 0 {
                let (c2, ns2, fin2, r2) = spec_pop_ord(c1, ns1, fin1);
                let (c2b, ns2b, fin2b, r2b) = spec_pop_ord(c1b, ns1b, fin1b);
                lemma_dedup_props(c, ns, fin);
                lemma_dedup_props(c1, ns1, fin1);
                assert(c1.len() > 0);
                assert(covered(c1[0], ns1));
                if !bare_ctl(c1[0]) {
                    lemma_dedup_props(c1.drop_first(), ns1, fin1 || c1[0].spec_fin());
                }
                assert(c2.len() < c.len());
                assert(ns2 >= ns1) by {
                    lemma_monotone_state(c1, ns1, fin1);
                }
                if c1b == c1 {
                    assert((c2b, ns2b, fin2b) == (c2, ns2, fin2));
                } else {
                    let j = choose|j: int|
                        1 <= j <= c1.len() && c1b == #[trigger] c1.insert(j, f);
                    lemma_peek_insert(c1, ns1, fin1, j, f);
                    let (cq, nsq, finq, roq) = spec_peek_ord(c1, ns1, fin1);
                    let (cqb, nsqb, finqb, roqb) = spec_peek_ord(c1b, ns1b, fin1b);
                    match roq {
                        Some(q) => {
                            assert(c2 == cq.drop_first());
                            assert(c2b == cqb.drop_first());
                            if cqb == cq {
                                assert((c2b, ns2b, fin2b) == (c2, ns2, fin2));
                            } else {
                                let j2 = choose|k: int|
                                    1 <= k <= cq.len() && cqb == #[trigger] cq.insert(k, f);
                                assert(cqb.drop_first() =~= cq.drop_first().insert(j2 - 1, f));
                                lemma_seek_insert(c2, ns2, fin2, j2 - 1, f);
                            }
                        }
                        None => {
                            assert(c2 == cq && ns2 == nsq && fin2 == finq);
                            if cqb == cq {
                            } else {
                                let j2 = choose|k: int|
                                    1 <= k <= cq.len() && cqb == #[trigger] cq.insert(k, f);
                                lemma_seek_insert(c2, ns2, fin2, j2, f);
                            }
                        }
                    }
                }
            }
        }
        None => {
        }
    }
}

/// `next_seq` does not move backwards through peek, pop or seek (state
/// form used by the insertion lemmas).
#[verifier::rlimit(60)]
proof fn lemma_monotone_state(c: Seq<Packet>, ns: u32, fin: bool)
    ensures
        spec_peek_ord(c, ns, fin).1 >= ns || ns == 0,
        spec_pop_ord(c, ns, fin).1 >= ns || ns == 0,
        spec_seek_data(c, ns, fin).1 >= ns || ns == 0,
    decreases c.len(),
{
    let (c1, ns1, fin1, ro) = spec_peek_ord(c, ns, fin);
    match ro {
        Some(p) => {
            if p.spec_payload_len() == 0 {
                let (c2, ns2, fin2, r2) = spec_pop_ord(c1, ns1, fin1);
                lemma_dedup_props(c, ns, fin);
                lemma_dedup_props(c1, ns1, fin1);
                assert(c1.len() > 0);
                assert(covered(c1[0], ns1));
                if ns1 != 0 && !bare_ctl(c1[0]) {
                    lemma_dedup_props(c1.drop_first(), ns1, fin1 || c1[0].spec_fin());
                }
                assert(c2.len() < c.len());
                lemma_monotone_state(c2, ns2, fin2);
                if ns != 0 {
                    assert(ns1 == ns);
                    let (cq, nsq, finq, roq) = spec_peek_ord(c1, ns1, fin1);
                    assert(nsq == ns1);
                    assert(ns2 >= ns1);
                }
            }
        }
        None => {
        }
    }
}

/// Retransmission idempotence: a frame all of whose payload bytes lie
/// before `next_seq` - one the stream has already delivered - changes
/// nothing when it arrives again.  Wherever it lands in the sorted cache,
/// the byte view delivers the same bytes, surfaces the same data frame,
/// and reports the same end-of-stream condition.  (A frame carrying FIN
/// can only have been delivered if FIN is already recorded, hence that
/// premise; `next_seq` 0 would mean nothing was delivered yet.)
pub proof fn lemma_retransmission_idempotent(c: Seq<Packet>, ns: u32, fin: bool, i: int, f: Packet)
    requires
        0 <= i <= c.len(),
        covered(f, ns),
        !bare_ctl(f),
        f.spec_fin() ==> fin,
        ns != 0,
    ensures
        deliverable(c.insert(i, f), ns, fin) == deliverable(c, ns, fin),
        spec_peek_ord_data(c.insert(i, f), ns, fin).1 == spec_peek_ord_data(c, ns, fin).1,
        spec_peek_ord_data(c.insert(i, f), ns, fin).2 == spec_peek_ord_data(c, ns, fin).2,
        spec_peek_ord_data(c.insert(i, f), ns, fin).3 == spec_peek_ord_data(c, ns, fin).3,
    decreases c.len(),
{
    lemma_seek_insert(c, ns, fin, i, f);
    lemma_seek_fixpoint(c, ns, fin);
    lemma_fin_monotone(c, ns, fin);
    let (cs, nss, fins) = spec_seek_data(c, ns, fin);
    let (csb, nssb, finsb) = spec_seek_data(c.insert(i, f), ns, fin);
    let (cA, nsA, finA, ro) = spec_peek_ord(cs, nss, fins);
    if csb == cs {
        assert(spec_peek_ord(csb, nssb, finsb) == spec_peek_ord(cs, nss, fins));
        assert(deliverable(c.insert(i, f), ns, fin) == deliverable(c, ns, fin));
    } else {
        let j = choose|k: int| 1 <= k <= cs.len() && csb == #[trigger] cs.insert(k, f);
        assert(fins ==> finsb);
        assert(f.spec_fin() ==> fins) by {
            if f.spec_fin() {
                lemma_fin_monotone(c, ns, fin);
            }
        }
        lemma_peek_insert(cs, nss, fins, j, f);
        let (cAb, nsAb, finAb, rob) = spec_peek_ord(csb, nssb, finsb);
        assert(rob == ro && nsAb == nsA && finAb == finA);
        match ro {
            Some(p) => {
                assert(cA == cs && nsA == nss && finA == fins);
                let tail_ns = sat_add(p.spec_seq(), p.spec_payload_len());
                let tail_fin = finA || p.spec_fin();
                assert(p.spec_seq() <= nsA < p.spec_seq() + p.spec_payload_len());
                assert(tail_ns >= nsA);
                assert(covered(f, tail_ns));
                assert(tail_ns != 0);
                if cAb == cA {
                    assert(deliverable(c.insert(i, f), ns, fin) == deliverable(c, ns, fin));
                } else {
                    let j2 = choose|k: int|
                        1 <= k <= cA.len() && cAb == #[trigger] cA.insert(k, f);
                    assert(cAb.drop_first() =~= cA.drop_first().insert(j2 - 1, f));
                    lemma_retransmission_idempotent(
                        cA.drop_first(),
                        tail_ns,
                        tail_fin,
                        j2 - 1,
                        f,
                    );
                    assert(deliverable(c.insert(i, f), ns, fin) == frame_tail(p, nsA)
                        + deliverable(cAb.drop_first(), tail_ns, tail_fin));
                    assert(deliverable(c, ns, fin) == frame_tail(p, nsA) + deliverable(
                        cA.drop_first(),
                        tail_ns,
                        tail_fin,
                    ));
                }
            }
            None => {
                assert(deliverable(c.insert(i, f), ns, fin) == Seq::<u8>::empty());
                assert(deliverable(c, ns, fin) == Seq::<u8>::empty());
            }
        }
    }
}

/// FIN terminality: once the byte view has reported end-of-stream, a
/// subsequent push cannot make it yield bytes, as long as the pushed frame
/// carries no payload past `next_seq`: either it is a fully covered,
/// payload-bearing retransmission (with FIN already recorded if it carries
/// one), or it starts strictly past `next_seq` and sits behind the
/// permanent hole.  A frame overlapping `next_seq` with new bytes is
/// genuinely new data and is outside this statement, as is a stream whose
/// only event was a FIN at sequence number zero (`next_seq` 0 still counts
/// as uninitialized).
pub proof fn lemma_fin_terminal(c: Seq<Packet>, ns: u32, fin: bool, i: int, g: Packet)
    requires
        cache_ok(c),
        ({
            let (c3, ns3, fin3, rb) = spec_next_byte(c, ns, fin);
            &&& rb is End
            &&& ns3 != 0
            &&& 0 <= i <= c3.len()
            &&& ((covered(g, ns3) && !bare_ctl(g) && (g.spec_fin() ==> fin3)) || g.spec_seq()
                > ns3)
        }),
    ensures
        ({
            let (c3, ns3, fin3, rb) = spec_next_byte(c, ns, fin);
            &&& deliverable(c3.insert(i, g), ns3, fin3).len() == 0
            &&& spec_next_byte(c3.insert(i, g), ns3, fin3).3 is End
        }),
{
    lemma_byte_step(c, ns, fin);
    lemma_seek_fixpoint(c, ns, fin);
    let (c3, ns3, fin3, rb) = spec_next_byte(c, ns, fin);
    let (cs, nss, fins) = spec_seek_data(c, ns, fin);
    assert(c3 == cs && ns3 == nss && fin3 == fins);
    assert(spec_peek_ord(c3, ns3, fin3) == (c3, ns3, fin3, None::<Packet>));
    let cp = c3.insert(i, g);
    if covered(g, ns3) && !bare_ctl(g) {
        lemma_retransmission_idempotent(c3, ns3, fin3, i, g);
        assert(spec_seek_data(c3, ns3, fin3) == (c3, ns3, fin3));
        assert(spec_peek_ord_data(c3, ns3, fin3).3 is None);
        assert(deliverable(c3, ns3, fin3).len() == 0);
    } else {
        // the frame waits behind the hole: nothing becomes in order
        assert(c3.len() > 0 ==> c3[0].spec_seq() > ns3);
        assert(cp[0].spec_seq() > ns3) by {
            if i == 0 {
            } else {
                assert(cp[0] == c3[0]);
            }
        }
        assert(!(covered(cp[0], ns3) && !bare_ctl(cp[0])));
        assert(spec_dedup(cp, ns3, fin3) == (cp, fin3));
        assert(spec_peek_ord(cp, ns3, fin3) == (cp, ns3, fin3, None::<Packet>));
        assert(spec_seek_data(cp, ns3, fin3) == (cp, ns3, fin3));
        assert(spec_peek_ord_data(cp, ns3, fin3).3 is None);
        assert(deliverable(cp, ns3, fin3) == Seq::<u8>::empty());
    }
}

/// FIN terminality for a retransmitted bare FIN: after end-of-stream, a
/// zero-payload FIN not past `next_seq` lands at the front of the cache,
/// is consumed as an in-order control frame, re-records the FIN that is
/// already recorded, and the view still ends.  (A bare SYN is different:
/// consuming one advances `next_seq`, which can make a waiting frame
/// deliverable, so it is outside this statement.)
pub proof fn lemma_fin_terminal_bare_fin(c: Seq<Packet>, ns: u32, fin: bool, g: Packet)
    requires
        cache_ok(c),
        ({
            let (c3, ns3, fin3, rb) = spec_next_byte(c, ns, fin);
            &&& rb is End
            &&& ns3 != 0
            &&& g.spec_fin()
            &&& !g.spec_syn()
            &&& g.spec_payload_len() == 0
            &&& g.spec_seq() <= ns3
        }),
    ensures
        ({
            let (c3, ns3, fin3, rb) = spec_next_byte(c, ns, fin);
            &&& deliverable(c3.insert(0, g), ns3, fin3).len() == 0
            &&& spec_next_byte(c3.insert(0, g), ns3, fin3).3 is End
        }),
{
    lemma_byte_step(c, ns, fin);
    lemma_seek_fixpoint(c, ns, fin);
    let (c3, ns3, fin3, rb) = spec_next_byte(c, ns, fin);
    assert(spec_peek_ord(c3, ns3, fin3) == (c3, ns3, fin3, None::<Packet>));
    let cp = c3.insert(0, g);
    assert(cp[0] == g);
    assert(cp.drop_first() =~= c3);
    assert(bare_ctl(g));
    // the bare FIN is surfaced, consumed, and leaves the End state behind
    assert(spec_dedup(cp, ns3, fin3) == (cp, fin3));
    assert(spec_peek_ord(cp, ns3, fin3) == (cp, ns3, fin3, Some(g)));
    assert(ord_advance(ns3, g) == ns3);
    assert(spec_pop_ord(cp, ns3, fin3) == (c3, ns3, fin3 || g.spec_fin(), Some(g)));
    assert(fin3);
    assert(spec_seek_data(cp, ns3, fin3) == spec_seek_data(c3, ns3, fin3));
    assert(spec_seek_data(c3, ns3, fin3) == (c3, ns3, fin3));
    assert(spec_peek_ord_data(cp, ns3, fin3).3 is None);
    assert(deliverable(cp, ns3, fin3) == Seq::<u8>::empty());
}

/// FIN terminality for a retransmitted bare SYN when nothing is cached:
/// after end-of-stream with an empty cache, a zero-payload SYN not past
/// `next_seq` is consumed as an in-order control frame (its one-step
/// advance finds no frame waiting) and the view still ends.  With frames
/// waiting behind the hole, a bare SYN's advance can genuinely unblock
/// one, so that case stays outside FIN terminality.
pub proof fn lemma_fin_terminal_bare_syn_empty(c: Seq<Packet>, ns: u32, fin: bool, g: Packet)
    requires
        cache_ok(c),
        ({
            let (c3, ns3, fin3, rb) = spec_next_byte(c, ns, fin);
            &&& rb is End
            &&& ns3 != 0
            &&& c3.len() == 0
            &&& g.spec_syn()
            &&& g.spec_payload_len() == 0
            &&& g.spec_seq() <= ns3
        }),
    ensures
        ({
            let (c3, ns3, fin3, rb) = spec_next_byte(c, ns, fin);
            &&& deliverable(c3.insert(0, g), ns3, fin3).len() == 0
            &&& spec_next_byte(c3.insert(0, g), ns3, fin3).3 is End
        }),
{
    lemma_byte_step(c, ns, fin);
    lemma_seek_fixpoint(c, ns, fin);
    let (c3, ns3, fin3, rb) = spec_next_byte(c, ns, fin);
    let cp = c3.insert(0, g);
    assert(cp[0] == g);
    assert(cp.drop_first() =~= c3);
    assert(bare_ctl(g));
    assert(fin3);
    // the bare SYN is surfaced and consumed; nothing else is cached
    assert(spec_dedup(cp, ns3, fin3) == (cp, fin3));
    assert(spec_peek_ord(cp, ns3, fin3) == (cp, ns3, fin3, Some(g)));
    let nsx = ord_advance(ns3, g);
    assert(nsx == sat_add(ns3, 1));
    assert(nsx != 0);
    let finx = fin3 || g.spec_fin();
    assert(spec_pop_ord(cp, ns3, fin3) == (c3, nsx, finx, Some(g)));
    assert(spec_peek_ord(c3, nsx, finx) == (c3, nsx, finx, None::<Packet>));
    assert(spec_seek_data(c3, nsx, finx) == (c3, nsx, finx));
    assert(spec_seek_data(cp, ns3, fin3) == (c3, nsx, finx));
    assert(spec_peek_ord_data(cp, ns3, fin3).3 is None);
    assert(deliverable(cp, ns3, fin3) == Seq::<u8>::empty());
    assert(finx);
}

/// What `push` does to a half-stream: delivery state untouched, and the
/// cache either gains the frame at a sorted position or, when the frame is
/// refused (non-TCP, cache full, or payload past the sequence space), stays
/// as it was.
pub open spec fn push_rel(pre: PktStrm, post: PktStrm, pkt: Packet) -> bool {
    &&& post.next_seq == pre.next_seq
    &&& post.fin == pre.fin
    &&& !(pkt.spec_is_tcp() && pre.cache@.len() < MAX_CACHE_PKTS && pkt.spec_seq()
        + pkt.spec_payload_len() <= u32::MAX) ==> post.cache@ == pre.cache@
    &&& (pkt.spec_is_tcp() && pre.cache@.len() < MAX_CACHE_PKTS && pkt.spec_seq()
        + pkt.spec_payload_len() <= u32::MAX) ==> {
        &&& exists|i: int|
            0 <= i <= pre.cache@.len() && post.cache@ == pre.cache@.insert(i, pkt)
        &&& post.cache@.to_multiset() == pre.cache@.to_multiset().insert(pkt)
    }
}

/// One TCP half-stream: the reassembly cache plus delivery state.
#[derive(Debug, Clone)]
pub struct PktStrm {
    pub cache: Vec<Packet>,
    pub next_seq: u32,
    pub fin: bool,
}

impl PktStrm {
    /// Cache bound, admission conditions, and sequence ordering.
    pub open spec fn wf(self) -> bool {
        &&& self.cache@.len() <= MAX_CACHE_PKTS
        &&& cache_ok(self.cache@)
        &&& cache_sorted(self.cache@)
    }

    pub fn new() -> (r: PktStrm)
        ensures
            r.wf(),
            r.cache@.len() == 0,
            r.next_seq == 0,
            !r.fin,
    {
        PktStrm { cache: Vec::new(), next_seq: 0, fin: false }
    }

    pub fn len(&self) -> (r: usize)
        ensures
            r == self.cache@.len(),
    {
        self.cache.len()
    }

    pub fn is_empty(&self) -> (r: bool)
        ensures
            r == (self.cache@.len() == 0),
    {
        self.cache.len() == 0
    }

    pub fn clear(&mut self)
        ensures
            final(self).wf(),
            final(self).cache@.len() == 0,
            final(self).next_seq == old(self).next_seq,
            final(self).fin == old(self).fin,
    {
        self.cache.clear();
    }

    /// The cache applies no timeout of its own; a hole never closes by
    /// itself and the caller decides when to give a flow up.
    pub fn timeout(&self) {
    }

    /// Insert a frame for reassembly.  Non-TCP frames, frames beyond the
    /// cache bound, and frames whose payload would run past the largest
    /// sequence number are silently dropped.  Delivery state is untouched.
    pub fn push(&mut self, pkt: Packet)
        requires
            old(self).wf(),
            pkt.wf(),
            pkt.spec_decoded(),
        ensures
            final(self).wf(),
            push_rel(*old(self), *final(self), pkt),
    {
        if !pkt.is_tcp() {
            return;
        }
        if self.cache.len() >= MAX_CACHE_PKTS {
            return;
        }
        let pseq = pkt.seq();
        let plen = pkt.payload_len();
        if pseq as u64 + plen as u64 > u32::MAX as u64 {
            return;
        }
        let ghost c0 = self.cache@;
        let mut i: usize = 0;
        while i < self.cache.len() && self.cache[i].seq() <= pseq
            invariant
                self.cache@ == c0,
                self.wf(),
                i <= self.cache@.len(),
                forall|k: int| 0 <= k < i ==> #[trigger] c0[k].spec_seq() <= pseq,
            decreases self.cache@.len() - i,
        {
            i = i + 1;
        }
        assert(i < c0.len() ==> c0[i as int].spec_seq() > pseq);
        self.cache.insert(i, pkt);
        assert forall|a: int, b: int|
            0 <= a < b < self.cache@.len() implies #[trigger] self.cache@[a].spec_seq()
            <= #[trigger] self.cache@[b].spec_seq() by {
            if a < i && b == i {
            } else if a == i && b > i {
                assert(self.cache@[b] == c0[b - 1]);
                assert(c0[i as int].spec_seq() > pseq);
            }
        }
        proof {
            lemma_insert_to_multiset(c0, i as int, pkt);
        }
    }

    /// Look at the smallest-sequence frame without removing it.
    pub fn peek_pkt(&self) -> (r: Option<&Packet>)
        requires
            self.wf(),
        ensures
            match r {
                Some(p) => self.cache@.len() > 0 && *p == self.cache@[0],
                None => self.cache@.len() == 0,
            },
    {
        if self.cache.len() > 0 {
            Some(&self.cache[0])
        } else {
            None
        }
    }

    /// Remove and return the smallest-sequence frame, recording a FIN flag
    /// as it leaves the cache.  `next_seq` is the caller's business.
    pub fn pop_pkt(&mut self) -> (r: Option<Packet>)
        requires
            old(self).wf(),
        ensures
            final(self).wf(),
            final(self).next_seq == old(self).next_seq,
            old(self).cache@.len() == 0 ==> r is None && *final(self) == *old(self),
            old(self).cache@.len() > 0 ==> {
                &&& r == Some(old(self).cache@[0])
                &&& final(self).cache@ == old(self).cache@.drop_first()
                &&& final(self).fin == (old(self).fin || old(self).cache@[0].spec_fin())
            },
    {
        if self.cache.len() == 0 {
            return None;
        }
        let p = self.cache.remove(0);
        if p.fin() {
            self.fin = true;
        }
        assert(old(self).cache@.remove(0) =~= old(self).cache@.drop_first());
        Some(p)
    }

    /// Drop fully covered retransmissions from the front of the cache.
    fn top_pkt_dedup(&mut self)
        requires
            old(self).wf(),
        ensures
            final(self).wf(),
            final(self).next_seq == old(self).next_seq,
            (final(self).cache@, final(self).fin)
                == spec_dedup(old(self).cache@, old(self).next_seq, old(self).fin),
    {
        loop
            invariant
                self.wf(),
                self.next_seq == old(self).next_seq,
                spec_dedup(self.cache@, self.next_seq, self.fin)
                    == spec_dedup(old(self).cache@, old(self).next_seq, old(self).fin),
            decreases self.cache@.len(),
        {
            if self.cache.len() == 0 {
                return;
            }
            let p_seq;
            let p_len;
            let p_syn;
            let p_fin;
            {
                let p = &self.cache[0];
                p_seq = p.seq();
                p_len = p.payload_len();
                p_syn = p.syn();
                p_fin = p.fin();
            }
            if (p_fin && p_len == 0) || (p_syn && p_len == 0) {
                return;
            }
            if p_seq + p_len <= self.next_seq {
                self.pop_pkt();
            } else {
                return;
            }
        }
    }

    /// Peek the next strictly in-order frame (zero-payload ones included).
    /// With `next_seq` still unset the top frame's sequence is adopted;
    /// otherwise covered retransmissions are dropped first and the top frame
    /// is surfaced only when it does not start past `next_seq`.
    pub fn peek_ord_pkt(&mut self) -> (r: Option<&Packet>)
        requires
            old(self).wf(),
        ensures
            final(self).wf(),
            ({
                let (c1, ns1, fin1, ro) = spec_peek_ord(
                    old(self).cache@,
                    old(self).next_seq,
                    old(self).fin,
                );
                &&& final(self).cache@ == c1
                &&& final(self).next_seq == ns1
                &&& final(self).fin == fin1
                &&& match r {
                    Some(p) => ro == Some(*p) && final(self).cache@.len() > 0 && *p
                        == final(self).cache@[0],
                    None => ro is None,
                }
            }),
    {
        if self.next_seq == 0 {
            if self.cache.len() > 0 {
                let s = self.cache[0].seq();
                self.next_seq = s;
                return Some(&self.cache[0]);
            }
            return None;
        }
        self.top_pkt_dedup();
        if self.cache.len() > 0 {
            let s = self.cache[0].seq();
            if s <= self.next_seq {
                return Some(&self.cache[0]);
            }
        }
        None
    }

    /// Pop the next strictly in-order frame and advance `next_seq` past it:
    /// one sequence number for a bare SYN, the payload for a frame starting
    /// at `next_seq`, and only the undelivered tail for an overlap.
    pub fn pop_ord_pkt(&mut self) -> (r: Option<Packet>)
        requires
            old(self).wf(),
        ensures
            final(self).wf(),
            ({
                let (c1, ns1, fin1, ro) = spec_pop_ord(
                    old(self).cache@,
                    old(self).next_seq,
                    old(self).fin,
                );
                &&& final(self).cache@ == c1
                &&& final(self).next_seq == ns1
                &&& final(self).fin == fin1
                &&& r == ro
            }),
    {
        let p_seq;
        let p_len;
        let p_syn;
        match self.peek_ord_pkt() {
            Some(p) => {
                p_seq = p.seq();
                p_len = p.payload_len();
                p_syn = p.syn();
            }
            None => {
                return None;
            }
        }
        if p_syn && p_len == 0 {
            self.next_seq = self.next_seq.saturating_add(1);
        } else if self.next_seq == p_seq {
            self.next_seq = self.next_seq.saturating_add(p_len);
        } else if self.next_seq > p_seq {
            let t = p_seq + p_len;
            if t >= self.next_seq {
                self.next_seq = t;
            }
        }
        self.pop_pkt()
    }

    /// Peek the next in-order data-bearing frame, consuming any in-order
    /// zero-payload frames (pure ACK, bare SYN, bare FIN) on the way.
    pub fn peek_ord_data(&mut self) -> (r: Option<&Packet>)
        requires
            old(self).wf(),
        ensures
            final(self).wf(),
            ({
                let (c2, ns2, fin2, ro) = spec_peek_ord_data(
                    old(self).cache@,
                    old(self).next_seq,
                    old(self).fin,
                );
                &&& final(self).cache@ == c2
                &&& final(self).next_seq == ns2
                &&& final(self).fin == fin2
                &&& match r {
                    Some(p) => {
                        &&& ro == Some(*p)
                        &&& final(self).cache@.len() > 0
                        &&& *p == final(self).cache@[0]
                        &&& p.spec_seq() <= ns2 < p.spec_seq() + p.spec_payload_len()
                    },
                    None => ro is None,
                }
            }),
    {
        proof {
            lemma_seek_fixpoint(old(self).cache@, old(self).next_seq, old(self).fin);
        }
        loop
            invariant_except_break
                self.wf(),
                spec_seek_data(self.cache@, self.next_seq, self.fin) == spec_seek_data(
                    old(self).cache@,
                    old(self).next_seq,
                    old(self).fin,
                ),
            ensures
                self.wf(),
                (self.cache@, self.next_seq, self.fin) == spec_seek_data(
                    old(self).cache@,
                    old(self).next_seq,
                    old(self).fin,
                ),
            decreases self.cache@.len(),
        {
            let ghost c_pre = self.cache@;
            let ghost ns_pre = self.next_seq;
            let ghost fin_pre = self.fin;
            let has_empty = match self.peek_ord_pkt() {
                Some(p) => p.payload_len() == 0,
                None => false,
            };
            let ghost c1 = self.cache@;
            let ghost ns1 = self.next_seq;
            let ghost fin1 = self.fin;
            if has_empty {
                self.pop_ord_pkt();
                proof {
                    // The cache strictly shrinks: either the pop removed the
                    // zero-payload head, or the de-duplication inside the pop
                    // dropped it as a covered retransmission.
                    lemma_dedup_props(c_pre, ns_pre, fin_pre);
                    lemma_dedup_props(c1, ns1, fin1);
                    assert(c1.len() <= c_pre.len());
                    assert(c1.len() > 0);
                    assert(covered(c1[0], ns1));
                    if ns1 != 0 && !bare_ctl(c1[0]) {
                        lemma_dedup_props(c1.drop_first(), ns1, fin1 || c1[0].spec_fin());
                        assert(spec_dedup(c1, ns1, fin1).0.len() < c1.len());
                    }
                    assert(self.cache@.len() < c_pre.len());
                }
            } else {
                break;
            }
        }
        self.peek_ord_pkt()
    }

    /// Pop the next in-order data-bearing frame and advance `next_seq` to
    /// the frame's end.
    pub fn pop_ord_data(&mut self) -> (r: Option<Packet>)
        requires
            old(self).wf(),
        ensures
            final(self).wf(),
            ({
                let (c2, ns2, fin2, ro) = spec_pop_ord_data(
                    old(self).cache@,
                    old(self).next_seq,
                    old(self).fin,
                );
                &&& final(self).cache@ == c2
                &&& final(self).next_seq == ns2
                &&& final(self).fin == fin2
                &&& r == ro
            }),
    {
        let p_seq;
        let p_len;
        match self.peek_ord_data() {
            Some(p) => {
                p_seq = p.seq();
                p_len = p.payload_len();
            }
            None => {
                return None;
            }
        }
        if self.next_seq == p_seq {
            self.next_seq = self.next_seq.saturating_add(p_len);
        } else if self.next_seq > p_seq {
            let t = p_seq + p_len;
            if t >= self.next_seq {
                self.next_seq = t;
            }
        }
        self.pop_pkt()
    }

    /// One poll of the byte view: deliver the byte at stream position
    /// `next_seq` from the current in-order data frame, report `End` once
    /// no in-order data is available and FIN has been observed, and
    /// `Pending` while a hole blocks delivery.
    pub fn next_byte(&mut self) -> (r: BytePoll)
        requires
            old(self).wf(),
        ensures
            final(self).wf(),
            ({
                let (c3, ns3, fin3, rb) = spec_next_byte(
                    old(self).cache@,
                    old(self).next_seq,
                    old(self).fin,
                );
                &&& final(self).cache@ == c3
                &&& final(self).next_seq == ns3
                &&& final(self).fin == fin3
                &&& r == rb
            }),
    {
        let has_data = match self.peek_ord_data() {
            Some(_p) => true,
            None => false,
        };
        if !has_data {
            if self.fin {
                return BytePoll::End;
            }
            return BytePoll::Pending;
        }
        let b;
        {
            let p = &self.cache[0];
            let seq = p.seq();
            let off = p.payload_offset();
            let delta = (self.next_seq - seq) as usize;
            b = p.data[off + delta];
        }
        self.next_seq = self.next_seq + 1;
        BytePoll::Byte(b)
    }

    /// Read up to `num` bytes of the reassembled stream into `buf`,
    /// resuming a partial read left in `buf` by an earlier `Pending` poll.
    /// Fewer than `num` bytes stay in `buf` only when the stream ends.
    pub fn readn(&mut self, num: usize, buf: &mut Vec<u8>) -> (r: ReadPoll)
        requires
            old(self).wf(),
            old(buf)@.len() <= num,
        ensures
            final(self).wf(),
            ({
                let d = deliverable(old(self).cache@, old(self).next_seq, old(self).fin);
                let dd = deliverable(final(self).cache@, final(self).next_seq, final(self).fin);
                let need = num - old(buf)@.len();
                let s0 = spec_read_k(
                    old(self).cache@,
                    old(self).next_seq,
                    old(self).fin,
                    (final(buf)@.len() - old(buf)@.len()) as nat,
                );
                match r {
                    ReadPoll::Ready => {
                        &&& final(buf)@.len() == num
                        &&& d.len() >= need
                        &&& final(buf)@ == old(buf)@ + d.take(need as int)
                        &&& dd == d.skip(need as int)
                        &&& (final(self).cache@, final(self).next_seq, final(self).fin) == s0
                    },
                    ReadPoll::Pending => {
                        &&& d.len() < need
                        &&& final(buf)@ == old(buf)@ + d
                        &&& dd.len() == 0
                        &&& !final(self).fin
                        &&& ({
                            let (c2, ns2, fin2, rb) = spec_next_byte(s0.0, s0.1, s0.2);
                            (final(self).cache@, final(self).next_seq, final(self).fin) == (
                                c2,
                                ns2,
                                fin2,
                            ) && rb is Pending
                        })
                    },
                    ReadPoll::End => {
                        &&& d.len() < need
                        &&& final(buf)@ == old(buf)@ + d
                        &&& dd.len() == 0
                        &&& final(self).fin
                        &&& ({
                            let (c2, ns2, fin2, rb) = spec_next_byte(s0.0, s0.1, s0.2);
                            (final(self).cache@, final(self).next_seq, final(self).fin) == (
                                c2,
                                ns2,
                                fin2,
                            ) && rb is End
                        })
                    },
                }
            }),
    {
        let ghost d = deliverable(old(self).cache@, old(self).next_seq, old(self).fin);
        let ghost buf0 = old(buf)@;
        while buf.len() < num
            invariant
                self.wf(),
                d == deliverable(old(self).cache@, old(self).next_seq, old(self).fin),
                buf0 == old(buf)@,
                buf0.len() <= buf@.len() <= num,
                buf@ == buf0 + d.take(buf@.len() - buf0.len()),
                deliverable(self.cache@, self.next_seq, self.fin) == d.skip(
                    buf@.len() - buf0.len(),
                ),
                d.len() >= buf@.len() - buf0.len(),
                (self.cache@, self.next_seq, self.fin) == spec_read_k(
                    old(self).cache@,
                    old(self).next_seq,
                    old(self).fin,
                    (buf@.len() - buf0.len()) as nat,
                ),
            decreases num - buf@.len(),
        {
            proof {
                lemma_byte_step(self.cache@, self.next_seq, self.fin);
            }
            let ghost k = buf@.len() - buf0.len();
            match self.next_byte() {
                BytePoll::Byte(b) => {
                    buf.push(b);
                    proof {
                        assert(d.skip(k)[0] == d[k]);
                        assert(d.take(k + 1) =~= d.take(k).push(d[k]));
                        assert(d.skip(k).drop_first() =~= d.skip(k + 1));
                    }
                }
                BytePoll::Pending => {
                    proof {
                        assert(d.skip(k).len() == 0);
                        assert(d.take(k) =~= d);
                    }
                    return ReadPoll::Pending;
                }
                BytePoll::End => {
                    proof {
                        assert(d.skip(k).len() == 0);
                        assert(d.take(k) =~= d);
                    }
                    return ReadPoll::End;
                }
            }
        }
        ReadPoll::Ready
    }

    /// Read one line of the reassembled stream into `buf`: bytes up to and
    /// including the next newline.  At stream end without a newline, `buf`
    /// holds exactly what was read.  A `Pending` poll keeps the partial
    /// line in `buf` and the read resumes where it stopped.
    pub fn readline(&mut self, buf: &mut Vec<u8>) -> (r: ReadPoll)
        requires
            old(self).wf(),
            forall|j: int| 0 <= j < old(buf)@.len() ==> old(buf)@[j] != 10u8,
        ensures
            final(self).wf(),
            ({
                let d = deliverable(old(self).cache@, old(self).next_seq, old(self).fin);
                let dd = deliverable(final(self).cache@, final(self).next_seq, final(self).fin);
                let m = final(buf)@.len() - old(buf)@.len();
                let s0 = spec_read_k(
                    old(self).cache@,
                    old(self).next_seq,
                    old(self).fin,
                    m as nat,
                );
                match r {
                    ReadPoll::Ready => {
                        &&& 1 <= m <= d.len()
                        &&& final(buf)@ == old(buf)@ + d.take(m)
                        &&& d[m - 1] == 10u8
                        &&& forall|j: int| 0 <= j < m - 1 ==> d[j] != 10u8
                        &&& dd == d.skip(m)
                        &&& (final(self).cache@, final(self).next_seq, final(self).fin) == s0
                    },
                    ReadPoll::Pending => {
                        &&& final(buf)@ == old(buf)@ + d
                        &&& forall|j: int| 0 <= j < d.len() ==> d[j] != 10u8
                        &&& dd.len() == 0
                        &&& !final(self).fin
                        &&& ({
                            let (c2, ns2, fin2, rb) = spec_next_byte(s0.0, s0.1, s0.2);
                            (final(self).cache@, final(self).next_seq, final(self).fin) == (
                                c2,
                                ns2,
                                fin2,
                            ) && rb is Pending
                        })
                    },
                    ReadPoll::End => {
                        &&& final(buf)@ == old(buf)@ + d
                        &&& forall|j: int| 0 <= j < d.len() ==> d[j] != 10u8
                        &&& dd.len() == 0
                        &&& final(self).fin
                        &&& ({
                            let (c2, ns2, fin2, rb) = spec_next_byte(s0.0, s0.1, s0.2);
                            (final(self).cache@, final(self).next_seq, final(self).fin) == (
                                c2,
                                ns2,
                                fin2,
                            ) && rb is End
                        })
                    },
                }
            }),
    {
        let ghost d = deliverable(old(self).cache@, old(self).next_seq, old(self).fin);
        let ghost buf0 = old(buf)@;
        loop
            invariant
                self.wf(),
                d == deliverable(old(self).cache@, old(self).next_seq, old(self).fin),
                buf0 == old(buf)@,
                buf0.len() <= buf@.len(),
                buf@ == buf0 + d.take(buf@.len() - buf0.len()),
                deliverable(self.cache@, self.next_seq, self.fin) == d.skip(
                    buf@.len() - buf0.len(),
                ),
                d.len() >= buf@.len() - buf0.len(),
                forall|j: int| 0 <= j < buf@.len() - buf0.len() ==> d[j] != 10u8,
                (self.cache@, self.next_seq, self.fin) == spec_read_k(
                    old(self).cache@,
                    old(self).next_seq,
                    old(self).fin,
                    (buf@.len() - buf0.len()) as nat,
                ),
            decreases d.len() - (buf@.len() - buf0.len()),
        {
            proof {
                lemma_byte_step(self.cache@, self.next_seq, self.fin);
            }
            let ghost k = buf@.len() - buf0.len();
            match self.next_byte() {
                BytePoll::Byte(b) => {
                    buf.push(b);
                    proof {
                        assert(d.skip(k)[0] == d[k]);
                        assert(d.take(k + 1) =~= d.take(k).push(d[k]));
                        assert(d.skip(k).drop_first() =~= d.skip(k + 1));
                    }
                    if b == 10u8 {
                        return ReadPoll::Ready;
                    }
                }
                BytePoll::Pending => {
                    proof {
                        assert(d.skip(k).len() == 0);
                        assert(d.take(k) =~= d);
                    }
                    return ReadPoll::Pending;
                }
                BytePoll::End => {
                    proof {
                        assert(d.skip(k).len() == 0);
                        assert(d.take(k) =~= d);
                    }
                    return ReadPoll::End;
                }
            }
        }
    }

    /// Surface the next strictly in-order frame as a discrete event,
    /// reporting `End` once the FIN has been observed and `Pending` while
    /// the next frame is missing.
    pub fn next_ord_pkt(&mut self) -> (r: PktPoll)
        requires
            old(self).wf(),
        ensures
            final(self).wf(),
            ({
                let (c1, ns1, fin1, ro) = spec_pop_ord(
                    old(self).cache@,
                    old(self).next_seq,
                    old(self).fin,
                );
                &&& final(self).cache@ == c1
                &&& final(self).next_seq == ns1
                &&& final(self).fin == fin1
                &&& match r {
                    PktPoll::Pkt(p) => ro == Some(p),
                    PktPoll::End => ro is None && fin1,
                    PktPoll::Pending => ro is None && !fin1,
                }
            }),
    {
        match self.pop_ord_pkt() {
            Some(p) => PktPoll::Pkt(p),
            None => {
                if self.fin {
                    PktPoll::End
                } else {
                    PktPoll::Pending
                }
            }
        }
    }

    /// Surface the current cache top without any sequence discipline: the
    /// frames come out in arrival-or-seq order, never `End`.  Useful for
    /// raw dumps.
    pub fn next_raw_ord_pkt(&mut self) -> (r: PktPoll)
        requires
            old(self).wf(),
        ensures
            final(self).wf(),
            old(self).cache@.len() == 0 ==> r is Pending && *final(self) == *old(self),
            old(self).cache@.len() > 0 ==> {
                &&& r == PktPoll::Pkt(old(self).cache@[0])
                &&& final(self).cache@ == old(self).cache@.drop_first()
                &&& final(self).next_seq == old(self).next_seq
                &&& final(self).fin == (old(self).fin || old(self).cache@[0].spec_fin())
            },
    {
        match self.pop_pkt() {
            Some(p) => PktPoll::Pkt(p),
            None => PktPoll::Pending,
        }
    }
}

impl Default for PktStrm {
    fn default() -> (r: Self)
        ensures
            r.wf(),
            r.cache@.len() == 0,
            r.next_seq == 0,
            !r.fin,
    {
        PktStrm::new()
    }
}

/// Inserting anywhere in a sequence inserts into its multiset.
proof fn lemma_insert_to_multiset(s: Seq<Packet>, i: int, v: Packet)
    requires
        0 <= i <= s.len(),
    ensures
        s.insert(i, v).to_multiset() == s.to_multiset().insert(v),
    decreases s.len(),
{
    broadcast use vstd::seq_lib::group_to_multiset_ensures;

    let t = s.insert(i, v);
    assert(t.remove(i) =~= s);
    assert(t[i] == v);
    assert(t.remove(i).to_multiset() =~= t.to_multiset().remove(t[i]));
    assert(t.to_multiset().contains(v));
    assert(t.to_multiset().remove(v).insert(v) =~= t.to_multiset());
    assert(s.to_multiset().insert(v) =~= t.to_multiset());
}

} // verus!
