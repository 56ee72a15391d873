//! Acknowledgement, retransmission and liveness bookkeeping.
//!
//! Times are nanosecond counts on one monotonic clock chosen by the caller;
//! an elapsed time is `now - then`, or zero when `now` is earlier.

use vstd::prelude::*;

use std::collections::{BTreeMap, BTreeSet};

use crate::transport::ordered_keys::{increasing_u64, keys_u64, lemma_increasing_same_members_u64};

use crate::transport::packet::{Ack, AckView, PacketKind, PacketView, TransportPacket};

verus! {

broadcast use vstd::laws_cmp::group_laws_cmp, vstd::std_specs::btree::group_btree_axioms;

/// Nanoseconds from `then` to `now`, zero when `now` is earlier.
pub open spec fn elapsed(now: u64, then: u64) -> u64 {
    if now >= then {
        (now - then) as u64
    } else {
        0
    }
}

/// A packet waiting for acknowledgement, and when it was last sent.
struct QueuedPacket {
    packet: TransportPacket,
    last_sent_ns: u64,
}

/// The mathematical value of a queued packet.
pub ghost struct QueuedView {
    pub packet: PacketView,
    pub last_sent_ns: u64,
}

spec fn queued_of(q: QueuedPacket) -> QueuedView {
    QueuedView { packet: q.packet@, last_sent_ns: q.last_sent_ns }
}

/// The packet sequences of `s`, in order.
pub open spec fn sequences_of(s: Seq<QueuedView>) -> Seq<u64> {
    s.map_values(|q: QueuedView| q.packet.header.packet_sequence)
}

/// Packet sequences strictly increase.
pub open spec fn sequence_ordered(s: Seq<QueuedView>) -> bool {
    forall|i: int, j: int|
        0 <= i < j < s.len() ==> s[i].packet.header.packet_sequence
            < s[j].packet.header.packet_sequence
}

/// `q` stored by sequence number in `s`, replacing a packet with the same
/// sequence.
pub open spec fn insert_queued(s: Seq<QueuedView>, q: QueuedView) -> Seq<QueuedView>
    decreases s.len(),
{
    if s.len() == 0 {
        seq![q]
    } else if s[0].packet.header.packet_sequence == q.packet.header.packet_sequence {
        seq![q] + s.skip(1)
    } else if s[0].packet.header.packet_sequence > q.packet.header.packet_sequence {
        seq![q] + s
    } else {
        seq![s[0]] + insert_queued(s.skip(1), q)
    }
}

/// Whether an acknowledgement covers `sequence`: at or below its
/// through-sequence and not listed missing.
pub open spec fn acked(a: AckView, sequence: u64) -> bool {
    sequence <= a.through && !a.missing.contains(sequence)
}

/// The packets of `s` that `a` does not acknowledge.
pub open spec fn unacked(s: Seq<QueuedView>, a: AckView) -> Seq<QueuedView>
    decreases s.len(),
{
    if s.len() == 0 {
        Seq::empty()
    } else if acked(a, s.last().packet.header.packet_sequence) {
        unacked(s.drop_last(), a)
    } else {
        unacked(s.drop_last(), a).push(s.last())
    }
}

/// The packets of `s` sent at least `timeout` ago, in sequence order.
pub open spec fn timed_out(s: Seq<QueuedView>, now: u64, timeout: u64) -> Seq<PacketView>
    decreases s.len(),
{
    if s.len() == 0 {
        Seq::empty()
    } else if elapsed(now, s.last().last_sent_ns) >= timeout {
        timed_out(s.drop_last(), now, timeout).push(s.last().packet)
    } else {
        timed_out(s.drop_last(), now, timeout)
    }
}

/// `s` with the packet of sequence `sequence` marked as sent at `now`.
pub open spec fn resent(s: Seq<QueuedView>, sequence: u64, now: u64) -> Seq<QueuedView> {
    Seq::new(
        s.len(),
        |i: int|
            if s[i].packet.header.packet_sequence == sequence {
                QueuedView { packet: s[i].packet, last_sent_ns: now }
            } else {
                s[i]
            },
    )
}

/// The mathematical values of some packets.
pub open spec fn packets_of(v: Seq<TransportPacket>) -> Seq<PacketView> {
    v.map_values(|p: TransportPacket| p@)
}

/// Frame fragments sent and not yet acknowledged, for retransmission after
/// a timeout, kept by packet sequence.
pub struct RetransmitWindow {
    timeout_ns: u64,
    in_flight: BTreeMap<u64, QueuedPacket>,
    ordered: Ghost<Seq<QueuedView>>,
}

/// The window's state: the timeout and the in-flight packets in sequence
/// order.
pub ghost struct RetransmitView {
    pub timeout_ns: u64,
    pub in_flight: Seq<QueuedView>,
}

impl View for RetransmitWindow {
    type V = RetransmitView;

    closed spec fn view(&self) -> RetransmitView {
        RetransmitView { timeout_ns: self.timeout_ns, in_flight: self.ordered@ }
    }
}

/// What `insert_queued` keeps: the new packet, and every packet of `s` with
/// another sequence.
proof fn lemma_insert_queued_members(s: Seq<QueuedView>, q: QueuedView)
    requires
        sequence_ordered(s),
    ensures
        insert_queued(s, q).contains(q),
        forall|i: int|
            0 <= i < insert_queued(s, q).len() ==> #[trigger] insert_queued(s, q)[i] == q || (s.contains(
                insert_queued(s, q)[i],
            ) && insert_queued(s, q)[i].packet.header.packet_sequence
                != q.packet.header.packet_sequence),
        forall|j: int|
            0 <= j < s.len() && s[j].packet.header.packet_sequence != q.packet.header.packet_sequence
                ==> insert_queued(s, q).contains(#[trigger] s[j]),
    decreases s.len(),
{
    let k = q.packet.header.packet_sequence;
    let r = insert_queued(s, q);
    if s.len() == 0 {
        assert(r[0] == q);
    } else if s[0].packet.header.packet_sequence == k {
        assert(r[0] == q);
        assert forall|i: int| 0 <= i < r.len() implies #[trigger] r[i] == q || (s.contains(r[i])
            && r[i].packet.header.packet_sequence != k) by {
            if i > 0 {
                assert(r[i] == s[i]);
            }
        }
        assert forall|j: int|
            0 <= j < s.len() && s[j].packet.header.packet_sequence != k implies r.contains(
            #[trigger] s[j],
        ) by {
            assert(r[j] == s[j]);
        }
    } else if s[0].packet.header.packet_sequence > k {
        assert(r[0] == q);
        assert forall|i: int| 0 <= i < r.len() implies #[trigger] r[i] == q || (s.contains(r[i])
            && r[i].packet.header.packet_sequence != k) by {
            if i > 0 {
                assert(r[i] == s[i - 1]);
            }
        }
        assert forall|j: int|
            0 <= j < s.len() && s[j].packet.header.packet_sequence != k implies r.contains(
            #[trigger] s[j],
        ) by {
            assert(r[j + 1] == s[j]);
        }
    } else {
        let t = s.skip(1);
        assert(sequence_ordered(t));
        lemma_insert_queued_members(t, q);
        let rt = insert_queued(t, q);
        assert(r == seq![s[0]] + rt);
        let w = choose|w: int| 0 <= w < rt.len() && rt[w] == q;
        assert(r[w + 1] == q);
        assert forall|i: int| 0 <= i < r.len() implies #[trigger] r[i] == q || (s.contains(r[i])
            && r[i].packet.header.packet_sequence != k) by {
            if i == 0 {
                assert(r[0] == s[0]);
            } else {
                assert(r[i] == rt[i - 1]);
                if rt[i - 1] != q {
                    let m = choose|m: int| 0 <= m < t.len() && t[m] == rt[i - 1];
                    assert(s[m + 1] == t[m]);
                }
            }
        }
        assert forall|j: int|
            0 <= j < s.len() && s[j].packet.header.packet_sequence != k implies r.contains(
            #[trigger] s[j],
        ) by {
            if j == 0 {
                assert(r[0] == s[0]);
            } else {
                assert(t[j - 1] == s[j]);
                assert(rt.contains(t[j - 1]));
                let m = choose|m: int| 0 <= m < rt.len() && rt[m] == t[j - 1];
                assert(r[m + 1] == s[j]);
            }
        }
    }
}

proof fn lemma_insert_queued_ordered(s: Seq<QueuedView>, q: QueuedView)
    requires
        sequence_ordered(s),
    ensures
        sequence_ordered(insert_queued(s, q)),
    decreases s.len(),
{
    if s.len() > 0 && s[0].packet.header.packet_sequence < q.packet.header.packet_sequence {
        let t = s.skip(1);
        assert(sequence_ordered(t));
        lemma_insert_queued_ordered(t, q);
        lemma_insert_queued_members(t, q);
        let r = insert_queued(t, q);
        assert forall|k: int| 0 <= k < r.len() implies s[0].packet.header.packet_sequence < #[trigger] r[k].packet.header.packet_sequence by {
            if r[k] != q {
                let j = choose|j: int| 0 <= j < t.len() && t[j] == r[k];
                assert(s[j + 1] == t[j]);
            }
        }
    } else if s.len() > 0 && s[0].packet.header.packet_sequence == q.packet.header.packet_sequence {
        let r = insert_queued(s, q);
        assert forall|k: int| 1 <= k < r.len() implies r[k] == s[k] by {}
    }
}

proof fn lemma_unacked_sub(s: Seq<QueuedView>, a: AckView)
    requires
        sequence_ordered(s),
    ensures
        sequence_ordered(unacked(s, a)),
        forall|x: QueuedView| #[trigger] unacked(s, a).contains(x) <==> (s.contains(x) && !acked(a, x.packet.header.packet_sequence)),
    decreases s.len(),
{
    if s.len() > 0 {
        let t = s.drop_last();
        assert(sequence_ordered(t));
        lemma_unacked_sub(t, a);
        let u = unacked(t, a);
        assert forall|k: int| 0 <= k < u.len() implies #[trigger] u[k].packet.header.packet_sequence < s.last().packet.header.packet_sequence by {
            assert(u.contains(u[k]));
            let j = choose|j: int| 0 <= j < t.len() && t[j] == u[k];
            assert(s[j] == t[j]);
        }
        assert forall|x: QueuedView| #[trigger] unacked(s, a).contains(x) <==> (s.contains(x) && !acked(a, x.packet.header.packet_sequence)) by {
            if s.contains(x) {
                let j = choose|j: int| 0 <= j < s.len() && s[j] == x;
                if j < s.len() - 1 {
                    assert(t[j] == x);
                }
            }
            if t.contains(x) {
                let j = choose|j: int| 0 <= j < t.len() && t[j] == x;
                assert(s[j] == x);
            }
            if !acked(a, s.last().packet.header.packet_sequence) {
                let w = u.push(s.last());
                if w.contains(x) {
                    let j = choose|j: int| 0 <= j < w.len() && w[j] == x;
                    if j < u.len() {
                        assert(u[j] == x);
                    }
                }
                if u.contains(x) {
                    let j = choose|j: int| 0 <= j < u.len() && u[j] == x;
                    assert(w[j] == x);
                }
                if x == s.last() {
                    assert(w[u.len() as int] == x);
                }
            }
        }
    } else {
        assert forall|x: QueuedView| #[trigger] unacked(s, a).contains(x) <==> (s.contains(x) && !acked(a, x.packet.header.packet_sequence)) by {
            if s.contains(x) {
                let j = choose|j: int| 0 <= j < s.len() && s[j] == x;
            }
        }
    }
}

/// The sequences of an ordered window increase.
proof fn lemma_sequences_increase(s: Seq<QueuedView>)
    requires
        sequence_ordered(s),
    ensures
        increasing_u64(sequences_of(s)),
        sequences_of(s).no_duplicates(),
        sequences_of(s).to_set().len() == s.len(),
        forall|x: u64| #[trigger] sequences_of(s).to_set().contains(x) <==> exists|i: int| 0 <= i < s.len() && s[i].packet.header.packet_sequence == x,
{
    let t = sequences_of(s);
    assert forall|i: int, j: int| 0 <= i < j < t.len() implies t[i] < t[j] by {
        assert(t[i] == s[i].packet.header.packet_sequence);
        assert(t[j] == s[j].packet.header.packet_sequence);
    }
    assert(t.no_duplicates()) by {
        assert forall|i: int, j: int| 0 <= i < t.len() && 0 <= j < t.len() && i != j implies t[i] != t[j] by {
            if i < j {
                assert(t[i] < t[j]);
            } else {
                assert(t[j] < t[i]);
            }
        }
    }
    t.unique_seq_to_set();
    assert forall|x: u64| #[trigger] t.to_set().contains(x) <==> exists|i: int| 0 <= i < s.len() && s[i].packet.header.packet_sequence == x by {
        if t.to_set().contains(x) {
            let i = choose|i: int| 0 <= i < t.len() && t[i] == x;
            assert(s[i].packet.header.packet_sequence == x);
        }
        if exists|i: int| 0 <= i < s.len() && s[i].packet.header.packet_sequence == x {
            let i = choose|i: int| 0 <= i < s.len() && s[i].packet.header.packet_sequence == x;
            assert(t[i] == x);
        }
    }
}

/// Whether `x` occurs in `v`.
fn contains_u64(v: &Vec<u64>, x: u64) -> (r: bool)
    ensures
        r == v@.contains(x),
{
    let mut k: usize = 0;
    while k < v.len()
        invariant
            k <= v@.len(),
            forall|j: int| 0 <= j < k ==> v@[j] != x,
        decreases v@.len() - k,
    {
        if v[k] == x {
            return true;
        }
        k = k + 1;
    }
    false
}

impl RetransmitWindow {
    #[verifier::type_invariant]
    spec fn inv(self) -> bool {
        &&& sequence_ordered(self.ordered@)
        &&& self.in_flight@.dom() == sequences_of(self.ordered@).to_set()
        &&& forall|i: int|
            0 <= i < self.ordered@.len() ==> queued_of(
                self.in_flight@[#[trigger] self.ordered@[i].packet.header.packet_sequence],
            ) == self.ordered@[i]
    }

    /// An empty window with the given retransmission timeout.
    pub fn new(timeout_ns: u64) -> (r: RetransmitWindow)
        ensures
            r@ == (RetransmitView { timeout_ns, in_flight: Seq::empty() }),
    {
        let in_flight = BTreeMap::new();
        proof {
            assert(sequences_of(Seq::<QueuedView>::empty()).to_set() =~= Set::<u64>::empty());
        }
        RetransmitWindow { timeout_ns, in_flight, ordered: Ghost(Seq::empty()) }
    }

    /// Records a sent packet. Only frame fragments are tracked; a packet with
    /// an already tracked sequence replaces it.
    pub fn track_sent(&mut self, packet: TransportPacket, now_ns: u64)
        ensures
            final(self)@.timeout_ns == old(self)@.timeout_ns,
            final(self)@.in_flight == if packet@.header.kind == PacketKind::FrameFragment {
                insert_queued(
                    old(self)@.in_flight,
                    QueuedView { packet: packet@, last_sent_ns: now_ns },
                )
            } else {
                old(self)@.in_flight
            },
    {
        if !packet.header.kind.is_frame_fragment() {
            return;
        }
        let mut taken = RetransmitWindow::new(0);
        std::mem::swap(self, &mut taken);
        proof {
            use_type_invariant(&taken);
        }
        let RetransmitWindow { timeout_ns, in_flight: mut map, ordered: Ghost(s) } = taken;
        let ghost old_map = map@;
        let ghost q = QueuedView { packet: packet@, last_sent_ns: now_ns };
        let sequence = packet.header.packet_sequence;
        map.insert(sequence, QueuedPacket { packet, last_sent_ns: now_ns });
        let ghost r = insert_queued(s, q);
        proof {
            lemma_insert_queued_ordered(s, q);
            lemma_insert_queued_members(s, q);
            lemma_sequences_increase(s);
            lemma_sequences_increase(r);
            assert forall|x: u64| #[trigger] map@.dom().contains(x) == sequences_of(r).to_set().contains(x) by {
                if x == sequence {
                    let w = choose|w: int| 0 <= w < r.len() && r[w] == q;
                    assert(r[w].packet.header.packet_sequence == x);
                } else if old_map.dom().contains(x) {
                    let j = choose|j: int| 0 <= j < s.len() && s[j].packet.header.packet_sequence == x;
                    assert(r.contains(s[j]));
                    let m = choose|m: int| 0 <= m < r.len() && r[m] == s[j];
                    assert(r[m].packet.header.packet_sequence == x);
                }
                if sequences_of(r).to_set().contains(x) {
                    let i = choose|i: int| 0 <= i < r.len() && r[i].packet.header.packet_sequence == x;
                    if r[i] != q {
                        let j = choose|j: int| 0 <= j < s.len() && s[j] == r[i];
                        assert(s[j].packet.header.packet_sequence == x);
                    }
                }
            }
            assert(map@.dom() =~= sequences_of(r).to_set());
            assert forall|i: int| 0 <= i < r.len() implies queued_of(
                map@[#[trigger] r[i].packet.header.packet_sequence],
            ) == r[i] by {
                if r[i] != q {
                    let j = choose|j: int| 0 <= j < s.len() && s[j] == r[i];
                    assert(queued_of(old_map[s[j].packet.header.packet_sequence]) == s[j]);
                }
            }
        }
        *self = RetransmitWindow { timeout_ns, in_flight: map, ordered: Ghost(r) };
    }

    /// Drops every tracked packet that the acknowledgement covers.
    pub fn apply_ack(&mut self, ack: &Ack)
        ensures
            final(self)@ == (RetransmitView {
                timeout_ns: old(self)@.timeout_ns,
                in_flight: unacked(old(self)@.in_flight, ack@),
            }),
    {
        let mut taken = RetransmitWindow::new(0);
        std::mem::swap(self, &mut taken);
        proof {
            use_type_invariant(&taken);
        }
        let RetransmitWindow { timeout_ns, in_flight: mut map, ordered: Ghost(s) } = taken;
        let ghost old_map = map@;
        let keys = keys_u64(&map);
        proof {
            lemma_sequences_increase(s);
            lemma_increasing_same_members_u64(keys@, sequences_of(s));
        }
        let n = keys.len();
        let mut i: usize = 0;
        while i < n
            invariant
                keys@ == sequences_of(s),
                n == keys@.len(),
                i <= n,
                forall|x: u64|
                    #[trigger] map@.contains_key(x) <==> (old_map.contains_key(x) && !(acked(ack@, x)
                        && keys@.take(i as int).contains(x))),
                forall|x: u64| #[trigger] map@.contains_key(x) ==> map@[x] == old_map[x],
            decreases n - i,
        {
            let key = keys[i];
            let listed = contains_u64(&ack.missing_packet_sequences, key);
            if key <= ack.through_packet_sequence && !listed {
                map.remove(&key);
            }
            proof {
                let t = keys@.take(i + 1);
                assert(t =~= keys@.take(i as int).push(key));
                assert forall|x: u64| #[trigger] t.contains(x) <==> (keys@.take(i as int).contains(x) || x == key) by {
                    if t.contains(x) {
                        let j = choose|j: int| 0 <= j < t.len() && t[j] == x;
                        if j < i {
                            assert(keys@.take(i as int)[j] == x);
                        }
                    }
                    if keys@.take(i as int).contains(x) {
                        let j = choose|j: int| 0 <= j < i && keys@.take(i as int)[j] == x;
                        assert(t[j] == x);
                    }
                    if x == key {
                        assert(t[i as int] == x);
                    }
                }
            }
            i = i + 1;
        }
        let ghost u = unacked(s, ack@);
        proof {
            assert(keys@.take(n as int) =~= keys@);
            lemma_unacked_sub(s, ack@);
            lemma_sequences_increase(u);
            assert forall|x: u64| #[trigger] map@.dom().contains(x) == sequences_of(u).to_set().contains(x) by {
                if map@.dom().contains(x) {
                    let j = choose|j: int| 0 <= j < s.len() && s[j].packet.header.packet_sequence == x;
                    assert(s.contains(s[j]));
                    assert(u.contains(s[j]));
                    let m = choose|m: int| 0 <= m < u.len() && u[m] == s[j];
                    assert(u[m].packet.header.packet_sequence == x);
                }
                if sequences_of(u).to_set().contains(x) {
                    let m = choose|m: int| 0 <= m < u.len() && u[m].packet.header.packet_sequence == x;
                    assert(u.contains(u[m]));
                    let j = choose|j: int| 0 <= j < s.len() && s[j] == u[m];
                    assert(sequences_of(s)[j] == x);
                }
            }
            assert(map@.dom() =~= sequences_of(u).to_set());
            assert forall|i: int| 0 <= i < u.len() implies queued_of(
                map@[#[trigger] u[i].packet.header.packet_sequence],
            ) == u[i] by {
                assert(u.contains(u[i]));
                let j = choose|j: int| 0 <= j < s.len() && s[j] == u[i];
                let key = s[j].packet.header.packet_sequence;
                assert(queued_of(old_map[key]) == s[j]);
                assert(sequences_of(s)[j] == key);
                assert(sequences_of(s).to_set().contains(key));
                assert(!acked(ack@, key));
                assert(map@.contains_key(key));
            }
        }
        *self = RetransmitWindow { timeout_ns, in_flight: map, ordered: Ghost(u) };
    }

    /// The tracked packets sent at least the timeout before `now_ns`, in
    /// sequence order.
    pub fn expired(&self, now_ns: u64) -> (r: Vec<TransportPacket>)
        ensures
            packets_of(r@) == timed_out(self@.in_flight, now_ns, self@.timeout_ns),
    {
        proof {
            use_type_invariant(self);
        }
        let ghost s = self.ordered@;
        let keys = keys_u64(&self.in_flight);
        proof {
            lemma_sequences_increase(s);
            lemma_increasing_same_members_u64(keys@, sequences_of(s));
        }
        let mut out: Vec<TransportPacket> = Vec::new();
        let mut i: usize = 0;
        while i < keys.len()
            invariant
                keys@ == sequences_of(s),
                s == self.ordered@,
                self.in_flight@.dom() == sequences_of(s).to_set(),
                forall|j: int|
                    0 <= j < s.len() ==> queued_of(self.in_flight@[#[trigger] s[j].packet.header.packet_sequence]) == s[j],
                i <= keys@.len(),
                packets_of(out@) == timed_out(s.subrange(0, i as int), now_ns, self.timeout_ns),
            decreases keys@.len() - i,
        {
            let key = keys[i];
            proof {
                assert(keys@[i as int] == s[i as int].packet.header.packet_sequence);
                assert(sequences_of(s).to_set().contains(key));
            }
            match self.in_flight.get(&key) {
                Some(q) => {
                    proof {
                        assert(queued_of(*q) == s[i as int]);
                    }
                    let waited = if now_ns >= q.last_sent_ns {
                        now_ns - q.last_sent_ns
                    } else {
                        0
                    };
                    if waited >= self.timeout_ns {
                        out.push(q.packet.duplicate());
                    }
                },
                None => {
                    proof {
                        assert(false);
                    }
                },
            }
            proof {
                assert(s.subrange(0, i + 1).drop_last() =~= s.subrange(0, i as int));
                assert(packets_of(out@) =~= timed_out(s.subrange(0, i + 1), now_ns, self.timeout_ns));
            }
            i = i + 1;
        }
        assert(s.subrange(0, i as int) =~= s);
        out
    }

    /// Marks the packet with sequence `packet_sequence` as sent again at
    /// `now_ns`; nothing changes when it is not tracked.
    pub fn mark_resent(&mut self, packet_sequence: u64, now_ns: u64)
        ensures
            final(self)@ == (RetransmitView {
                timeout_ns: old(self)@.timeout_ns,
                in_flight: resent(old(self)@.in_flight, packet_sequence, now_ns),
            }),
    {
        let mut taken = RetransmitWindow::new(0);
        std::mem::swap(self, &mut taken);
        proof {
            use_type_invariant(&taken);
        }
        let RetransmitWindow { timeout_ns, in_flight: mut map, ordered: Ghost(s) } = taken;
        let ghost old_map = map@;
        match map.remove(&packet_sequence) {
            Some(q) => {
                let ghost before = q;
                map.insert(packet_sequence, QueuedPacket { packet: q.packet, last_sent_ns: now_ns });
                proof {
                    assert(old_map.contains_key(packet_sequence) && old_map[packet_sequence] == before);
                    assert(map@ =~= old_map.insert(packet_sequence, QueuedPacket { packet: before.packet, last_sent_ns: now_ns }));
                }
            },
            None => {
                proof {
                    assert(!old_map.contains_key(packet_sequence));
                    assert(map@ =~= old_map);
                }
            },
        }
        let ghost u = resent(s, packet_sequence, now_ns);
        proof {
            lemma_sequences_increase(s);
            assert(sequences_of(u) =~= sequences_of(s));
            assert forall|a: int, b: int| 0 <= a < b < u.len() implies u[a].packet.header.packet_sequence < u[b].packet.header.packet_sequence by {
                assert(u[a].packet == s[a].packet);
                assert(u[b].packet == s[b].packet);
            }
            assert(map@.dom() =~= sequences_of(u).to_set());
            assert forall|i: int| 0 <= i < u.len() implies queued_of(
                map@[#[trigger] u[i].packet.header.packet_sequence],
            ) == u[i] by {
                assert(u[i].packet == s[i].packet);
                assert(queued_of(old_map[s[i].packet.header.packet_sequence]) == s[i]);
                if s[i].packet.header.packet_sequence == packet_sequence {
                    assert(sequences_of(s).to_set().contains(packet_sequence));
                }
            }
        }
        *self = RetransmitWindow { timeout_ns, in_flight: map, ordered: Ghost(u) };
    }

    /// Number of tracked packets.
    pub fn len(&self) -> (r: usize)
        ensures
            r == self@.in_flight.len(),
    {
        proof {
            use_type_invariant(self);
            lemma_sequences_increase(self.ordered@);
        }
        self.in_flight.len()
    }

    /// Whether nothing waits for acknowledgement.
    pub fn is_empty(&self) -> (r: bool)
        ensures
            r == (self@.in_flight.len() == 0),
    {
        self.len() == 0
    }
}

/// How many sequences `next, next + 1, ...` open the sorted `s`.
pub open spec fn contiguous_run(s: Seq<u64>, next: int) -> nat
    decreases s.len(),
{
    if s.len() > 0 && s[0] == next {
        1 + contiguous_run(s.skip(1), next + 1)
    } else {
        0
    }
}

/// `x` added to the sorted `s` unless already there.
pub open spec fn insert_sorted_u64(s: Seq<u64>, x: u64) -> Seq<u64>
    decreases s.len(),
{
    if s.len() == 0 {
        seq![x]
    } else if s[0] == x {
        s
    } else if s[0] > x {
        seq![x] + s
    } else {
        seq![s[0]] + insert_sorted_u64(s.skip(1), x)
    }
}

/// The sequences in `lo..hi` that `s` does not hold, in increasing order.
pub open spec fn gaps(lo: int, hi: int, s: Seq<u64>) -> Seq<u64>
    decreases hi - lo,
{
    if hi <= lo {
        Seq::empty()
    } else if s.contains((hi - 1) as u64) {
        gaps(lo, hi - 1, s)
    } else {
        gaps(lo, hi - 1, s).push((hi - 1) as u64)
    }
}

/// Receiver-side acknowledgement state: the highest sequence received with
/// no gap before it, and the sequences received beyond a gap.
pub struct ReceiverAcks {
    highest_contiguous: u64,
    received_out_of_order: BTreeSet<u64>,
    /// The same sequences in increasing order.
    ordered: Ghost<Seq<u64>>,
}

/// The receiver state: the contiguous mark and the later sequences received, in order.
pub ghost struct AcksView {
    pub highest_contiguous: u64,
    pub out_of_order: Seq<u64>,
}

impl View for ReceiverAcks {
    type V = AcksView;

    closed spec fn view(&self) -> AcksView {
        AcksView {
            highest_contiguous: self.highest_contiguous,
            out_of_order: self.ordered@,
        }
    }
}

/// The state after receiving `sequence`: the next expected sequence advances
/// the contiguous mark through every out-of-order sequence that now follows
/// it; a later one is remembered; an earlier or repeated one changes
/// nothing.
pub open spec fn spec_observe(v: AcksView, sequence: u64) -> AcksView {
    if sequence == v.highest_contiguous + 1 {
        let k = contiguous_run(v.out_of_order, sequence + 1);
        AcksView { highest_contiguous: (sequence + k) as u64, out_of_order: v.out_of_order.skip(k as int) }
    } else if sequence > v.highest_contiguous + 1 {
        AcksView {
            highest_contiguous: v.highest_contiguous,
            out_of_order: insert_sorted_u64(v.out_of_order, sequence),
        }
    } else {
        v
    }
}

/// The acknowledgement for a state: through the contiguous mark, listing
/// every gap below the highest out-of-order sequence.
pub open spec fn spec_ack_for(v: AcksView) -> AckView {
    AckView {
        through: v.highest_contiguous,
        missing: if v.out_of_order.len() == 0 {
            Seq::empty()
        } else {
            gaps(v.highest_contiguous + 1, v.out_of_order.last() as int, v.out_of_order)
        },
    }
}

proof fn lemma_run_facts(s: Seq<u64>, next: int, j: int)
    requires
        0 <= j < contiguous_run(s, next),
    ensures
        contiguous_run(s, next) <= s.len(),
        s[j] == next + j,
        contiguous_run(s.skip(j), next + j) == contiguous_run(s, next) - j,
    decreases s.len(),
{
    if j > 0 {
        lemma_run_facts(s.skip(1), next + 1, j - 1);
        assert(s.skip(1).skip(j - 1) =~= s.skip(j));
    } else {
        assert(s.skip(0) =~= s);
    }
    lemma_run_len(s, next);
}

proof fn lemma_run_len(s: Seq<u64>, next: int)
    ensures
        contiguous_run(s, next) <= s.len(),
    decreases s.len(),
{
    if s.len() > 0 && s[0] == next {
        lemma_run_len(s.skip(1), next + 1);
    }
}

proof fn lemma_run_end(s: Seq<u64>, next: int, k: int)
    requires
        k == contiguous_run(s, next),
    ensures
        k <= s.len(),
        k < s.len() ==> s[k] != next + k,
    decreases s.len(),
{
    lemma_run_len(s, next);
    if s.len() > 0 && s[0] == next {
        lemma_run_end(s.skip(1), next + 1, k - 1);
    }
}

impl ReceiverAcks {
    #[verifier::type_invariant]
    spec fn inv(self) -> bool {
        &&& self.highest_contiguous < u64::MAX
        &&& increasing_u64(self.ordered@)
        &&& forall|i: int| 0 <= i < self.ordered@.len() ==> self.highest_contiguous + 1 < #[trigger] self.ordered@[i]
        &&& self.received_out_of_order@ == self.ordered@.to_set()
    }

    /// Nothing received yet.
    pub fn new() -> (r: ReceiverAcks)
        ensures
            r@ == (AcksView { highest_contiguous: 0, out_of_order: Seq::empty() }),
    {
        let set = BTreeSet::new();
        proof {
            assert(Seq::<u64>::empty().to_set() =~= Set::<u64>::empty());
        }
        ReceiverAcks { highest_contiguous: 0, received_out_of_order: set, ordered: Ghost(Seq::empty()) }
    }

    /// Records receipt of `packet_sequence` and returns the acknowledgement
    /// for the new state. The contiguous mark must stay below `u64::MAX`.
    pub fn observe(&mut self, packet_sequence: u64) -> (r: Ack)
        requires
            spec_observe(old(self)@, packet_sequence).highest_contiguous < u64::MAX,
        ensures
            final(self)@ == spec_observe(old(self)@, packet_sequence),
            r@ == spec_ack_for(final(self)@),
    {
        proof {
            use_type_invariant(&*self);
        }
        let ghost v = self@;
        let mut taken = ReceiverAcks::new();
        std::mem::swap(self, &mut taken);
        proof {
            use_type_invariant(&taken);
        }
        let ReceiverAcks { highest_contiguous: mut hc, received_out_of_order: mut set, ordered: Ghost(mut ordered) } = taken;
        if packet_sequence == hc + 1 {
            proof {
                let k = contiguous_run(v.out_of_order, packet_sequence + 1) as int;
                if k > 0 {
                    lemma_run_facts(v.out_of_order, packet_sequence + 1, k - 1);
                    assert(v.out_of_order[k - 1] == packet_sequence + k);
                }
            }
            hc = advance_contiguous(&mut set, Ghost(ordered), packet_sequence);
            proof {
                let k = contiguous_run(v.out_of_order, packet_sequence + 1) as int;
                lemma_skip_run_ordered(v.out_of_order, packet_sequence, k);
                ordered = v.out_of_order.skip(k);
            }
        } else if packet_sequence > hc + 1 {
            insert_out_of_order(&mut set, Ghost(ordered), packet_sequence);
            proof {
                lemma_insert_sorted_props(v.out_of_order, packet_sequence);
                ordered = insert_sorted_u64(v.out_of_order, packet_sequence);
                let s = ordered;
                assert forall|i: int| 0 <= i < s.len() implies hc + 1 < #[trigger] s[i] by {
                    assert(s.contains(s[i]));
                }
            }
        }
        *self = ReceiverAcks { highest_contiguous: hc, received_out_of_order: set, ordered: Ghost(ordered) };
        let missing = missing_below_last(hc, &self.received_out_of_order, Ghost(ordered));
        Ack { through_packet_sequence: hc, missing_packet_sequences: missing }
    }
}

/// After the run that follows `first` is taken off the front, the rest is
/// still strictly increasing and lies above the new mark plus one.
proof fn lemma_skip_run_ordered(s: Seq<u64>, first: u64, k: int)
    requires
        increasing_u64(s),
        k == contiguous_run(s, first + 1),
        forall|i: int| 0 <= i < s.len() ==> first < #[trigger] s[i],
    ensures
        k <= s.len(),
        increasing_u64(s.skip(k)),
        forall|i: int| 0 <= i < s.skip(k).len() ==> first + k + 1 < #[trigger] s.skip(k)[i],
{
    lemma_run_end(s, first + 1, k);
    let t = s.skip(k);
    assert forall|i: int| 0 <= i < t.len() implies first + k + 1 < #[trigger] t[i] by {
        assert(t[i] == s[k + i]);
        if k > 0 {
            lemma_run_facts(s, first + 1, k - 1);
        }
        if i > 0 {
            assert(s[k] < s[k + i]);
        }
    }
    assert forall|a: int, b: int| 0 <= a < b < t.len() implies t[a] < t[b] by {
        assert(t[a] == s[k + a]);
        assert(t[b] == s[k + b]);
    }
}

/// Removes from `set`, whose members in increasing order are `s`, the run
/// of sequences that follows `first`, returning the new contiguous mark.
#[verifier::spinoff_prover]
#[verifier::rlimit(30)]
fn advance_contiguous(set: &mut BTreeSet<u64>, Ghost(s): Ghost<Seq<u64>>, first: u64) -> (hc: u64)
    requires
        old(set)@ == s.to_set(),
        increasing_u64(s),
        first + contiguous_run(s, first + 1) < u64::MAX,
        forall|i: int| 0 <= i < s.len() ==> first < #[trigger] s[i],
    ensures
        hc == first + contiguous_run(s, first + 1),
        final(set)@ == s.skip(contiguous_run(s, first + 1) as int).to_set(),
{

    let ghost k: int = contiguous_run(s, first + 1) as int;
    proof {
        lemma_run_len(s, first + 1);
        lemma_run_end(s, first + 1, k);
        assert(s.skip(0) =~= s);
    }
    let mut hc = first;
    let ghost mut j: int = 0;
    loop
        invariant
            0 <= j <= k,
            k == contiguous_run(s, first + 1),
            k <= s.len(),
            k < s.len() ==> s[k] != first + 1 + k,
            hc == first + j,
            first + k < u64::MAX,
            increasing_u64(s),
            forall|i: int| 0 <= i < s.len() ==> first < #[trigger] s[i],
            set@ == s.skip(j).to_set(),
        ensures
            hc == first + k,
            set@ == s.skip(k).to_set(),
        decreases k - j,
    {
        let next = hc + 1;
        let ghost before = set@;
        let removed = set.remove(&next);
        if !removed {
            proof {
                if j < k {
                    lemma_run_facts(s, first + 1, j);
                    assert(s.skip(j)[0] == next);
                    assert(s.skip(j).contains(next));
                }
            }
            break;
        }
        proof {
            assert(s.skip(j).contains(next));
            let i = choose|i: int| 0 <= i < s.skip(j).len() && #[trigger] s.skip(j)[i] == next;
            assert(s[j + i] == next);
            if i > 0 {
                assert(s[j] < s[j + i]);
            }
            if j > 0 {
                lemma_run_facts(s, first + 1, j - 1);
                assert(s[j - 1] < s[j]);
            }
            assert(s[j] == first + 1 + j);
            assert(j < k);
            assert forall|x: u64| #[trigger] set@.contains(x) == s.skip(j + 1).to_set().contains(x) by {
                if s.skip(j + 1).contains(x) {
                    let t = choose|t: int| 0 <= t < s.skip(j + 1).len() && #[trigger] s.skip(j + 1)[t] == x;
                    assert(s.skip(j)[t + 1] == x);
                    assert(s[j] < s[j + 1 + t]);
                }
                if before.contains(x) && x != next {
                    let t = choose|t: int| 0 <= t < s.skip(j).len() && #[trigger] s.skip(j)[t] == x;
                    assert(t > 0);
                    assert(s.skip(j + 1)[t - 1] == x);
                }
            }
            assert(set@ =~= s.skip(j + 1).to_set());
            j = j + 1;
        }
        hc = next;
    }
    hc
}

/// Adds `x` to `set`, whose members in increasing order are `s`.
fn insert_out_of_order(set: &mut BTreeSet<u64>, Ghost(s): Ghost<Seq<u64>>, x: u64)
    requires
        old(set)@ == s.to_set(),
        increasing_u64(s),
    ensures
        final(set)@ == insert_sorted_u64(s, x).to_set(),
{

    set.insert(x);
    proof {
        lemma_insert_sorted_props(s, x);
        assert(set@ =~= insert_sorted_u64(s, x).to_set());
    }
}

/// Every member of `insert_sorted_u64(s, x)` is `x` or a member of `s`.
proof fn lemma_insert_sorted_members(s: Seq<u64>, x: u64, y: u64)
    requires
        insert_sorted_u64(s, x).contains(y),
    ensures
        y == x || s.contains(y),
    decreases s.len(),
{
    if s.len() == 0 {
    } else if s[0] == x {
    } else if s[0] > x {
        let r = seq![x] + s;
        let i = choose|i: int| 0 <= i < r.len() && r[i] == y;
        if i > 0 {
            assert(s[i - 1] == y);
        }
    } else {
        let r = insert_sorted_u64(s.skip(1), x);
        let w = seq![s[0]] + r;
        let i = choose|i: int| 0 <= i < w.len() && w[i] == y;
        if i > 0 {
            assert(r[i - 1] == y);
            lemma_insert_sorted_members(s.skip(1), x, y);
            if s.skip(1).contains(y) {
                let t = choose|t: int| 0 <= t < s.skip(1).len() && s.skip(1)[t] == y;
                assert(s[t + 1] == y);
            }
        } else {
            assert(s[0] == y);
        }
    }
}

/// The sequences after `hc` and below the last member of `set` (whose
/// members in increasing order are `s`) that `set` does not hold.
#[verifier::rlimit(30)]
fn missing_below_last(hc: u64, set: &BTreeSet<u64>, Ghost(s): Ghost<Seq<u64>>) -> (missing: Vec<u64>)
    requires
        set@ == s.to_set(),
        increasing_u64(s),
        forall|i: int| 0 <= i < s.len() ==> hc + 1 < #[trigger] s[i],
    ensures
        missing@ == spec_ack_for(AcksView { highest_contiguous: hc, out_of_order: s }).missing,
{

    proof {
        assert(s.no_duplicates());
        s.unique_seq_to_set();
    }
    let n = set.len();
    let mut missing: Vec<u64> = Vec::new();
    if n == 0 {
        return missing;
    }
    proof {
        assert(hc + 1 < s[0]);
    }
    let mut found: usize = 0;
    let mut t: u64 = hc + 1;
    loop
        invariant
            n == s.len(),
            n > 0,
            set@ == s.to_set(),
            increasing_u64(s),
            forall|i: int| 0 <= i < s.len() ==> hc + 1 < #[trigger] s[i],
            found <= n,
            hc + 1 <= t,
            found < n ==> t <= s[found as int],
            found < n && found > 0 ==> s[found - 1] < t,
            found < n ==> missing@ == gaps(hc + 1, t as int, s),
            found == n ==> t == s[n - 1] && missing@ == gaps(hc + 1, t as int, s),
        ensures
            found == n,
            t == s[n - 1],
            missing@ == gaps(hc + 1, t as int, s),
        decreases n - found, s[n - 1] - t,
    {
        if found == n {
            break;
        }
        let ghost t0 = t;
        if set.contains(&t) {
            proof {
                assert(s.contains(t));
                let i = choose|i: int| 0 <= i < s.len() && s[i] == t;
                if i > found {
                    assert(s[found as int] < s[i]);
                }
                if i < found {
                    assert(s[i] <= s[found - 1]);
                }
                assert(s[found as int] == t);
            }
            found = found + 1;
            if found < n {
                proof {
                    assert(s[found - 1] < s[found as int]);
                    assert(!s.contains(t) ==> false);
                }
                t = t + 1;
                proof {
                    assert(gaps(hc + 1, t as int, s) == gaps(hc + 1, t0 as int, s));
                }
            }
        } else {
            proof {
                assert(!s.contains(t));
                if t == s[found as int] {
                    assert(s.contains(t));
                }
                assert(t < s[found as int]);
            }
            missing.push(t);
            t = t + 1;
            proof {
                assert(missing@ =~= gaps(hc + 1, t as int, s));
            }
        }
    }
    missing
}

impl Default for ReceiverAcks {
    fn default() -> (r: ReceiverAcks)
        ensures
            r@ == (AcksView { highest_contiguous: 0, out_of_order: Seq::empty() }),
    {
        ReceiverAcks::new()
    }
}

/// Detects a silent peer: disconnected once no heartbeat was seen for the
/// timeout.
pub struct HeartbeatMonitor {
    timeout_ns: u64,
    last_seen_ns: u64,
}

/// The monitor's timeout and when it last heard the peer.
pub ghost struct HeartbeatView {
    pub timeout_ns: u64,
    pub last_seen_ns: u64,
}

impl View for HeartbeatMonitor {
    type V = HeartbeatView;

    closed spec fn view(&self) -> HeartbeatView {
        HeartbeatView { timeout_ns: self.timeout_ns, last_seen_ns: self.last_seen_ns }
    }
}

impl HeartbeatMonitor {
    /// A monitor that last heard the peer at `now_ns`.
    pub fn new(timeout_ns: u64, now_ns: u64) -> (r: HeartbeatMonitor)
        ensures
            r@ == (HeartbeatView { timeout_ns, last_seen_ns: now_ns }),
    {
        HeartbeatMonitor { timeout_ns, last_seen_ns: now_ns }
    }

    /// Records a sign of life at `now_ns`.
    pub fn observe(&mut self, now_ns: u64)
        ensures
            final(self)@ == (HeartbeatView { timeout_ns: old(self)@.timeout_ns, last_seen_ns: now_ns }),
    {
        self.last_seen_ns = now_ns;
    }

    /// True once at least the timeout has passed since the last sign of life.
    pub fn is_disconnected(&self, now_ns: u64) -> (r: bool)
        ensures
            r == (elapsed(now_ns, self@.last_seen_ns) >= self@.timeout_ns),
    {
        let waited = if now_ns >= self.last_seen_ns {
            now_ns - self.last_seen_ns
        } else {
            0
        };
        waited >= self.timeout_ns
    }
}

/// `x` is a member of the sorted `s` once added to it.
proof fn lemma_insert_sorted_contains(s: Seq<u64>, x: u64)
    ensures
        insert_sorted_u64(s, x).contains(x),
    decreases s.len(),
{
    if s.len() == 0 {
        assert(seq![x][0] == x);
    } else if s[0] == x {
        assert(s[0] == x);
    } else if s[0] > x {
        assert((seq![x] + s)[0] == x);
    } else {
        lemma_insert_sorted_contains(s.skip(1), x);
        let r = insert_sorted_u64(s.skip(1), x);
        let i = choose|i: int| 0 <= i < r.len() && r[i] == x;
        assert((seq![s[0]] + r)[i + 1] == x);
    }
}

/// A gap lies in `lo..hi` and is not held by `s`.
proof fn lemma_gap_members(lo: int, hi: int, s: Seq<u64>, y: u64)
    requires
        0 <= lo,
        hi <= u64::MAX + 1,
        gaps(lo, hi, s).contains(y),
    ensures
        lo <= y < hi,
        !s.contains(y),
    decreases hi - lo,
{
    if hi > lo {
        let g = gaps(lo, hi - 1, s);
        if s.contains((hi - 1) as u64) {
            lemma_gap_members(lo, hi - 1, s, y);
        } else if y != (hi - 1) as u64 {
            let gp = g.push((hi - 1) as u64);
            let i = choose|i: int| 0 <= i < gp.len() && #[trigger] gp[i] == y;
            assert(g[i] == y);
            lemma_gap_members(lo, hi - 1, s, y);
        }
    }
}

/// A received sequence is never reported missing by the acknowledgement
/// that follows it, and receiving never lowers the contiguous mark.
pub proof fn lemma_observed_never_missing(v: AcksView, sequence: u64)
    requires
        spec_observe(v, sequence).highest_contiguous < u64::MAX,
    ensures
        spec_observe(v, sequence).highest_contiguous >= v.highest_contiguous,
        !spec_ack_for(spec_observe(v, sequence)).missing.contains(sequence),
{
    let w = spec_observe(v, sequence);
    if sequence == v.highest_contiguous + 1 {
        let k = contiguous_run(v.out_of_order, sequence + 1) as int;
        if k > 0 {
            lemma_run_facts(v.out_of_order, sequence + 1, k - 1);
        }
    }
    if sequence > v.highest_contiguous + 1 {
        lemma_insert_sorted_contains(v.out_of_order, sequence);
    }
    if w.out_of_order.len() > 0 && spec_ack_for(w).missing.contains(sequence) {
        lemma_gap_members(
            w.highest_contiguous + 1,
            w.out_of_order.last() as int,
            w.out_of_order,
            sequence,
        );
    }
}

/// After an acknowledgement, a packet stays in flight exactly when it was in
/// flight and the acknowledgement does not cover it.
pub proof fn lemma_ack_drops_exactly_acked(s: Seq<QueuedView>, a: AckView, q: QueuedView)
    ensures
        unacked(s, a).contains(q) <==> (s.contains(q) && !acked(a, q.packet.header.packet_sequence)),
    decreases s.len(),
{
    if s.len() > 0 {
        let prev = s.drop_last();
        lemma_ack_drops_exactly_acked(prev, a, q);
        assert(s =~= prev.push(s.last()));
        if s.contains(q) && q != s.last() {
            let i = choose|i: int| 0 <= i < s.len() && s[i] == q;
            assert(prev[i] == q);
        }
        if prev.contains(q) {
            let i = choose|i: int| 0 <= i < prev.len() && prev[i] == q;
            assert(s[i] == q);
        }
        if !acked(a, s.last().packet.header.packet_sequence) {
            let u = unacked(prev, a);
            if u.push(s.last()).contains(q) && q != s.last() {
                let i = choose|i: int| 0 <= i < u.push(s.last()).len() && u.push(s.last())[i] == q;
                assert(u[i] == q);
            }
            if u.contains(q) {
                let i = choose|i: int| 0 <= i < u.len() && u[i] == q;
                assert(u.push(s.last())[i] == q);
            }
            assert(u.push(s.last())[u.len() as int] == s.last());
        }
        assert(s[s.len() - 1] == s.last());
    }
}

/// A packet is due for resending at `now` exactly when it is in flight and
/// was last sent at least `timeout` ago.
proof fn lemma_timed_out_members(s: Seq<QueuedView>, now: u64, timeout: u64, p: PacketView)
    ensures
        timed_out(s, now, timeout).contains(p) <==> exists|i: int|
            0 <= i < s.len() && #[trigger] s[i].packet == p && elapsed(now, s[i].last_sent_ns) >= timeout,
    decreases s.len(),
{
    if s.len() > 0 {
        let prev = s.drop_last();
        let n = s.len() - 1;
        lemma_timed_out_members(prev, now, timeout, p);
        let t = timed_out(prev, now, timeout);
        if timed_out(s, now, timeout).contains(p) {
            if elapsed(now, s[n].last_sent_ns) >= timeout && p == s[n].packet {
                assert(s[n].packet == p);
            } else {
                if elapsed(now, s[n].last_sent_ns) >= timeout {
                    let k = choose|k: int| 0 <= k < t.push(s[n].packet).len() && t.push(s[n].packet)[k] == p;
                    assert(t[k] == p);
                }
                let i = choose|i: int| 0 <= i < prev.len() && #[trigger] prev[i].packet == p && elapsed(now, prev[i].last_sent_ns) >= timeout;
                assert(s[i] == prev[i]);
            }
        }
        if exists|i: int| 0 <= i < s.len() && #[trigger] s[i].packet == p && elapsed(now, s[i].last_sent_ns) >= timeout {
            let i = choose|i: int| 0 <= i < s.len() && #[trigger] s[i].packet == p && elapsed(now, s[i].last_sent_ns) >= timeout;
            if i == n {
                assert(t.push(s[n].packet)[t.len() as int] == p);
            } else {
                assert(prev[i] == s[i]);
                let k = choose|k: int| 0 <= k < t.len() && t[k] == p;
                if elapsed(now, s[n].last_sent_ns) >= timeout {
                    assert(t.push(s[n].packet)[k] == p);
                }
            }
        }
    }
}

/// Marking an in-flight packet resent at `t` restarts its timeout: it is due
/// again at `now` exactly when `now - t` reaches the timeout. The other
/// packets and the number in flight are unchanged, and marking a sequence
/// that is not in flight changes nothing.
pub proof fn lemma_resent_restarts_timeout(
    s: Seq<QueuedView>,
    sequence: u64,
    t: u64,
    now: u64,
    timeout: u64,
    i: int,
)
    requires
        sequence_ordered(s),
        0 <= i < s.len(),
        s[i].packet.header.packet_sequence == sequence,
    ensures
        timed_out(resent(s, sequence, t), now, timeout).contains(s[i].packet) <==> elapsed(now, t)
            >= timeout,
        resent(s, sequence, t).len() == s.len(),
        forall|j: int| 0 <= j < s.len() && j != i ==> #[trigger] resent(s, sequence, t)[j] == s[j],
        resent(s, sequence, t)[i] == (QueuedView { packet: s[i].packet, last_sent_ns: t }),
{
    let r = resent(s, sequence, t);
    assert forall|j: int| 0 <= j < s.len() && j != i implies #[trigger] r[j] == s[j] by {
        if j < i {
            assert(s[j].packet.header.packet_sequence < s[i].packet.header.packet_sequence);
        } else {
            assert(s[i].packet.header.packet_sequence < s[j].packet.header.packet_sequence);
        }
    }
    lemma_timed_out_members(r, now, timeout, s[i].packet);
    if timed_out(r, now, timeout).contains(s[i].packet) {
        let j = choose|j: int| 0 <= j < r.len() && #[trigger] r[j].packet == s[i].packet && elapsed(now, r[j].last_sent_ns) >= timeout;
        if j != i {
            assert(r[j] == s[j]);
            assert(s[j].packet.header.packet_sequence != s[i].packet.header.packet_sequence);
        }
    }
    if elapsed(now, t) >= timeout {
        assert(r[i].packet == s[i].packet);
    }
}

/// Marking a sequence that is not in flight as resent changes nothing.
pub proof fn lemma_resent_absent(s: Seq<QueuedView>, sequence: u64, t: u64)
    requires
        forall|i: int| 0 <= i < s.len() ==> s[i].packet.header.packet_sequence != sequence,
    ensures
        resent(s, sequence, t) == s,
{
    assert(resent(s, sequence, t) =~= s);
}

/// Inserting into a strictly increasing sequence keeps it strictly
/// increasing, adds `x`, and keeps every member.
proof fn lemma_insert_sorted_props(s: Seq<u64>, x: u64)
    requires
        increasing_u64(s),
    ensures
        increasing_u64(insert_sorted_u64(s, x)),
        forall|y: u64| #[trigger] insert_sorted_u64(s, x).contains(y) <==> (y == x || s.contains(y)),
    decreases s.len(),
{
    let r = insert_sorted_u64(s, x);
    lemma_insert_sorted_contains(s, x);
    assert forall|y: u64| #[trigger] r.contains(y) implies (y == x || s.contains(y)) by {
        lemma_insert_sorted_members(s, x, y);
    }
    if s.len() == 0 {
    } else if s[0] == x {
    } else if s[0] > x {
        let w = seq![x] + s;
        assert forall|y: u64| s.contains(y) implies #[trigger] r.contains(y) by {
            let i = choose|i: int| 0 <= i < s.len() && s[i] == y;
            assert(w[i + 1] == y);
        }
        assert forall|a: int, b: int| 0 <= a < b < w.len() implies w[a] < w[b] by {
            if a > 0 {
                assert(w[a] == s[a - 1] && w[b] == s[b - 1]);
            } else {
                assert(w[b] == s[b - 1]);
                assert(s[0] <= s[b - 1]);
            }
        }
    } else {
        let t = s.skip(1);
        assert(increasing_u64(t)) by {
            assert forall|a: int, b: int| 0 <= a < b < t.len() implies t[a] < t[b] by {
                assert(t[a] == s[a + 1] && t[b] == s[b + 1]);
            }
        }
        lemma_insert_sorted_props(t, x);
        let rt = insert_sorted_u64(t, x);
        let w = seq![s[0]] + rt;
        assert forall|y: u64| s.contains(y) implies #[trigger] r.contains(y) by {
            let i = choose|i: int| 0 <= i < s.len() && s[i] == y;
            if i == 0 {
                assert(w[0] == y);
            } else {
                assert(t[i - 1] == y);
                assert(t.contains(y));
                assert(rt.contains(y));
                let k = choose|k: int| 0 <= k < rt.len() && rt[k] == y;
                assert(w[k + 1] == y);
            }
        }
        assert forall|k: int| 0 <= k < rt.len() implies s[0] < #[trigger] rt[k] by {
            assert(rt.contains(rt[k]));
            if rt[k] != x {
                let i = choose|i: int| 0 <= i < t.len() && t[i] == rt[k];
                assert(t[i] == s[i + 1]);
            }
        }
        assert forall|a: int, b: int| 0 <= a < b < w.len() implies w[a] < w[b] by {
            assert(w[b] == rt[b - 1]);
            if a > 0 {
                assert(w[a] == rt[a - 1]);
            }
        }
    }
}

/// Every sequence in `lo..hi` that `s` does not hold is a gap.
proof fn lemma_gap_complete(lo: int, hi: int, s: Seq<u64>, y: u64)
    requires
        0 <= lo <= y < hi,
        hi <= u64::MAX + 1,
        !s.contains(y),
    ensures
        gaps(lo, hi, s).contains(y),
    decreases hi - lo,
{
    let g = gaps(lo, hi - 1, s);
    if y == hi - 1 {
        assert(g.push(y)[g.len() as int] == y);
    } else {
        lemma_gap_complete(lo, hi - 1, s, y);
        let k = choose|k: int| 0 <= k < g.len() && g[k] == y;
        if !s.contains((hi - 1) as u64) {
            assert(g.push((hi - 1) as u64)[k] == y);
        }
    }
}

/// The gaps come in strictly increasing order.
proof fn lemma_gaps_increasing(lo: int, hi: int, s: Seq<u64>)
    requires
        0 <= lo,
        hi <= u64::MAX + 1,
    ensures
        increasing_u64(gaps(lo, hi, s)),
    decreases hi - lo,
{
    if hi > lo {
        lemma_gaps_increasing(lo, hi - 1, s);
        let g = gaps(lo, hi - 1, s);
        if !s.contains((hi - 1) as u64) {
            let w = g.push((hi - 1) as u64);
            assert forall|a: int, b: int| 0 <= a < b < w.len() implies w[a] < w[b] by {
                if b == g.len() {
                    assert(g.contains(g[a]));
                    lemma_gap_members(lo, hi - 1, s, g[a]);
                }
            }
        }
    }
}

/// The receiver state after observing `qs` in order, from nothing received.
pub open spec fn observed(qs: Seq<u64>) -> AcksView
    decreases qs.len(),
{
    if qs.len() == 0 {
        AcksView { highest_contiguous: 0, out_of_order: Seq::empty() }
    } else {
        spec_observe(observed(qs.drop_last()), qs.last())
    }
}

/// `v` is what receiving the sequences `qs` leaves: every sequence from 1
/// through the mark was received and the next was not, and the later
/// sequences received are exactly the out-of-order ones, in increasing order.
pub open spec fn acks_track(v: AcksView, qs: Seq<u64>) -> bool {
    &&& v.highest_contiguous < u64::MAX
    &&& forall|x: u64| 1 <= x <= v.highest_contiguous ==> #[trigger] qs.contains(x)
    &&& !qs.contains((v.highest_contiguous + 1) as u64)
    &&& forall|x: u64|
        #![trigger v.out_of_order.contains(x)]
        #![trigger qs.contains(x)]
        v.out_of_order.contains(x) <==> (qs.contains(x) && x > v.highest_contiguous)
    &&& increasing_u64(v.out_of_order)
}

proof fn lemma_push_contains(qs: Seq<u64>, s: u64, x: u64)
    ensures
        qs.push(s).contains(x) <==> (qs.contains(x) || x == s),
{
    let w = qs.push(s);
    if qs.contains(x) {
        let i = choose|i: int| 0 <= i < qs.len() && qs[i] == x;
        assert(w[i] == x);
    }
    if x == s {
        assert(w[qs.len() as int] == x);
    }
    if w.contains(x) && x != s {
        let i = choose|i: int| 0 <= i < w.len() && w[i] == x;
        assert(qs[i] == x);
    }
}

/// Observing one more sequence keeps the state in step with what was
/// received.
#[verifier::rlimit(40)]
proof fn lemma_observe_tracks(v: AcksView, qs: Seq<u64>, s: u64)
    requires
        acks_track(v, qs),
        s < u64::MAX,
        forall|i: int| 0 <= i < qs.len() ==> qs[i] < u64::MAX,
    ensures
        acks_track(spec_observe(v, s), qs.push(s)),
{
    let q2 = qs.push(s);
    let hc = v.highest_contiguous;
    let o = v.out_of_order;
    let w = spec_observe(v, s);
    assert forall|x: u64| #[trigger] q2.contains(x) <==> (qs.contains(x) || x == s) by {
        lemma_push_contains(qs, s, x);
    }
    if s == hc + 1 {
        let k = contiguous_run(o, s + 1) as int;
        lemma_run_end(o, s + 1, k);
        assert forall|j: int| 0 <= j < k implies #[trigger] o[j] == s + 1 + j by {
            lemma_run_facts(o, s + 1, j);
        }
        // members of `o` are above `s`
        assert forall|i: int| 0 <= i < o.len() implies #[trigger] o[i] > s by {
            assert(o.contains(o[i]));
        }
        if k > 0 {
            assert(o.contains(o[k - 1]));
            assert(qs.contains(o[k - 1]));
            let t = choose|t: int| 0 <= t < qs.len() && qs[t] == o[k - 1];
        }
        let hc2 = w.highest_contiguous;
        assert(hc2 == s + k);
        assert(hc2 < u64::MAX);
        // the members of `o` from position `k` on lie above the new mark + 1
        assert forall|i: int| k <= i < o.len() implies #[trigger] o[i] > s + k + 1 by {
            if k > 0 {
                assert(o[k - 1] < o[k]);
            }
            assert(o[k] != s + 1 + k);
            assert(o[k] <= o[i]);
        }
        assert forall|x: u64| 1 <= x <= hc2 implies #[trigger] q2.contains(x) by {
            if x > s {
                let j = x - s - 1;
                assert(o[j] == x);
                assert(o.contains(x));
            }
        }
        assert(!q2.contains((hc2 + 1) as u64)) by {
            let y = (hc2 + 1) as u64;
            if qs.contains(y) {
                assert(o.contains(y));
                let i = choose|i: int| 0 <= i < o.len() && o[i] == y;
                if i < k {
                    assert(o[i] == s + 1 + i);
                }
            }
        }
        let o2 = o.skip(k);
        assert(w.out_of_order == o2);
        assert forall|x: u64|
            #![trigger o2.contains(x)]
            #![trigger q2.contains(x)]
            o2.contains(x) <==> (q2.contains(x) && x > hc2) by {
            if o2.contains(x) {
                let i = choose|i: int| 0 <= i < o2.len() && o2[i] == x;
                assert(o[i + k] == x);
                assert(o.contains(x));
            }
            if q2.contains(x) && x > hc2 {
                assert(qs.contains(x));
                assert(o.contains(x));
                let i = choose|i: int| 0 <= i < o.len() && o[i] == x;
                if i < k {
                    assert(o[i] == s + 1 + i);
                }
                assert(o2[i - k] == x);
            }
        }
        assert forall|a: int, b: int| 0 <= a < b < o2.len() implies o2[a] < o2[b] by {
            assert(o2[a] == o[a + k] && o2[b] == o[b + k]);
        }
    } else if s > hc + 1 {
        lemma_insert_sorted_props(o, s);
        let o2 = insert_sorted_u64(o, s);
        assert forall|x: u64|
            #![trigger o2.contains(x)]
            #![trigger q2.contains(x)]
            o2.contains(x) <==> (q2.contains(x) && x > hc) by {
        }
    } else {
        assert forall|x: u64|
            #![trigger o.contains(x)]
            #![trigger q2.contains(x)]
            o.contains(x) <==> (q2.contains(x) && x > hc) by {
        }
    }
}

/// The receiver state keeps step with every sequence received so far.
proof fn lemma_observed_tracks(qs: Seq<u64>)
    requires
        forall|i: int| 0 <= i < qs.len() ==> qs[i] < u64::MAX,
    ensures
        acks_track(observed(qs), qs),
    decreases qs.len(),
{
    if qs.len() > 0 {
        let prev = qs.drop_last();
        lemma_observed_tracks(prev);
        lemma_observe_tracks(observed(prev), prev, qs.last());
        assert(prev.push(qs.last()) =~= qs);
    } else {
        let v = observed(qs);
        assert forall|x: u64| 1 <= x <= v.highest_contiguous implies #[trigger] qs.contains(x) by {}
    }
}

/// What the receiver acknowledges after the sequences `qs` arrived, in any
/// order and with repeats: it acknowledges through the largest `h` such
/// that every sequence from 1 to `h` arrived, and lists as missing, in
/// increasing order, exactly the sequences above `h` that did not arrive
/// and lie below some sequence that did.
pub proof fn lemma_acks_follow_received(qs: Seq<u64>)
    requires
        forall|i: int| 0 <= i < qs.len() ==> qs[i] < u64::MAX,
    ensures
        ({
            let a = spec_ack_for(observed(qs));
            &&& forall|x: u64| 1 <= x <= a.through ==> #[trigger] qs.contains(x)
            &&& a.through < u64::MAX
            &&& !qs.contains((a.through + 1) as u64)
            &&& increasing_u64(a.missing)
            &&& forall|y: u64|
                #[trigger] a.missing.contains(y) <==> (a.through < y && !qs.contains(y) && exists|i: int|
                    0 <= i < qs.len() && y < #[trigger] qs[i])
        }),
{
    lemma_observed_tracks(qs);
    let v = observed(qs);
    let a = spec_ack_for(v);
    let hc = v.highest_contiguous;
    let o = v.out_of_order;
    if o.len() == 0 {
        assert forall|y: u64| #[trigger] a.missing.contains(y) <==> (hc < y && !qs.contains(y) && exists|i: int|
            0 <= i < qs.len() && y < #[trigger] qs[i]) by {
            if hc < y && exists|i: int| 0 <= i < qs.len() && y < #[trigger] qs[i] {
                let i = choose|i: int| 0 <= i < qs.len() && y < #[trigger] qs[i];
                assert(qs.contains(qs[i]));
                assert(o.contains(qs[i]));
            }
        }
    } else {
        let last = o.last();
        assert(o.contains(last));
        assert(qs.contains(last));
        lemma_gaps_increasing(hc + 1, last as int, o);
        assert forall|y: u64| #[trigger] a.missing.contains(y) <==> (hc < y && !qs.contains(y) && exists|i: int|
            0 <= i < qs.len() && y < #[trigger] qs[i]) by {
            if a.missing.contains(y) {
                lemma_gap_members(hc + 1, last as int, o, y);
                let i = choose|i: int| 0 <= i < qs.len() && qs[i] == last;
                assert(y < qs[i]);
            }
            if hc < y && !qs.contains(y) && exists|i: int| 0 <= i < qs.len() && y < #[trigger] qs[i] {
                let i = choose|i: int| 0 <= i < qs.len() && y < #[trigger] qs[i];
                assert(qs.contains(qs[i]));
                assert(o.contains(qs[i]));
                let j = choose|j: int| 0 <= j < o.len() && o[j] == qs[i];
                assert(o[j] <= last);
                assert(!o.contains(y));
                lemma_gap_complete(hc + 1, last as int, o, y);
            }
        }
    }
}

} // verus!
