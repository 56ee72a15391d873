//! Collecting the fragments of one frame until it is complete.

use vstd::prelude::*;

use crate::protocol::{
    frame_result_view, frame_wf, fragment_count, lemma_fragment_reassemble_round_trip,
    spec_encode_frame, spec_fragment, spec_fragments, spec_reassemble, EncodedFrame, Fragment,
    FragmentView, FrameView, ProtocolError,
};
use crate::transport::ordered_keys::{increasing_u16, keys_u16, lemma_increasing_same_members_u16};
use crate::transport::packet::TransportError;
use crate::wire::copy_range;

use std::collections::BTreeMap;

verus! {

/// `f` added to the index-ordered fragments `s`, unless a fragment with its
/// index is already there (the first one received is kept).
pub open spec fn insert_fragment(s: Seq<FragmentView>, f: FragmentView) -> Seq<FragmentView>
    decreases s.len(),
{
    if s.len() == 0 {
        seq![f]
    } else if s[0].index == f.index {
        s
    } else if s[0].index > f.index {
        seq![f] + s
    } else {
        seq![s[0]] + insert_fragment(s.skip(1), f)
    }
}

/// Fragment indices strictly increase.
pub open spec fn index_ordered(s: Seq<FragmentView>) -> bool {
    forall|i: int, j: int| 0 <= i < j < s.len() ==> s[i].index < s[j].index
}

/// Collects the fragments of frames until each is complete, kept by
/// fragment index.
pub struct ReassemblyBuffer {
    frame_sequence: u64,
    fragments: BTreeMap<u16, Fragment>,
    ordered: Ghost<Seq<FragmentView>>,
    total: Option<u16>,
}

/// The buffer's state: the frame it collects, its fragments in index order,
/// and the fragment count announced by the latest fragment.
pub ghost struct ReassemblyView {
    pub frame_sequence: u64,
    pub fragments: Seq<FragmentView>,
    pub total: Option<u16>,
}

impl View for ReassemblyBuffer {
    type V = ReassemblyView;

    closed spec fn view(&self) -> ReassemblyView {
        ReassemblyView { frame_sequence: self.frame_sequence, fragments: self.ordered@, total: self.total }
    }
}

/// The fragment indices of `s`, in order.
pub open spec fn indices_of(s: Seq<FragmentView>) -> Seq<u16> {
    s.map_values(|f: FragmentView| f.index)
}

/// The buffer after receiving `f`, and what the push returns: a fragment of
/// another frame is refused; otherwise it is stored (if its index is new) and
/// the frame is reassembled once as many distinct indices as the fragment's
/// count are present.
pub open spec fn spec_push(b: ReassemblyView, f: FragmentView) -> (
    ReassemblyView,
    Result<Option<FrameView>, TransportError>,
) {
    if f.frame_sequence != b.frame_sequence {
        (
            b,
            Err(
                TransportError::Protocol(
                    ProtocolError::FragmentSequenceMismatch {
                        fragment: f.index,
                        expected: b.frame_sequence,
                        actual: f.frame_sequence,
                    },
                ),
            ),
        )
    } else {
        let frags = insert_fragment(b.fragments, f);
        let nb = ReassemblyView { frame_sequence: b.frame_sequence, fragments: frags, total: Some(f.total) };
        if f.total == 0 || frags.len() != f.total {
            (nb, Ok(None))
        } else {
            (
                nb,
                match spec_reassemble(b.frame_sequence, frags) {
                    Ok(fr) => Ok(Some(fr)),
                    Err(e) => Err(TransportError::Protocol(e)),
                },
            )
        }
    }
}

proof fn lemma_insert_fragment_ordered(s: Seq<FragmentView>, f: FragmentView)
    requires
        index_ordered(s),
    ensures
        index_ordered(insert_fragment(s, f)),
        forall|k: int| 0 <= k < insert_fragment(s, f).len() ==> (#[trigger] insert_fragment(s, f)[k].index == f.index || s.contains(insert_fragment(s, f)[k])),
        insert_fragment(s, f).len() <= s.len() + 1,
    decreases s.len(),
{
    if s.len() > 0 && s[0].index < f.index {
        let t = s.skip(1);
        assert(index_ordered(t));
        lemma_insert_fragment_ordered(t, f);
        let r = insert_fragment(t, f);
        assert forall|k: int| 0 <= k < r.len() implies s[0].index < #[trigger] r[k].index by {
            if r[k].index != f.index {
                let j = choose|j: int| 0 <= j < t.len() && t[j] == r[k];
                assert(s[j + 1] == t[j]);
            }
        }
        assert forall|k: int| 0 <= k < r.len() && r[k].index != f.index implies s.contains(#[trigger] r[k]) by {
            let j = choose|j: int| 0 <= j < t.len() && t[j] == r[k];
            assert(s[j + 1] == t[j]);
        }
    }
}

/// Inserting a fragment whose index is above every stored index appends it.
proof fn lemma_insert_fragment_append(s: Seq<FragmentView>, f: FragmentView)
    requires
        forall|i: int| 0 <= i < s.len() ==> s[i].index < f.index,
    ensures
        insert_fragment(s, f) == s.push(f),
    decreases s.len(),
{
    if s.len() > 0 {
        lemma_insert_fragment_append(s.skip(1), f);
        assert(seq![s[0]] + s.skip(1).push(f) =~= s.push(f));
    } else {
        assert(seq![f] =~= s.push(f));
    }
}

/// What `insert_fragment` does: a fragment whose index is stored leaves the
/// fragments as they are; otherwise it joins them and every stored one stays.
proof fn lemma_insert_fragment_members(s: Seq<FragmentView>, f: FragmentView)
    requires
        index_ordered(s),
    ensures
        (exists|j: int| 0 <= j < s.len() && #[trigger] s[j].index == f.index) ==> insert_fragment(s, f) == s,
        !(exists|j: int| 0 <= j < s.len() && #[trigger] s[j].index == f.index) ==> {
            &&& insert_fragment(s, f).contains(f)
            &&& forall|j: int| 0 <= j < s.len() ==> insert_fragment(s, f).contains(#[trigger] s[j])
        },
    decreases s.len(),
{
    let r = insert_fragment(s, f);
    if s.len() == 0 {
        assert(r[0] == f);
    } else if s[0].index == f.index {
    } else if s[0].index > f.index {
        assert(r[0] == f);
        assert forall|j: int| 0 <= j < s.len() implies r.contains(#[trigger] s[j]) by {
            assert(r[j + 1] == s[j]);
        }
        assert forall|j: int| 0 <= j < s.len() implies #[trigger] s[j].index != f.index by {
            if j > 0 {
                assert(s[0].index < s[j].index);
            }
        }
    } else {
        let t = s.skip(1);
        assert(index_ordered(t));
        lemma_insert_fragment_members(t, f);
        let rt = insert_fragment(t, f);
        assert(r == seq![s[0]] + rt);
        if exists|j: int| 0 <= j < s.len() && #[trigger] s[j].index == f.index {
            let j = choose|j: int| 0 <= j < s.len() && #[trigger] s[j].index == f.index;
            assert(j > 0);
            assert(t[j - 1].index == f.index);
            assert(r =~= s);
        } else {
            assert forall|j: int| 0 <= j < t.len() implies #[trigger] t[j].index != f.index by {
                assert(t[j] == s[j + 1]);
            }
            let w = choose|w: int| 0 <= w < rt.len() && rt[w] == f;
            assert(r[w + 1] == f);
            assert forall|j: int| 0 <= j < s.len() implies r.contains(#[trigger] s[j]) by {
                if j == 0 {
                    assert(r[0] == s[0]);
                } else {
                    assert(t[j - 1] == s[j]);
                    assert(rt.contains(t[j - 1]));
                    let m = choose|m: int| 0 <= m < rt.len() && rt[m] == t[j - 1];
                    assert(r[m + 1] == s[j]);
                }
            }
        }
    }
}

/// The indices of an index-ordered run increase, and there are as many
/// distinct ones as fragments.
proof fn lemma_indices_increase(s: Seq<FragmentView>)
    requires
        index_ordered(s),
    ensures
        increasing_u16(indices_of(s)),
        indices_of(s).to_set().len() == s.len(),
        forall|x: u16| #[trigger] indices_of(s).to_set().contains(x) <==> exists|i: int| 0 <= i < s.len() && s[i].index == x,
{
    let t = indices_of(s);
    assert forall|i: int, j: int| 0 <= i < j < t.len() implies t[i] < t[j] by {
        assert(t[i] == s[i].index);
        assert(t[j] == s[j].index);
    }
    assert(t.no_duplicates()) by {
        assert forall|i: int, j: int| 0 <= i < t.len() && 0 <= j < t.len() && i != j implies t[i] != t[j] by {
            if i < j {
                assert(t[i] < t[j]);
            } else {
                assert(t[j] < t[i]);
            }
        }
    }
    t.unique_seq_to_set();
    assert forall|x: u16| #[trigger] t.to_set().contains(x) <==> exists|i: int| 0 <= i < s.len() && s[i].index == x by {
        if t.to_set().contains(x) {
            let i = choose|i: int| 0 <= i < t.len() && t[i] == x;
            assert(s[i].index == x);
        }
        if exists|i: int| 0 <= i < s.len() && s[i].index == x {
            let i = choose|i: int| 0 <= i < s.len() && s[i].index == x;
            assert(t[i] == x);
        }
    }
}

/// A copy of `f`.
fn copy_fragment(f: &Fragment) -> (r: Fragment)
    ensures
        r@ == f@,
{
    let bytes = copy_range(f.bytes.as_slice(), 0, f.bytes.len());
    assert(bytes@ =~= f.bytes@);
    Fragment { frame_sequence: f.frame_sequence, index: f.index, total: f.total, bytes }
}

impl ReassemblyBuffer {
    #[verifier::type_invariant]
    spec fn inv(self) -> bool {
        &&& index_ordered(self.ordered@)
        &&& self.fragments@.dom() == indices_of(self.ordered@).to_set()
        &&& forall|i: int|
            0 <= i < self.ordered@.len() ==> self.fragments@[#[trigger] self.ordered@[i].index]@
                == self.ordered@[i]
    }

    /// An empty buffer for frame `frame_sequence`.
    pub fn new(frame_sequence: u64) -> (r: ReassemblyBuffer)
        ensures
            r@ == (ReassemblyView { frame_sequence, fragments: Seq::empty(), total: None }),
    {
        let fragments = BTreeMap::new();
        proof {
            assert(indices_of(Seq::<FragmentView>::empty()).to_set() =~= Set::<u16>::empty());
        }
        ReassemblyBuffer { frame_sequence, fragments, ordered: Ghost(Seq::empty()), total: None }
    }

    /// Copies of the stored fragments, in index order.
    fn in_index_order(&self) -> (v: Vec<Fragment>)
        ensures
            crate::protocol::fragments_view(v@) == self@.fragments,
    {
        proof {
            use_type_invariant(self);
        }
        let ghost s = self.ordered@;
        let keys = keys_u16(&self.fragments);
        proof {
            lemma_indices_increase(s);
            lemma_increasing_same_members_u16(keys@, indices_of(s));
        }
        let mut out: Vec<Fragment> = Vec::new();
        let mut i: usize = 0;
        while i < keys.len()
            invariant
                keys@ == indices_of(s),
                s == self.ordered@,
                self.fragments@.dom() == indices_of(s).to_set(),
                forall|j: int| 0 <= j < s.len() ==> self.fragments@[#[trigger] s[j].index]@ == s[j],
                i <= keys@.len(),
                out@.len() == i,
                crate::protocol::fragments_view(out@) == s.subrange(0, i as int),
            decreases keys@.len() - i,
        {
            let key = keys[i];
            proof {
                assert(keys@[i as int] == s[i as int].index);
                assert(indices_of(s).to_set().contains(key));
            }
            let ghost prev = out@;
            match self.fragments.get(&key) {
                Some(f) => {
                    proof {
                        assert(f@ == s[i as int]);
                    }
                    let c = copy_fragment(f);
                    out.push(c);
                    proof {
                        assert(out@ == prev.push(c));
                        assert(c@ == s[i as int]);
                    }
                },
                None => {
                    proof {
                        assert(false);
                    }
                },
            }
            proof {
                assert forall|j: int| 0 <= j < i + 1 implies #[trigger] crate::protocol::fragments_view(out@)[j] == s[j] by {
                    if j < i {
                        assert(out@[j] == prev[j]);
                        assert(crate::protocol::fragments_view(prev)[j] == s.subrange(0, i as int)[j]);
                    }
                }
                assert(crate::protocol::fragments_view(out@) =~= s.subrange(0, i + 1));
            }
            i = i + 1;
        }
        assert(s.subrange(0, i as int) =~= s);
        out
    }

    /// Stores a fragment and returns the frame once it is complete.
    pub fn push(&mut self, fragment: Fragment) -> (r: Result<Option<EncodedFrame>, TransportError>)
        ensures
            final(self)@ == spec_push(old(self)@, fragment@).0,
            match (r, spec_push(old(self)@, fragment@).1) {
                (Ok(None), Ok(None)) => true,
                (Ok(Some(f)), Ok(Some(g))) => f@ == g,
                (Err(e), Err(e2)) => e == e2,
                _ => false,
            },
    {
        if fragment.frame_sequence != self.frame_sequence {
            return Err(
                TransportError::Protocol(
                    ProtocolError::FragmentSequenceMismatch {
                        fragment: fragment.index,
                        expected: self.frame_sequence,
                        actual: fragment.frame_sequence,
                    },
                ),
            );
        }
        let mut taken = ReassemblyBuffer::new(0);
        std::mem::swap(self, &mut taken);
        proof {
            use_type_invariant(&taken);
        }
        let ReassemblyBuffer { frame_sequence, fragments: mut map, ordered: Ghost(s), total: _ } = taken;
        let ghost old_map = map@;
        let ghost fv = fragment@;
        let total = fragment.total;
        let index = fragment.index;
        let present = map.contains_key(&index);
        if !present {
            map.insert(index, fragment);
        }
        let ghost r = insert_fragment(s, fv);
        proof {
            lemma_insert_fragment_ordered(s, fv);
            lemma_insert_fragment_members(s, fv);
            lemma_indices_increase(s);
            lemma_indices_increase(r);
            if present {
                let j = choose|j: int| 0 <= j < s.len() && s[j].index == index;
                assert(s[j].index == index);
                assert(map@ =~= old_map);
            } else {
                assert forall|j: int| 0 <= j < s.len() implies #[trigger] s[j].index != index by {
                    assert(indices_of(s)[j] == s[j].index);
                }
                assert forall|x: u16| #[trigger] map@.dom().contains(x) == indices_of(r).to_set().contains(x) by {
                    if x == index {
                        let w = choose|w: int| 0 <= w < r.len() && r[w] == fv;
                        assert(r[w].index == x);
                    } else if old_map.dom().contains(x) {
                        let j = choose|j: int| 0 <= j < s.len() && s[j].index == x;
                        assert(r.contains(s[j]));
                        let m = choose|m: int| 0 <= m < r.len() && r[m] == s[j];
                        assert(r[m].index == x);
                    }
                    if indices_of(r).to_set().contains(x) {
                        let i = choose|i: int| 0 <= i < r.len() && r[i].index == x;
                        if r[i].index != index {
                            assert(s.contains(r[i]));
                            let j = choose|j: int| 0 <= j < s.len() && s[j] == r[i];
                            assert(s[j].index == x);
                        }
                    }
                }
                assert(map@.dom() =~= indices_of(r).to_set());
                assert forall|i: int| 0 <= i < r.len() implies map@[#[trigger] r[i].index]@ == r[i] by {
                    if r[i].index == index {
                        let w = choose|w: int| 0 <= w < r.len() && r[w] == fv;
                        if w != i {
                            if w < i {
                                assert(r[w].index < r[i].index);
                            } else {
                                assert(r[i].index < r[w].index);
                            }
                        }
                    } else {
                        assert(s.contains(r[i]));
                        let j = choose|j: int| 0 <= j < s.len() && s[j] == r[i];
                        assert(old_map[s[j].index]@ == s[j]);
                    }
                }
            }
        }
        let count = map.len();
        *self = ReassemblyBuffer { frame_sequence, fragments: map, ordered: Ghost(r), total: Some(total) };
        if total == 0 || count != total as usize {
            return Ok(None);
        }
        let ordered = self.in_index_order();
        match EncodedFrame::reassemble(self.frame_sequence, ordered.as_slice()) {
            Ok(frame) => Ok(Some(frame)),
            Err(e) => Err(TransportError::Protocol(e)),
        }
    }
}

/// The buffer after the first `k` fragments of `frags` arrived in order.
pub open spec fn buffer_after(sequence: u64, frags: Seq<FragmentView>, k: int) -> ReassemblyView {
    ReassemblyView {
        frame_sequence: sequence,
        fragments: frags.subrange(0, k),
        total: if k == 0 {
            None
        } else {
            Some(frags[k - 1].total)
        },
    }
}

/// Delivering the fragments of a well-formed frame in order to a fresh
/// buffer completes nothing until the last fragment, which gives the frame
/// back.
pub proof fn lemma_in_order_delivery(f: FrameView, max: nat, k: int)
    requires
        frame_wf(f),
        max > 0,
        fragment_count(spec_encode_frame(f).len(), max) <= 65535,
        0 <= k < fragment_count(spec_encode_frame(f).len(), max),
    ensures
        spec_fragment(f, max) matches Ok(frags) && spec_push(
            buffer_after(f.header.sequence, frags, k),
            frags[k],
        ) == (buffer_after(f.header.sequence, frags, k + 1), if k + 1 < frags.len() {
            Ok::<Option<FrameView>, TransportError>(None)
        } else {
            Ok::<Option<FrameView>, TransportError>(Some(f))
        }),
{
    let e = spec_encode_frame(f);
    let frags = spec_fragments(e, max, f.header.sequence);
    let n = frags.len();
    lemma_fragment_reassemble_round_trip(f, max);
    let prefix = frags.subrange(0, k);
    assert forall|i: int| 0 <= i < prefix.len() implies prefix[i].index < frags[k].index by {
        assert(prefix[i] == frags[i]);
    }
    lemma_insert_fragment_append(prefix, frags[k]);
    assert(prefix.push(frags[k]) =~= frags.subrange(0, k + 1));
    if k + 1 == n {
        assert(frags.subrange(0, k + 1) =~= frags);
    }
}

/// Inserting a fragment whose index is not stored adds exactly one entry.
proof fn lemma_insert_fragment_new(s: Seq<FragmentView>, f: FragmentView)
    requires
        forall|i: int| 0 <= i < s.len() ==> s[i].index != f.index,
    ensures
        insert_fragment(s, f).len() == s.len() + 1,
        forall|i: int|
            0 <= i < s.len() + 1 ==> #[trigger] insert_fragment(s, f)[i] == f || s.contains(
                insert_fragment(s, f)[i],
            ),
    decreases s.len(),
{
    let r = insert_fragment(s, f);
    if s.len() == 0 {
        assert(r =~= seq![f]);
    } else if s[0].index > f.index {
        assert forall|i: int| 0 <= i < s.len() + 1 implies #[trigger] r[i] == f || s.contains(r[i]) by {
            if i > 0 {
                assert(r[i] == s[i - 1]);
            }
        }
    } else {
        let t = s.skip(1);
        assert forall|i: int| 0 <= i < t.len() implies t[i].index != f.index by {
            assert(t[i] == s[i + 1]);
        }
        lemma_insert_fragment_new(t, f);
        let rt = insert_fragment(t, f);
        assert forall|i: int| 0 <= i < s.len() + 1 implies #[trigger] r[i] == f || s.contains(r[i]) by {
            if i == 0 {
                assert(r[0] == s[0]);
            } else {
                assert(r[i] == rt[i - 1]);
                if rt[i - 1] != f {
                    let j = choose|j: int| 0 <= j < t.len() && t[j] == rt[i - 1];
                    assert(s[j + 1] == t[j]);
                }
            }
        }
    }
}

/// The buffer after the fragments `frags[order[0]]`, ..., `frags[order[k - 1]]`
/// arrived, starting from a fresh buffer for frame `sequence`.
pub open spec fn delivered(sequence: u64, frags: Seq<FragmentView>, order: Seq<int>, k: int) -> ReassemblyView
    decreases k,
{
    if k <= 0 {
        ReassemblyView { frame_sequence: sequence, fragments: Seq::empty(), total: None }
    } else {
        spec_push(delivered(sequence, frags, order, k - 1), frags[order[k - 1]]).0
    }
}

/// `order` lists each of `0..n` once.
pub open spec fn is_delivery_order(order: Seq<int>, n: int) -> bool {
    &&& order.len() == n
    &&& forall|i: int| 0 <= i < n ==> 0 <= #[trigger] order[i] < n
    &&& forall|i: int, j: int| 0 <= i < j < n ==> order[i] != order[j]
}

/// After `k` distinct fragments of a frame, the buffer holds exactly `k`
/// of them, in index order.
proof fn lemma_delivered_state(e: Seq<u8>, max: nat, sequence: u64, order: Seq<int>, k: int)
    requires
        max > 0,
        fragment_count(e.len(), max) <= 65535,
        is_delivery_order(order, fragment_count(e.len(), max) as int),
        0 <= k <= order.len(),
    ensures
        ({
            let frags = spec_fragments(e, max, sequence);
            let d = delivered(sequence, frags, order, k);
            &&& d.frame_sequence == sequence
            &&& index_ordered(d.fragments)
            &&& d.fragments.len() == k
            &&& forall|i: int|
                0 <= i < k ==> exists|j: int| 0 <= j < k && #[trigger] d.fragments[i] == frags[order[j]]
        }),
    decreases k,
{
    let frags = spec_fragments(e, max, sequence);
    if k > 0 {
        lemma_delivered_state(e, max, sequence, order, k - 1);
        let d = delivered(sequence, frags, order, k - 1);
        let x = frags[order[k - 1]];
        assert(x.index == order[k - 1]);
        assert forall|i: int| 0 <= i < d.fragments.len() implies d.fragments[i].index != x.index by {
            let j = choose|j: int| 0 <= j < k - 1 && #[trigger] d.fragments[i] == frags[order[j]];
            assert(frags[order[j]].index == order[j]);
        }
        lemma_insert_fragment_new(d.fragments, x);
        lemma_insert_fragment_ordered(d.fragments, x);
        let nf = insert_fragment(d.fragments, x);
        assert forall|i: int| 0 <= i < k implies exists|j: int| 0 <= j < k && #[trigger] nf[i] == frags[order[j]] by {
            if nf[i] == x {
                assert(nf[i] == frags[order[k - 1]]);
            } else {
                let t = choose|t: int| 0 <= t < d.fragments.len() && d.fragments[t] == nf[i];
                let j = choose|j: int| 0 <= j < k - 1 && #[trigger] d.fragments[t] == frags[order[j]];
                assert(nf[i] == frags[order[j]]);
            }
        }
    }
}

/// A strictly increasing run of `n` indices below `n` is `0, 1, ..., n - 1`.
proof fn lemma_sorted_indices(s: Seq<FragmentView>, n: int)
    requires
        index_ordered(s),
        s.len() == n,
        forall|i: int| 0 <= i < n ==> #[trigger] s[i].index < n,
    ensures
        forall|i: int| 0 <= i < n ==> #[trigger] s[i].index == i,
{
    assert forall|i: int| 0 <= i < n implies #[trigger] s[i].index >= i by {
        lemma_sorted_at_least(s, i);
    }
    assert forall|i: int| 0 <= i < n implies #[trigger] s[i].index <= i by {
        lemma_sorted_at_most(s, n, i);
    }
}

proof fn lemma_sorted_at_least(s: Seq<FragmentView>, i: int)
    requires
        index_ordered(s),
        0 <= i < s.len(),
    ensures
        s[i].index >= i,
    decreases i,
{
    if i > 0 {
        lemma_sorted_at_least(s, i - 1);
    }
}

proof fn lemma_sorted_at_most(s: Seq<FragmentView>, n: int, i: int)
    requires
        index_ordered(s),
        s.len() == n,
        forall|t: int| 0 <= t < n ==> #[trigger] s[t].index < n,
        0 <= i < n,
    ensures
        s[i].index <= i,
    decreases n - i,
{
    if i < n - 1 {
        lemma_sorted_at_most(s, n, i + 1);
    }
}

/// Reassembly is keyed by fragment index: delivering the fragments of a
/// well-formed frame to a fresh buffer in any order, each once, completes
/// nothing until the last one arrives, which gives the frame back.
pub proof fn lemma_any_order_delivery(f: FrameView, max: nat, order: Seq<int>, k: int)
    requires
        frame_wf(f),
        max > 0,
        fragment_count(spec_encode_frame(f).len(), max) <= 65535,
        is_delivery_order(order, fragment_count(spec_encode_frame(f).len(), max) as int),
        0 <= k < order.len(),
    ensures
        spec_fragment(f, max) matches Ok(frags) && spec_push(
            delivered(f.header.sequence, frags, order, k),
            frags[order[k]],
        ).1 == if k + 1 < frags.len() {
            Ok::<Option<FrameView>, TransportError>(None)
        } else {
            Ok::<Option<FrameView>, TransportError>(Some(f))
        },
{
    let e = spec_encode_frame(f);
    let n = fragment_count(e.len(), max) as int;
    let s = f.header.sequence;
    let frags = spec_fragments(e, max, s);
    lemma_fragment_reassemble_round_trip(f, max);
    lemma_delivered_state(e, max, s, order, k + 1);
    let d = delivered(s, frags, order, k + 1);
    assert(d == spec_push(delivered(s, frags, order, k), frags[order[k]]).0);
    let x = frags[order[k]];
    assert(x.total == n as u16);
    assert(x.frame_sequence == s);
    if k + 1 == n {
        let nf = d.fragments;
        assert forall|i: int| 0 <= i < n implies #[trigger] nf[i].index < n by {
            let j = choose|j: int| 0 <= j < n && #[trigger] nf[i] == frags[order[j]];
            assert(frags[order[j]].index == order[j]);
        }
        lemma_sorted_indices(nf, n);
        assert forall|i: int| 0 <= i < n implies #[trigger] nf[i] == frags[i] by {
            let j = choose|j: int| 0 <= j < n && #[trigger] nf[i] == frags[order[j]];
            assert(frags[order[j]].index == order[j]);
            assert(nf[i].index == i);
        }
        assert(nf =~= frags);
    }
}

} // verus!
