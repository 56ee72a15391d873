//! Congestion-adaptive bitrate for the Android stream, and the defaults of
//! the Wi-Fi transport.
//!
//! The controller watches the time each frame's send was stalled and the
//! running count of keyframe requests from the device. It steps down the
//! ladder 20 → 12 → 8 → 4 Mbit/s when the 95th percentile of the stalls over
//! a full 60-frame window exceeds 50 ms, or when more than 2 keyframe
//! requests arrived within the window; it steps back up after 600
//! consecutive clean frames. Stall times are in nanoseconds.

use vstd::prelude::*;
use vstd::relations::{sorted_by, total_ordering};

verus! {

broadcast use vstd::seq_lib::group_to_multiset_ensures;

/// Default bitrate of the USB transport.
pub const USB_DEFAULT_BITRATE_BPS: u32 = 20_000_000;

/// Default bitrate of the Wi-Fi transport.
pub const WIFI_DEFAULT_BITRATE_BPS: u32 = 12_000_000;

/// Default keyframe interval of the USB transport.
pub const USB_DEFAULT_GOP: u32 = 60;

/// Default keyframe interval of the Wi-Fi transport.
pub const WIFI_DEFAULT_GOP: u32 = 30;

/// The bitrate ladder, in bits per second.
pub const BITRATE_LADDER: [u32; 4] = [20_000_000, 12_000_000, 8_000_000, 4_000_000];

/// Frames in the observation window.
pub const WINDOW: usize = 60;

/// The stall, in nanoseconds, above which the window's 95th percentile
/// counts as congestion (50 ms).
pub const STALL_LIMIT_NS: u64 = 50_000_000;

/// Consecutive clean frames before stepping back up.
pub const RECOVERY_FRAMES: usize = 600;

/// The transport a stream uses.
#[derive(Debug, Clone, Copy, PartialEq, Eq, Structural)]
pub enum Transport {
    Usb,
    Wifi,
}

/// Bitrate and keyframe interval for a transport: Wi-Fi replaces the USB
/// defaults with its own, and keeps values the user chose.
pub open spec fn spec_wifi_tuning(transport: Transport, bitrate_bps: u32, gop: u32) -> (u32, u32) {
    match transport {
        Transport::Wifi => (
            if bitrate_bps == USB_DEFAULT_BITRATE_BPS {
                WIFI_DEFAULT_BITRATE_BPS
            } else {
                bitrate_bps
            },
            if gop == USB_DEFAULT_GOP {
                WIFI_DEFAULT_GOP
            } else {
                gop
            },
        ),
        Transport::Usb => (bitrate_bps, gop),
    }
}

/// Resolve the effective bitrate and keyframe interval: the Wi-Fi defaults
/// (12 Mbit/s, a keyframe every 30 frames) apply unless the user overrode
/// the flag, detected by comparing with the USB defaults.
pub fn effective_wifi_tuning(transport: Transport, bitrate_bps: u32, gop: u32) -> (r: (u32, u32))
    ensures
        r == spec_wifi_tuning(transport, bitrate_bps, gop),
{
    match transport {
        Transport::Wifi => {
            let bitrate = if bitrate_bps == USB_DEFAULT_BITRATE_BPS {
                WIFI_DEFAULT_BITRATE_BPS
            } else {
                bitrate_bps
            };
            let gop = if gop == USB_DEFAULT_GOP {
                WIFI_DEFAULT_GOP
            } else {
                gop
            };
            (bitrate, gop)
        },
        Transport::Usb => (bitrate_bps, gop),
    }
}

/// The bitrate of ladder level `i`.
pub open spec fn ladder(i: int) -> u32 {
    if i == 0 {
        20_000_000
    } else if i == 1 {
        12_000_000
    } else if i == 2 {
        8_000_000
    } else {
        4_000_000
    }
}

/// How far `a` is from `b`.
pub open spec fn distance(a: u32, b: u32) -> int {
    if a >= b {
        a - b
    } else {
        b - a
    }
}

/// Level `i` is the first of the ladder levels nearest to `bitrate`.
pub open spec fn nearest_level(bitrate: u32, i: int) -> bool {
    &&& 0 <= i < 4
    &&& forall|j: int| 0 <= j < 4 ==> distance(ladder(i), bitrate) <= distance(#[trigger] ladder(j), bitrate)
    &&& forall|j: int| 0 <= j < i ==> distance(#[trigger] ladder(j), bitrate) > distance(ladder(i), bitrate)
}

fn ladder_at(i: usize) -> (r: u32)
    requires
        i < 4,
    ensures
        r == ladder(i as int),
{
    BITRATE_LADDER[i]
}

/// The ladder level nearest to `bitrate`; the faster one on a tie.
pub fn level_for_bitrate(bitrate: u32) -> (r: usize)
    ensures
        nearest_level(bitrate, r as int),
{
    let mut best: usize = 0;
    let mut best_diff: u32 = u32::MAX;
    let mut i: usize = 0;
    while i < 4
        invariant
            i <= 4,
            best < 4,
            i > 0 ==> best < i,
            i > 0 ==> best_diff == distance(ladder(best as int), bitrate),
            i == 0 ==> best == 0 && best_diff == u32::MAX,
            forall|j: int| 0 <= j < i ==> best_diff <= distance(#[trigger] ladder(j), bitrate),
            forall|j: int| 0 <= j < best ==> distance(#[trigger] ladder(j), bitrate) > best_diff,
        decreases 4 - i,
    {
        let level = ladder_at(i);
        let diff = if level >= bitrate {
            level - bitrate
        } else {
            bitrate - level
        };
        if diff < best_diff {
            best_diff = diff;
            best = i;
        }
        i = i + 1;
    }
    best
}

/// The order of stall samples.
pub open spec fn le_u64() -> spec_fn(u64, u64) -> bool {
    |a: u64, b: u64| a <= b
}

/// `samples` in increasing order.
pub open spec fn sorted_samples(samples: Seq<u64>) -> Seq<u64> {
    samples.sort_by(le_u64())
}

/// The index of the `p`-th percentile among `n` sorted samples: the
/// `ceil(p * n / 100)`-th, counting from one.
pub open spec fn percentile_index(n: int, p: int) -> int {
    let rank = (p * n + 99) / 100;
    let idx = if rank >= 1 {
        rank - 1
    } else {
        0
    };
    if idx < n - 1 {
        idx
    } else {
        n - 1
    }
}

/// The `p`-th percentile of `samples`; 0 when there are none.
pub open spec fn spec_percentile(samples: Seq<u64>, p: int) -> u64 {
    if samples.len() == 0 {
        0
    } else {
        sorted_samples(samples)[percentile_index(samples.len() as int, p)]
    }
}

proof fn lemma_le_total()
    ensures
        total_ordering(le_u64()),
{
}

/// A copy of `samples` in increasing order.
fn sorted_copy(samples: &Vec<u64>) -> (r: Vec<u64>)
    ensures
        r@ == sorted_samples(samples@),
{
    let mut out: Vec<u64> = Vec::new();
    let mut i: usize = 0;
    assert(samples@.take(0) =~= Seq::<u64>::empty());
    while i < samples.len()
        invariant
            i <= samples@.len(),
            sorted_by(out@, le_u64()),
            out@.to_multiset() == samples@.take(i as int).to_multiset(),
        decreases samples@.len() - i,
    {
        let x = samples[i];
        let mut j: usize = 0;
        while j < out.len() && out[j] <= x
            invariant
                j <= out@.len(),
                forall|t: int| 0 <= t < j ==> out@[t] <= x,
            decreases out@.len() - j,
        {
            j = j + 1;
        }
        let ghost before = out@;
        out.insert(j, x);
        proof {
            assert(out@ == before.insert(j as int, x));
            assert forall|a: int, b: int| 0 <= a < b < out@.len() implies #[trigger] le_u64()(
                out@[a],
                out@[b],
            ) by {
                if b < j {
                    assert(le_u64()(before[a], before[b]));
                } else if a < j && b == j {
                } else if a < j && b > j {
                    assert(le_u64()(before[a], before[b - 1]));
                } else if a == j {
                    if j < before.len() {
                        assert(!(before[j as int] <= x));
                        if b - 1 > j {
                            assert(le_u64()(before[j as int], before[b - 1]));
                        }
                    }
                } else {
                    assert(le_u64()(before[a - 1], before[b - 1]));
                }
            }
            assert(samples@.take(i as int + 1) =~= samples@.take(i as int).push(x));
        }
        i = i + 1;
    }
    proof {
        assert(samples@.take(i as int) =~= samples@);
        lemma_le_total();
        samples@.lemma_sort_by_ensures(le_u64());
        vstd::seq_lib::lemma_sorted_unique(out@, samples@.sort_by(le_u64()), le_u64());
    }
    out
}

/// The `p`-th percentile of the samples; 0 when there are none.
fn percentile(samples: &Vec<u64>, p: u64) -> (r: u64)
    requires
        p <= 100,
    ensures
        r == spec_percentile(samples@, p as int),
{
    let n = samples.len();
    if n == 0 {
        return 0;
    }
    let sorted = sorted_copy(samples);
    proof {
        lemma_le_total();
        samples@.lemma_sort_by_ensures(le_u64());
        assert(sorted@.to_multiset().len() == samples@.to_multiset().len());
        assert(sorted@.len() == n);
        assert(p * n <= 100 * n) by (nonlinear_arith)
            requires
                p <= 100,
                n >= 0,
        ;
    }
    let pn: u128 = (p as u128) * (n as u128);
    let rank = ((pn + 99) / 100) as usize;
    let idx = if rank >= 1 {
        rank - 1
    } else {
        0
    };
    let idx = if idx < n - 1 {
        idx
    } else {
        n - 1
    };
    sorted[idx]
}


/// The controller's state.
pub ghost struct RateView {
    /// The ladder level, 0 being the fastest.
    pub level: int,
    /// The stalls of the frames in the window, oldest first, in nanoseconds.
    pub stalls: Seq<u64>,
    /// The keyframe-request count sampled at each frame of the window.
    pub kf_window: Seq<u64>,
    /// Consecutive clean frames.
    pub clean_frames: int,
}

/// Congestion-adaptive bitrate controller.
pub struct RateController {
    level: usize,
    stalls: Vec<u64>,
    kf_window: Vec<u64>,
    clean_frames: usize,
}

impl View for RateController {
    type V = RateView;

    closed spec fn view(&self) -> RateView {
        RateView {
            level: self.level as int,
            stalls: self.stalls@,
            kf_window: self.kf_window@,
            clean_frames: self.clean_frames as int,
        }
    }
}

/// The window after one more sample: the oldest falls out past 60.
pub open spec fn slide(w: Seq<u64>, x: u64) -> Seq<u64> {
    if w.len() + 1 > WINDOW {
        w.push(x).skip(1)
    } else {
        w.push(x)
    }
}

/// What one observed frame, stalled `stall_ns` with `kf_total` keyframe
/// requests counted so far, does to the controller, and the new bitrate it
/// calls for, if any.
pub open spec fn spec_observe(v: RateView, stall_ns: u64, kf_total: u64) -> (RateView, Option<u32>) {
    let stalls = slide(v.stalls, stall_ns);
    let kfs = slide(v.kf_window, kf_total);
    let p95 = spec_percentile(stalls, 95);
    let first = if kfs.len() > 0 {
        kfs[0]
    } else {
        kf_total
    };
    let kf_in_window = if kf_total >= first {
        kf_total - first
    } else {
        0
    };
    let window_full = stalls.len() >= WINDOW;
    let stall_congested = window_full && p95 > STALL_LIMIT_NS;
    let kf_congested = kf_in_window > 2;
    if stall_congested || kf_congested {
        if v.level + 1 < 4 {
            (
                RateView {
                    level: v.level + 1,
                    stalls: Seq::empty(),
                    kf_window: Seq::empty(),
                    clean_frames: 0,
                },
                Some(ladder(v.level + 1)),
            )
        } else {
            (RateView { level: v.level, stalls, kf_window: kfs, clean_frames: 0 }, None)
        }
    } else {
        let clean = if p95 <= STALL_LIMIT_NS {
            v.clean_frames + 1
        } else {
            0
        };
        if clean >= RECOVERY_FRAMES && v.level > 0 && window_full {
            (
                RateView {
                    level: v.level - 1,
                    stalls: Seq::empty(),
                    kf_window: Seq::empty(),
                    clean_frames: 0,
                },
                Some(ladder(v.level - 1)),
            )
        } else {
            (RateView { level: v.level, stalls, kf_window: kfs, clean_frames: clean }, None)
        }
    }
}

/// Removes the first element.
fn drop_oldest(w: &mut Vec<u64>)
    requires
        old(w)@.len() > 0,
    ensures
        final(w)@ == old(w)@.skip(1),
{
    w.remove(0);
    assert(w@ =~= old(w)@.skip(1));
}

impl RateController {
    #[verifier::type_invariant]
    spec fn inv(self) -> bool {
        &&& self.level < 4
        &&& self.stalls@.len() == self.kf_window@.len()
        &&& self.stalls@.len() <= WINDOW
    }

    /// A controller at the ladder level nearest to `start_bitrate`, with
    /// empty windows.
    pub fn new(start_bitrate: u32) -> (r: RateController)
        ensures
            nearest_level(start_bitrate, r@.level),
            r@.stalls.len() == 0,
            r@.kf_window.len() == 0,
            r@.clean_frames == 0,
    {
        RateController {
            level: level_for_bitrate(start_bitrate),
            stalls: Vec::new(),
            kf_window: Vec::new(),
            clean_frames: 0,
        }
    }

    /// The bitrate of the current level.
    pub fn current_bitrate(&self) -> (r: u32)
        ensures
            r == ladder(self@.level),
    {
        proof {
            use_type_invariant(self);
        }
        ladder_at(self.level)
    }

    /// Consecutive clean frames so far.
    pub fn clean_frames(&self) -> (r: usize)
        ensures
            r == self@.clean_frames,
    {
        self.clean_frames
    }

    /// Observe one streamed frame that stalled `stall_ns` nanoseconds, with
    /// `kf_total` keyframe requests counted so far. Returns the new bitrate
    /// when the encoder should be re-created at another one.
    pub fn observe(&mut self, stall_ns: u64, kf_total: u64) -> (r: Option<u32>)
        requires
            old(self)@.clean_frames < usize::MAX,
        ensures
            (final(self)@, r) == spec_observe(old(self)@, stall_ns, kf_total),
            0 <= final(self)@.level < 4,
    {
        proof {
            use_type_invariant(&*self);
        }
        let ghost v = self@;
        let mut taken = RateController { level: 0, stalls: Vec::new(), kf_window: Vec::new(), clean_frames: 0 };
        std::mem::swap(self, &mut taken);
        let RateController { level, stalls: mut stalls, kf_window: mut kfs, clean_frames } = taken;
        stalls.push(stall_ns);
        kfs.push(kf_total);
        if stalls.len() > WINDOW {
            drop_oldest(&mut stalls);
            drop_oldest(&mut kfs);
        }
        assert(stalls@ == slide(v.stalls, stall_ns));
        assert(kfs@ == slide(v.kf_window, kf_total));
        let p95 = percentile(&stalls, 95);
        let first = if kfs.len() > 0 {
            kfs[0]
        } else {
            kf_total
        };
        let kf_in_window = kf_total.saturating_sub(first);
        let window_full = stalls.len() >= WINDOW;
        let stall_congested = window_full && p95 > STALL_LIMIT_NS;
        let kf_congested = kf_in_window > 2;
        if stall_congested || kf_congested {
            if level + 1 < 4 {
                *self = RateController {
                    level: level + 1,
                    stalls: Vec::new(),
                    kf_window: Vec::new(),
                    clean_frames: 0,
                };
                return Some(ladder_at(level + 1));
            }
            *self = RateController { level, stalls, kf_window: kfs, clean_frames: 0 };
            return None;
        }
        let clean = if p95 <= STALL_LIMIT_NS {
            clean_frames + 1
        } else {
            0
        };
        if clean >= RECOVERY_FRAMES && level > 0 && window_full {
            *self = RateController {
                level: level - 1,
                stalls: Vec::new(),
                kf_window: Vec::new(),
                clean_frames: 0,
            };
            return Some(ladder_at(level - 1));
        }
        *self = RateController { level, stalls, kf_window: kfs, clean_frames: clean };
        None
    }
}

/// Every observed frame moves the controller at most one step along the
/// ladder, and it calls for a new bitrate exactly when it moves, naming the
/// bitrate of the level it moved to.
pub proof fn lemma_observe_moves_one_step(v: RateView, stall_ns: u64, kf_total: u64)
    requires
        0 <= v.level < 4,
    ensures
        ({
            let (next, r) = spec_observe(v, stall_ns, kf_total);
            &&& 0 <= next.level < 4
            &&& v.level - 1 <= next.level <= v.level + 1
            &&& (r is Some <==> next.level != v.level)
            &&& (r matches Some(b) ==> b == ladder(next.level))
        }),
{
}

/// More than two keyframe requests within the window step the bitrate down
/// at once, unless it is already at the bottom of the ladder.
pub proof fn lemma_keyframe_storm_steps_down(v: RateView, stall_ns: u64, kf_total: u64)
    requires
        0 <= v.level < 3,
        v.kf_window.len() > 0,
        v.kf_window.len() < WINDOW,
        kf_total >= v.kf_window[0] + 3,
    ensures
        spec_observe(v, stall_ns, kf_total).0.level == v.level + 1,
        spec_observe(v, stall_ns, kf_total).1 == Some(ladder(v.level + 1)),
{
    assert(slide(v.kf_window, kf_total)[0] == v.kf_window[0]);
}

/// The bitrate never steps up before a full window and 600 consecutive clean
/// frames.
pub proof fn lemma_recovery_needs_clean_frames(v: RateView, stall_ns: u64, kf_total: u64)
    requires
        0 <= v.level < 4,
        v.clean_frames + 1 < RECOVERY_FRAMES,
    ensures
        spec_observe(v, stall_ns, kf_total).0.level >= v.level,
{
}

/// Any move along the ladder, down or up, starts afresh: the clean-frame
/// count goes back to zero and both windows are emptied. Otherwise the
/// clean-frame count grows by at most one per frame.
pub proof fn lemma_level_change_restarts_count(v: RateView, stall_ns: u64, kf_total: u64)
    requires
        v.clean_frames >= 0,
    ensures
        ({
            let next = spec_observe(v, stall_ns, kf_total).0;
            &&& next.level != v.level ==> next.clean_frames == 0 && next.stalls.len() == 0
                && next.kf_window.len() == 0
            &&& next.clean_frames <= v.clean_frames + 1
            &&& next.clean_frames >= 0
        }),
{
}

/// The state after observing the frames `obs` (stall, keyframe count) in turn.
pub open spec fn observe_all(v: RateView, obs: Seq<(u64, u64)>) -> RateView
    decreases obs.len(),
{
    if obs.len() == 0 {
        v
    } else {
        spec_observe(observe_all(v, obs.drop_last()), obs.last().0, obs.last().1).0
    }
}

/// While fewer frames have been observed than the clean frames still owed
/// before recovery, the bitrate cannot step up.
pub proof fn lemma_no_step_up_before_recovery(v: RateView, obs: Seq<(u64, u64)>)
    requires
        v.clean_frames >= 0,
        v.clean_frames + obs.len() < RECOVERY_FRAMES,
    ensures
        observe_all(v, obs).level >= v.level,
        0 <= observe_all(v, obs).clean_frames <= v.clean_frames + obs.len(),
    decreases obs.len(),
{
    if obs.len() > 0 {
        lemma_no_step_up_before_recovery(v, obs.drop_last());
        lemma_level_change_restarts_count(observe_all(v, obs.drop_last()), obs.last().0, obs.last().1);
    }
}

/// After a step down the controller needs a whole new recovery period: for
/// the next 599 frames, whatever they are, it does not step back up.
pub proof fn lemma_step_down_restarts_recovery(u: RateView, stall_ns: u64, kf_total: u64, obs: Seq<(u64, u64)>)
    requires
        u.clean_frames >= 0,
        spec_observe(u, stall_ns, kf_total).0.level == u.level + 1,
        obs.len() < RECOVERY_FRAMES,
    ensures
        spec_observe(u, stall_ns, kf_total).0.clean_frames == 0,
        observe_all(spec_observe(u, stall_ns, kf_total).0, obs).level >= u.level + 1,
{
    lemma_level_change_restarts_count(u, stall_ns, kf_total);
    lemma_no_step_up_before_recovery(spec_observe(u, stall_ns, kf_total).0, obs);
}

} // verus!
