//! Annex-B NAL-unit inspection for checking encoder output: split a stream
//! on its start codes (`00 00 01`, or `00 00 00 01`) and classify each unit,
//! for H.264 and H.265.

use vstd::prelude::*;

use crate::encoder::config::Codec;

verus! {

/// What an Annex-B stream holds, counted by unit kind.
#[derive(Debug, Clone, PartialEq, Eq)]
pub struct NalSummary {
    pub total_nals: usize,
    pub has_sps: bool,
    pub has_pps: bool,
    /// H.265 only; H.264 has no VPS.
    pub has_vps: bool,
    /// Number of IDR (keyframe) coded slices.
    pub idr_slices: usize,
    /// Number of non-IDR coded slices.
    pub non_idr_slices: usize,
}

/// A [`NalSummary`] with its counts as numbers.
pub ghost struct SummaryView {
    pub total_nals: nat,
    pub has_sps: bool,
    pub has_pps: bool,
    pub has_vps: bool,
    pub idr_slices: nat,
    pub non_idr_slices: nat,
}

impl View for NalSummary {
    type V = SummaryView;

    open spec fn view(&self) -> SummaryView {
        SummaryView {
            total_nals: self.total_nals as nat,
            has_sps: self.has_sps,
            has_pps: self.has_pps,
            has_vps: self.has_vps,
            idr_slices: self.idr_slices as nat,
            non_idr_slices: self.non_idr_slices as nat,
        }
    }
}

/// Nothing counted.
pub open spec fn empty_summary() -> SummaryView {
    SummaryView {
        total_nals: 0,
        has_sps: false,
        has_pps: false,
        has_vps: false,
        idr_slices: 0,
        non_idr_slices: 0,
    }
}

impl Default for NalSummary {
    fn default() -> (r: NalSummary)
        ensures
            r@ == empty_summary(),
    {
        NalSummary {
            total_nals: 0,
            has_sps: false,
            has_pps: false,
            has_vps: false,
            idr_slices: 0,
            non_idr_slices: 0,
        }
    }
}

/// Whether a stream with this summary can be decoded: every required
/// parameter set and at least one IDR to start from.
pub open spec fn playable(s: SummaryView, codec: Codec) -> bool {
    let params = match codec {
        Codec::H264 => s.has_sps && s.has_pps,
        Codec::H265 => s.has_sps && s.has_pps && s.has_vps,
    };
    params && s.idr_slices > 0
}

impl NalSummary {
    /// A decodable stream must carry at least one parameter set of each
    /// required kind and at least one IDR to start from.
    pub fn is_playable(&self, codec: Codec) -> (r: bool)
        ensures
            r == playable(self@, codec),
    {
        let params = match codec {
            Codec::H264 => self.has_sps && self.has_pps,
            Codec::H265 => self.has_sps && self.has_pps && self.has_vps,
        };
        params && self.idr_slices > 0
    }
}

/// A start code `00 00 01` begins at `i`.
pub open spec fn start_code_at(s: Seq<u8>, i: int) -> bool {
    0 <= i && i + 3 <= s.len() && s[i] == 0 && s[i + 1] == 0 && s[i + 2] == 1
}

/// The first start code at or after `i`.
pub open spec fn first_start_code(s: Seq<u8>, i: int) -> Option<int>
    decreases s.len() - i,
{
    if i < 0 || i + 3 > s.len() {
        None
    } else if start_code_at(s, i) {
        Some(i)
    } else {
        first_start_code(s, i + 1)
    }
}

/// The units from `cur` on, looking for the next start code at `j`: a unit
/// ends where a start code begins, less a zero byte that belongs to a
/// four-byte start code; the last unit runs to the end of the stream.
pub open spec fn units_from(s: Seq<u8>, cur: int, j: int) -> Seq<(int, int)>
    decreases s.len() - j,
{
    if j < 0 || j + 3 > s.len() {
        if cur < s.len() {
            seq![(cur, s.len() as int)]
        } else {
            Seq::empty()
        }
    } else if start_code_at(s, j) {
        let end = if j > cur && s[j - 1] == 0 {
            j - 1
        } else {
            j
        };
        seq![(cur, end)] + units_from(s, j + 3, j + 3)
    } else {
        units_from(s, cur, j + 1)
    }
}

/// The unit boundaries of an Annex-B stream, start codes stripped.
pub open spec fn nal_bounds(s: Seq<u8>) -> Seq<(int, int)> {
    match first_start_code(s, 0) {
        None => Seq::empty(),
        Some(i) => units_from(s, i + 3, i + 3),
    }
}

/// The summary after counting one unit whose first byte is `h`.
pub open spec fn count_unit(acc: SummaryView, h: u8, codec: Codec) -> SummaryView {
    let acc = SummaryView { total_nals: acc.total_nals + 1, ..acc };
    match codec {
        Codec::H264 => {
            let t = h & 0x1f;
            if t == 7 {
                SummaryView { has_sps: true, ..acc }
            } else if t == 8 {
                SummaryView { has_pps: true, ..acc }
            } else if t == 5 {
                SummaryView { idr_slices: acc.idr_slices + 1, ..acc }
            } else if t == 1 {
                SummaryView { non_idr_slices: acc.non_idr_slices + 1, ..acc }
            } else {
                acc
            }
        },
        Codec::H265 => {
            let t = (h >> 1) & 0x3f;
            if t == 33 {
                SummaryView { has_sps: true, ..acc }
            } else if t == 34 {
                SummaryView { has_pps: true, ..acc }
            } else if t == 32 {
                SummaryView { has_vps: true, ..acc }
            } else if t == 19 || t == 20 {
                SummaryView { idr_slices: acc.idr_slices + 1, ..acc }
            } else if t <= 9 || (16 <= t <= 18) || t == 21 {
                SummaryView { non_idr_slices: acc.non_idr_slices + 1, ..acc }
            } else {
                acc
            }
        },
    }
}

/// The summary of the units `units` of `s`; empty units are skipped.
pub open spec fn summary_of(s: Seq<u8>, units: Seq<(int, int)>, codec: Codec) -> SummaryView
    decreases units.len(),
{
    if units.len() == 0 {
        empty_summary()
    } else {
        let prev = summary_of(s, units.drop_last(), codec);
        let (a, b) = units.last();
        if a >= b {
            prev
        } else {
            count_unit(prev, s[a], codec)
        }
    }
}


/// Unit boundaries as numbers.
pub open spec fn bounds_view(v: Seq<(usize, usize)>) -> Seq<(int, int)> {
    v.map_values(|p: (usize, usize)| (p.0 as int, p.1 as int))
}

fn start_code(stream: &[u8], i: usize) -> (r: bool)
    requires
        i + 3 <= stream@.len(),
    ensures
        r == start_code_at(stream@, i as int),
{
    stream[i] == 0 && stream[i + 1] == 0 && stream[i + 2] == 1
}

/// The unit boundaries of an Annex-B stream, start codes stripped.
fn nal_units(stream: &[u8]) -> (r: Vec<(usize, usize)>)
    ensures
        bounds_view(r@) == nal_bounds(stream@),
        forall|k: int| 0 <= k < r@.len() ==> (#[trigger] r@[k]).0 <= r@[k].1 <= stream@.len(),
{
    let ghost s = stream@;
    let n = stream.len();
    let mut nals: Vec<(usize, usize)> = Vec::new();
    let mut i: usize = 0;
    while n - i >= 3 && !start_code(stream, i)
        invariant
            s == stream@,
            n == s.len(),
            i <= n,
            first_start_code(s, 0) == first_start_code(s, i as int),
        decreases n - i,
    {
        i = i + 1;
    }
    if n - i < 3 {
        return nals;
    }
    let mut cur: usize = i + 3;
    let mut j: usize = i + 3;
    assert(bounds_view(nals@) =~= Seq::<(int, int)>::empty());
    assert(bounds_view(nals@) + units_from(s, cur as int, j as int) =~= nal_bounds(s));
    while n - j >= 3
        invariant
            s == stream@,
            n == s.len(),
            cur <= j <= n,
            bounds_view(nals@) + units_from(s, cur as int, j as int) == nal_bounds(s),
            forall|k: int| 0 <= k < nals@.len() ==> (#[trigger] nals@[k]).0 <= nals@[k].1 <= n,
        decreases n - j,
    {
        if start_code(stream, j) {
            let mut end = j;
            if end > cur && stream[end - 1] == 0 {
                end = end - 1;
            }
            let ghost before = nals@;
            nals.push((cur, end));
            assert(bounds_view(nals@) =~= bounds_view(before) + seq![(cur as int, end as int)]);
            cur = j + 3;
            j = j + 3;
        } else {
            j = j + 1;
        }
    }
    if cur < n {
        let ghost before = nals@;
        nals.push((cur, n));
        assert(bounds_view(nals@) =~= bounds_view(before) + seq![(cur as int, n as int)]);
    }
    assert(bounds_view(nals@) =~= nal_bounds(s));
    nals
}

/// Count the units of an Annex-B stream by kind.
pub fn summarize(stream: &[u8], codec: Codec) -> (r: NalSummary)
    ensures
        r@ == summary_of(stream@, nal_bounds(stream@), codec),
{
    let units = nal_units(stream);
    let ghost all = bounds_view(units@);
    let mut s = NalSummary::default();
    let mut k: usize = 0;
    assert(all.take(0) =~= Seq::<(int, int)>::empty());
    while k < units.len()
        invariant
            all == bounds_view(units@),
            all == nal_bounds(stream@),
            forall|t: int| 0 <= t < units@.len() ==> (#[trigger] units@[t]).0 <= units@[t].1 <= stream@.len(),
            k <= units@.len(),
            s@ == summary_of(stream@, all.take(k as int), codec),
            s.total_nals <= k,
            s.idr_slices <= s.total_nals,
            s.non_idr_slices <= s.total_nals,
        decreases units@.len() - k,
    {
        let (a, b) = units[k];
        assert(all.take(k as int + 1).drop_last() =~= all.take(k as int));
        assert(all.take(k as int + 1).last() == (a as int, b as int));
        if a < b {
            let h = stream[a];
            s.total_nals = s.total_nals + 1;
            match codec {
                Codec::H264 => {
                    let t = h & 0x1f;
                    if t == 7 {
                        s.has_sps = true;
                    } else if t == 8 {
                        s.has_pps = true;
                    } else if t == 5 {
                        s.idr_slices = s.idr_slices + 1;
                    } else if t == 1 {
                        s.non_idr_slices = s.non_idr_slices + 1;
                    }
                },
                Codec::H265 => {
                    let t = (h >> 1) & 0x3f;
                    if t == 33 {
                        s.has_sps = true;
                    } else if t == 34 {
                        s.has_pps = true;
                    } else if t == 32 {
                        s.has_vps = true;
                    } else if t == 19 || t == 20 {
                        s.idr_slices = s.idr_slices + 1;
                    } else if t <= 9 || (16 <= t && t <= 18) || t == 21 {
                        s.non_idr_slices = s.non_idr_slices + 1;
                    }
                },
            }
        }
        k = k + 1;
    }
    assert(all.take(k as int) =~= all);
    s
}

/// H.265 keyframes: a unit of type `IDR_W_RADL` (19) or `IDR_N_LP` (20)
/// counts as one more IDR slice and never as a non-IDR slice, so a stream
/// that already carries its VPS, SPS and PPS becomes playable with it.
pub proof fn lemma_h265_idr_units_are_keyframes(acc: SummaryView, h: u8)
    requires
        (h >> 1) & 0x3f == 19 || (h >> 1) & 0x3f == 20,
    ensures
        count_unit(acc, h, Codec::H265).idr_slices == acc.idr_slices + 1,
        count_unit(acc, h, Codec::H265).non_idr_slices == acc.non_idr_slices,
        count_unit(acc, h, Codec::H265).total_nals == acc.total_nals + 1,
        acc.has_vps && acc.has_sps && acc.has_pps ==> playable(count_unit(acc, h, Codec::H265), Codec::H265),
{
}

/// H.265 slices that are not keyframes (types 0-9, 16-18 and 21) count as
/// non-IDR slices and never as IDR slices.
pub proof fn lemma_h265_other_slices_are_not_keyframes(acc: SummaryView, h: u8)
    requires
        (h >> 1) & 0x3f <= 9 || (16 <= (h >> 1) & 0x3f <= 18) || (h >> 1) & 0x3f == 21,
    ensures
        count_unit(acc, h, Codec::H265).idr_slices == acc.idr_slices,
        count_unit(acc, h, Codec::H265).non_idr_slices == acc.non_idr_slices + 1,
{
}

/// H.264: a unit of type 5 counts as an IDR slice and one of type 1 as a
/// non-IDR slice, never the other way round.
pub proof fn lemma_h264_slice_kinds(acc: SummaryView, h: u8)
    ensures
        h & 0x1f == 5 ==> count_unit(acc, h, Codec::H264).idr_slices == acc.idr_slices + 1
            && count_unit(acc, h, Codec::H264).non_idr_slices == acc.non_idr_slices,
        h & 0x1f == 1 ==> count_unit(acc, h, Codec::H264).idr_slices == acc.idr_slices
            && count_unit(acc, h, Codec::H264).non_idr_slices == acc.non_idr_slices + 1,
{
}

/// Every non-empty H.265 unit that opens with a keyframe header adds one
/// to the IDR count of the stream's summary, whatever came before it.
pub proof fn lemma_h265_keyframe_unit_counts_in_summary(s: Seq<u8>, units: Seq<(int, int)>)
    requires
        units.len() > 0,
        units.last().0 < units.last().1,
        0 <= units.last().0 < s.len(),
        (s[units.last().0] >> 1) & 0x3f == 19 || (s[units.last().0] >> 1) & 0x3f == 20,
    ensures
        summary_of(s, units, Codec::H265).idr_slices == summary_of(s, units.drop_last(), Codec::H265).idr_slices + 1,
        summary_of(s, units, Codec::H265).non_idr_slices == summary_of(s, units.drop_last(), Codec::H265).non_idr_slices,
{
    lemma_h265_idr_units_are_keyframes(summary_of(s, units.drop_last(), Codec::H265), s[units.last().0]);
}

/// H.265 parameter sets: a unit of type 32, 33 or 34 records a VPS, SPS or
/// PPS respectively and counts as no slice at all.
pub proof fn lemma_h265_parameter_sets(acc: SummaryView, h: u8)
    ensures
        (h >> 1) & 0x3f == 32 ==> count_unit(acc, h, Codec::H265).has_vps,
        (h >> 1) & 0x3f == 33 ==> count_unit(acc, h, Codec::H265).has_sps,
        (h >> 1) & 0x3f == 34 ==> count_unit(acc, h, Codec::H265).has_pps,
        32 <= (h >> 1) & 0x3f <= 34 ==> count_unit(acc, h, Codec::H265).idr_slices == acc.idr_slices
            && count_unit(acc, h, Codec::H265).non_idr_slices == acc.non_idr_slices,
        count_unit(acc, h, Codec::H265).total_nals == acc.total_nals + 1,
{
}

} // verus!
