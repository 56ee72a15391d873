//! The keys of an ordered map, read out in increasing order.

use vstd::prelude::*;

use std::collections::BTreeMap;

verus! {

broadcast use vstd::laws_cmp::group_laws_cmp, vstd::std_specs::btree::group_btree_axioms;

/// Each element is below the next.
pub open spec fn increasing_u64(s: Seq<u64>) -> bool {
    forall|i: int, j: int| 0 <= i < j < s.len() ==> s[i] < s[j]
}

/// The keys of `m` in increasing order.
pub fn keys_u64<V>(m: &BTreeMap<u64, V>) -> (ks: Vec<u64>)
    ensures
        increasing_u64(ks@),
        ks@.to_set() == m@.dom(),
{
    let mut ks: Vec<u64> = Vec::new();
    for k in it: m.keys()
        invariant
            it.seq().unref().to_set() == m@.dom(),
            it.seq().len() == m@.dom().len(),
            vstd::std_specs::btree::increasing_seq(it.seq()),
            ks@ == it.seq().unref().take(it.index()),
            increasing_u64(ks@),
            it.index() == it.seq().len() ==> ks@ == it.seq().unref(),
    {
        ks.push(*k);
        proof {
            assert(ks@ =~= it.seq().unref().take(it.index() + 1));
            assert(it.seq().unref().take(it.seq().len() as int) =~= it.seq().unref());
            lemma_keys_increase_u64(it.seq());
        }
    }
    ks
}

/// Keys that a map's key iterator yields in increasing order increase.
proof fn lemma_keys_increase_u64(s: Seq<&u64>)
    requires
        vstd::std_specs::btree::increasing_seq(s),
    ensures
        forall|i: int, j: int| 0 <= i < j < s.len() ==> *s[i] < *s[j],
{
    assert(vstd::laws_cmp::obeys_cmp::<&u64>());
    assert forall|i: int, j: int| 0 <= i < j < s.len() implies *s[i] < *s[j] by {
        assert(vstd::std_specs::cmp::OrdSpec::cmp_spec(&s[i], &s[j]) is Less);
    }
}

/// Two increasing sequences with the same members are the same sequence.
pub proof fn lemma_increasing_same_members_u64(a: Seq<u64>, b: Seq<u64>)
    requires
        increasing_u64(a),
        increasing_u64(b),
        a.to_set() == b.to_set(),
    ensures
        a == b,
    decreases a.len(),
{
    if a.len() == 0 {
        if b.len() > 0 {
            assert(b.to_set().contains(b[0]));
        }
        assert(a =~= b);
    } else {
        assert(a.to_set().contains(a[0]));
        assert(b.to_set().contains(a[0]));
        let j = choose|j: int| 0 <= j < b.len() && b[j] == a[0];
        assert(b.to_set().contains(b[0]));
        let i = choose|i: int| 0 <= i < a.len() && a[i] == b[0];
        if j > 0 {
            assert(b[0] < b[j]);
            if i > 0 {
                assert(a[0] < a[i]);
            }
        }
        assert(a[0] == b[0]);
        let a1 = a.skip(1);
        let b1 = b.skip(1);
        assert forall|x: u64| a1.to_set().contains(x) <==> b1.to_set().contains(x) by {
            if a1.to_set().contains(x) {
                let k = choose|k: int| 0 <= k < a1.len() && a1[k] == x;
                assert(a[k + 1] == x);
                assert(a.to_set().contains(x));
                let m = choose|m: int| 0 <= m < b.len() && b[m] == x;
                assert(a[0] < a[k + 1]);
                if m == 0 {
                    assert(false);
                }
                assert(b1[m - 1] == x);
            }
            if b1.to_set().contains(x) {
                let k = choose|k: int| 0 <= k < b1.len() && b1[k] == x;
                assert(b[k + 1] == x);
                assert(b.to_set().contains(x));
                let m = choose|m: int| 0 <= m < a.len() && a[m] == x;
                assert(b[0] < b[k + 1]);
                if m == 0 {
                    assert(false);
                }
                assert(a1[m - 1] == x);
            }
        }
        assert(a1.to_set() =~= b1.to_set());
        lemma_increasing_same_members_u64(a1, b1);
        assert(a =~= seq![a[0]] + a1);
        assert(b =~= seq![b[0]] + b1);
    }
}

/// Each element is below the next.
pub open spec fn increasing_u16(s: Seq<u16>) -> bool {
    forall|i: int, j: int| 0 <= i < j < s.len() ==> s[i] < s[j]
}

/// The keys of `m` in increasing order.
pub fn keys_u16<V>(m: &BTreeMap<u16, V>) -> (ks: Vec<u16>)
    ensures
        increasing_u16(ks@),
        ks@.to_set() == m@.dom(),
{
    let mut ks: Vec<u16> = Vec::new();
    for k in it: m.keys()
        invariant
            it.seq().unref().to_set() == m@.dom(),
            it.seq().len() == m@.dom().len(),
            vstd::std_specs::btree::increasing_seq(it.seq()),
            ks@ == it.seq().unref().take(it.index()),
            increasing_u16(ks@),
            it.index() == it.seq().len() ==> ks@ == it.seq().unref(),
    {
        ks.push(*k);
        proof {
            assert(ks@ =~= it.seq().unref().take(it.index() + 1));
            assert(it.seq().unref().take(it.seq().len() as int) =~= it.seq().unref());
            lemma_keys_increase_u16(it.seq());
        }
    }
    ks
}

/// Keys that a map's key iterator yields in increasing order increase.
proof fn lemma_keys_increase_u16(s: Seq<&u16>)
    requires
        vstd::std_specs::btree::increasing_seq(s),
    ensures
        forall|i: int, j: int| 0 <= i < j < s.len() ==> *s[i] < *s[j],
{
    assert(vstd::laws_cmp::obeys_cmp::<&u16>());
    assert forall|i: int, j: int| 0 <= i < j < s.len() implies *s[i] < *s[j] by {
        assert(vstd::std_specs::cmp::OrdSpec::cmp_spec(&s[i], &s[j]) is Less);
    }
}

/// Two increasing sequences with the same members are the same sequence.
pub proof fn lemma_increasing_same_members_u16(a: Seq<u16>, b: Seq<u16>)
    requires
        increasing_u16(a),
        increasing_u16(b),
        a.to_set() == b.to_set(),
    ensures
        a == b,
    decreases a.len(),
{
    if a.len() == 0 {
        if b.len() > 0 {
            assert(b.to_set().contains(b[0]));
        }
        assert(a =~= b);
    } else {
        assert(a.to_set().contains(a[0]));
        assert(b.to_set().contains(a[0]));
        let j = choose|j: int| 0 <= j < b.len() && b[j] == a[0];
        assert(b.to_set().contains(b[0]));
        let i = choose|i: int| 0 <= i < a.len() && a[i] == b[0];
        if j > 0 {
            assert(b[0] < b[j]);
            if i > 0 {
                assert(a[0] < a[i]);
            }
        }
        assert(a[0] == b[0]);
        let a1 = a.skip(1);
        let b1 = b.skip(1);
        assert forall|x: u16| a1.to_set().contains(x) <==> b1.to_set().contains(x) by {
            if a1.to_set().contains(x) {
                let k = choose|k: int| 0 <= k < a1.len() && a1[k] == x;
                assert(a[k + 1] == x);
                assert(a.to_set().contains(x));
                let m = choose|m: int| 0 <= m < b.len() && b[m] == x;
                assert(a[0] < a[k + 1]);
                if m == 0 {
                    assert(false);
                }
                assert(b1[m - 1] == x);
            }
            if b1.to_set().contains(x) {
                let k = choose|k: int| 0 <= k < b1.len() && b1[k] == x;
                assert(b[k + 1] == x);
                assert(b.to_set().contains(x));
                let m = choose|m: int| 0 <= m < a.len() && a[m] == x;
                assert(b[0] < b[k + 1]);
                if m == 0 {
                    assert(false);
                }
                assert(a1[m - 1] == x);
            }
        }
        assert(a1.to_set() =~= b1.to_set());
        lemma_increasing_same_members_u16(a1, b1);
        assert(a =~= seq![a[0]] + a1);
        assert(b =~= seq![b[0]] + b1);
    }
}

} // verus!
