//! Trust-on-first-use pairing store for Wi-Fi TLS connections: the
//! certificate fingerprint pinned for each tablet, so the host can pin the
//! tablet's self-signed certificate without a PKI. Loading and saving the
//! store as JSON is the caller's part.

use vstd::prelude::*;
use vstd::string::*;

use crate::text::{chars_of, decimal, push_char, push_decimal};

verus! {

/// One paired tablet.
#[derive(Debug, Clone)]
pub struct TabletEntry {
    pub tablet_id: String,
    pub ip: String,
    pub cert_fingerprint: String,
    /// Unix timestamp of the pairing, in seconds.
    pub paired_at: i64,
}

/// A [`TabletEntry`] with its text as characters.
pub ghost struct EntryView {
    pub tablet_id: Seq<char>,
    pub ip: Seq<char>,
    pub cert_fingerprint: Seq<char>,
    pub paired_at: i64,
}

impl View for TabletEntry {
    type V = EntryView;

    open spec fn view(&self) -> EntryView {
        EntryView {
            tablet_id: self.tablet_id@,
            ip: self.ip@,
            cert_fingerprint: self.cert_fingerprint@,
            paired_at: self.paired_at,
        }
    }
}

/// The entry stored under `key` in a list of keyed entries: the last one
/// with that key.
pub open spec fn lookup(s: Seq<(Seq<char>, EntryView)>, key: Seq<char>) -> Option<EntryView>
    decreases s.len(),
{
    if s.len() == 0 {
        None
    } else if s.last().0 == key {
        Some(s.last().1)
    } else {
        lookup(s.drop_last(), key)
    }
}

/// No key occurs twice.
pub open spec fn keys_distinct(s: Seq<(Seq<char>, EntryView)>) -> bool {
    forall|i: int, j: int| 0 <= i < j < s.len() ==> (#[trigger] s[i]).0 != (#[trigger] s[j]).0
}

/// Pinned certificate fingerprints, by tablet id (`ip:port`).
pub struct PairingStore {
    tablets: Vec<(String, TabletEntry)>,
}

impl View for PairingStore {
    type V = Seq<(Seq<char>, EntryView)>;

    closed spec fn view(&self) -> Seq<(Seq<char>, EntryView)> {
        keyed_view(self.tablets@)
    }
}

proof fn lemma_lookup_absent(s: Seq<(Seq<char>, EntryView)>, key: Seq<char>)
    requires
        forall|i: int| 0 <= i < s.len() ==> (#[trigger] s[i]).0 != key,
    ensures
        lookup(s, key) is None,
    decreases s.len(),
{
    if s.len() > 0 {
        lemma_lookup_absent(s.drop_last(), key);
    }
}

proof fn lemma_lookup_at(s: Seq<(Seq<char>, EntryView)>, key: Seq<char>, i: int)
    requires
        keys_distinct(s),
        0 <= i < s.len(),
        s[i].0 == key,
    ensures
        lookup(s, key) == Some(s[i].1),
    decreases s.len(),
{
    if i < s.len() - 1 {
        assert(s.last().0 != key);
        lemma_lookup_at(s.drop_last(), key, i);
    }
}

/// Looking up a key in a list that differs from `s` only at index `i`,
/// which holds another key in both, gives what it gives in `s`.
proof fn lemma_lookup_update_other(
    s: Seq<(Seq<char>, EntryView)>,
    i: int,
    v: (Seq<char>, EntryView),
    key: Seq<char>,
)
    requires
        0 <= i < s.len(),
        s[i].0 != key,
        v.0 != key,
    ensures
        lookup(s.update(i, v), key) == lookup(s, key),
    decreases s.len(),
{
    let t = s.update(i, v);
    if i < s.len() - 1 {
        assert(t.drop_last() =~= s.drop_last().update(i, v));
        lemma_lookup_update_other(s.drop_last(), i, v, key);
    } else {
        assert(t.drop_last() =~= s.drop_last());
    }
}

/// The keyed entries as characters.
pub open spec fn keyed_view(v: Seq<(String, TabletEntry)>) -> Seq<(Seq<char>, EntryView)> {
    v.map_values(|p: (String, TabletEntry)| (p.0@, p.1@))
}

/// Where `key` is stored in `tablets`.
fn position(tablets: &Vec<(String, TabletEntry)>, key: &String) -> (r: Option<usize>)
    ensures
        match r {
            Some(i) => i < tablets@.len() && keyed_view(tablets@)[i as int].0 == key@,
            None => forall|i: int|
                0 <= i < tablets@.len() ==> (#[trigger] keyed_view(tablets@)[i]).0 != key@,
        },
{
    let mut i: usize = 0;
    while i < tablets.len()
        invariant
            i <= tablets@.len(),
            forall|k: int| 0 <= k < i ==> (#[trigger] keyed_view(tablets@)[k]).0 != key@,
        decreases tablets@.len() - i,
    {
        if tablets[i].0 == *key {
            return Some(i);
        }
        i = i + 1;
    }
    None
}

impl PairingStore {
    #[verifier::type_invariant]
    spec fn inv(self) -> bool {
        keys_distinct(self@)
    }

    /// The entry pinned for `tablet_id`.
    pub closed spec fn entry(self, tablet_id: Seq<char>) -> Option<EntryView> {
        lookup(self@, tablet_id)
    }

    /// An empty store.
    pub fn new() -> (r: PairingStore)
        ensures
            forall|k: Seq<char>| r.entry(k) is None,
    {
        let r = PairingStore { tablets: Vec::new() };
        assert forall|k: Seq<char>| r.entry(k) is None by {
            lemma_lookup_absent(r@, k);
        }
        r
    }

    /// A copy of the keyed entries, for saving the store.
    pub fn tablets(&self) -> (r: Vec<(String, TabletEntry)>)
        ensures
            keyed_view(r@) == self@,
    {
        let mut out: Vec<(String, TabletEntry)> = Vec::new();
        let mut i: usize = 0;
        while i < self.tablets.len()
            invariant
                i <= self.tablets@.len(),
                keyed_view(out@) == keyed_view(self.tablets@).take(i as int),
            decreases self.tablets@.len() - i,
        {
            let (k, e) = &self.tablets[i];
            let copy = TabletEntry {
                tablet_id: e.tablet_id.clone(),
                ip: e.ip.clone(),
                cert_fingerprint: e.cert_fingerprint.clone(),
                paired_at: e.paired_at,
            };
            let ghost before = out@;
            out.push((k.clone(), copy));
            assert(keyed_view(out@) =~= keyed_view(before).push((k@, e@)));
            i = i + 1;
            assert(keyed_view(out@) =~= keyed_view(self.tablets@).take(i as int));
        }
        assert(keyed_view(self.tablets@).take(i as int) =~= keyed_view(self.tablets@));
        out
    }

    /// A store holding `entries`; of two entries with one key, the later is
    /// kept.
    pub fn from_tablets(entries: Vec<(String, TabletEntry)>) -> (r: PairingStore)
        ensures
            forall|k: Seq<char>| r.entry(k) == lookup(keyed_view(entries@), k),
    {
        let mut store = PairingStore::new();
        let mut i: usize = 0;
        while i < entries.len()
            invariant
                i <= entries@.len(),
                forall|k: Seq<char>| store.entry(k) == lookup(keyed_view(entries@).take(i as int), k),
            decreases entries@.len() - i,
        {
            let (k, e) = &entries[i];
            store.insert_entry(k, e);
            proof {
                let t = keyed_view(entries@).take(i as int + 1);
                assert(t.drop_last() =~= keyed_view(entries@).take(i as int));
                assert(t.last() == (k@, e@));
            }
            i = i + 1;
        }
        assert(keyed_view(entries@).take(i as int) =~= keyed_view(entries@));
        store
    }

    fn insert_entry(&mut self, key: &String, e: &TabletEntry)
        ensures
            final(self).entry(key@) == Some(e@),
            forall|k: Seq<char>| k != key@ ==> final(self).entry(k) == old(self).entry(k),
    {
        proof {
            use_type_invariant(&*self);
        }
        let entry = TabletEntry {
            tablet_id: e.tablet_id.clone(),
            ip: e.ip.clone(),
            cert_fingerprint: e.cert_fingerprint.clone(),
            paired_at: e.paired_at,
        };
        let ghost before = self@;
        let mut tablets: Vec<(String, TabletEntry)> = Vec::new();
        std::mem::swap(&mut tablets, &mut self.tablets);
        let found = position(&tablets, key);
        match found {
            Some(i) => {
                tablets.set(i, (key.clone(), entry));
            },
            None => {
                tablets.push((key.clone(), entry));
            },
        }
        let ghost after = keyed_view(tablets@);
        proof {
            match found {
                Some(i) => {
                    assert(after =~= before.update(i as int, (key@, e@)));
                    lemma_lookup_at(after, key@, i as int);
                    assert forall|k: Seq<char>| k != key@ implies lookup(after, k) == lookup(before, k) by {
                        lemma_lookup_update_other(before, i as int, (key@, e@), k);
                    }
                },
                None => {
                    assert(after =~= before.push((key@, e@)));
                    assert(after.drop_last() =~= before);
                },
            }
        }
        self.tablets = tablets;
    }

    /// Pins `fingerprint` for `tablet_id`, paired at `paired_at`, replacing
    /// any earlier pairing of that tablet; other tablets keep theirs.
    pub fn remember_at(&mut self, tablet_id: &str, ip: &str, fingerprint: &str, paired_at: i64)
        ensures
            final(self).entry(tablet_id@) == Some(
                EntryView {
                    tablet_id: tablet_id@,
                    ip: ip@,
                    cert_fingerprint: fingerprint@,
                    paired_at,
                },
            ),
            forall|k: Seq<char>| k != tablet_id@ ==> final(self).entry(k) == old(self).entry(k),
    {
        proof {
            use_type_invariant(&*self);
        }
        let key = String::from_str(tablet_id);
        let entry = TabletEntry {
            tablet_id: String::from_str(tablet_id),
            ip: String::from_str(ip),
            cert_fingerprint: String::from_str(fingerprint),
            paired_at,
        };
        let ghost e = entry@;
        let ghost before = self@;
        let mut tablets: Vec<(String, TabletEntry)> = Vec::new();
        std::mem::swap(&mut tablets, &mut self.tablets);
        assert(before == keyed_view(tablets@));
        let found = position(&tablets, &key);
        match found {
            Some(i) => {
                tablets.set(i, (key, entry));
            },
            None => {
                tablets.push((key, entry));
            },
        }
        let ghost after = keyed_view(tablets@);
        proof {
            match found {
                Some(i) => {
                    assert(after =~= before.update(i as int, (tablet_id@, e)));
                    assert(keys_distinct(after));
                    lemma_lookup_at(after, tablet_id@, i as int);
                    assert forall|k: Seq<char>| k != tablet_id@ implies lookup(after, k) == lookup(before, k) by {
                        lemma_lookup_update_other(before, i as int, (tablet_id@, e), k);
                    }
                },
                None => {
                    assert(after =~= before.push((tablet_id@, e)));
                    assert(keys_distinct(after));
                    assert(after.drop_last() =~= before);
                },
            }
        }
        self.tablets = tablets;
    }

    /// Pins `fingerprint` for `tablet_id` at the current Unix time (0 when
    /// the clock cannot be read), replacing any earlier pairing of that
    /// tablet; other tablets keep theirs.
    pub fn remember(&mut self, tablet_id: &str, ip: &str, fingerprint: &str)
        ensures
            final(self).entry(tablet_id@) matches Some(e) && e.tablet_id == tablet_id@ && e.ip == ip@
                && e.cert_fingerprint == fingerprint@ && e.paired_at >= 0,
            forall|k: Seq<char>| k != tablet_id@ ==> final(self).entry(k) == old(self).entry(k),
    {
        let now = match unix_now() {
            Some(t) => t,
            None => 0,
        };
        self.remember_at(tablet_id, ip, fingerprint, now);
    }

    /// The fingerprint pinned for `tablet_id`.
    pub fn fingerprint_for(&self, tablet_id: &str) -> (r: Option<&String>)
        ensures
            match r {
                Some(f) => self.entry(tablet_id@) matches Some(e) && f@ == e.cert_fingerprint,
                None => self.entry(tablet_id@) is None,
            },
    {
        proof {
            use_type_invariant(self);
        }
        let key = String::from_str(tablet_id);
        match position(&self.tablets, &key) {
            Some(i) => {
                proof {
                    lemma_lookup_at(self@, tablet_id@, i as int);
                }
                Some(&self.tablets[i].1.cert_fingerprint)
            },
            None => {
                proof {
                    lemma_lookup_absent(self@, tablet_id@);
                }
                None
            },
        }
    }

    /// Whether `tablet_id` was paired.
    pub fn is_paired(&self, tablet_id: &str) -> (r: bool)
        ensures
            r == self.entry(tablet_id@) is Some,
    {
        proof {
            use_type_invariant(self);
        }
        let key = String::from_str(tablet_id);
        match position(&self.tablets, &key) {
            Some(i) => {
                proof {
                    lemma_lookup_at(self@, tablet_id@, i as int);
                }
                true
            },
            None => {
                proof {
                    lemma_lookup_absent(self@, tablet_id@);
                }
                false
            },
        }
    }
}

impl Default for PairingStore {
    fn default() -> (r: PairingStore)
        ensures
            forall|k: Seq<char>| r.entry(k) is None,
    {
        PairingStore::new()
    }
}

/// The current Unix time in whole seconds, or `None` when the system clock
/// reads before the Unix epoch (or past what an `i64` holds).
///
/// Wraps `SystemTime::now().duration_since(UNIX_EPOCH)`, which fails rather
/// than panics for a clock before the epoch. The value depends on the clock,
/// so only that it is not negative is stated.
#[verifier::external_body]
fn unix_now() -> (r: Option<i64>)
    ensures
        r matches Some(t) ==> t >= 0,
{
    match std::time::SystemTime::now().duration_since(std::time::UNIX_EPOCH) {
        Ok(d) => i64::try_from(d.as_secs()).ok(),
        Err(_) => None,
    }
}


/// What survives of `c` once a name is lowercased and all but ASCII
/// letters, digits, `-` and `_` are dropped. Of the characters outside
/// ASCII, only `İ` (U+0130) and the Kelvin sign (U+212A) lowercase to
/// something that stays: `i` (followed by a combining dot, dropped) and `k`.
pub open spec fn host_chars(c: char) -> Seq<char> {
    if 'A' <= c <= 'Z' {
        seq![((c as int) + 32) as char]
    } else if ('a' <= c <= 'z') || ('0' <= c <= '9') || c == '-' || c == '_' {
        seq![c]
    } else if c == '\u{130}' {
        seq!['i']
    } else if c == '\u{212a}' {
        seq!['k']
    } else {
        Seq::empty()
    }
}

/// A name lowercased and reduced to ASCII letters, digits, `-` and `_`.
pub open spec fn clean_name(s: Seq<char>) -> Seq<char>
    decreases s.len(),
{
    if s.len() == 0 {
        Seq::empty()
    } else {
        clean_name(s.drop_last()) + host_chars(s.last())
    }
}

/// The host id sent when pairing: `host-` and the cleaned computer name;
/// else the cleaned user name; else the process id.
pub open spec fn spec_host_id(computer: Option<Seq<char>>, user: Option<Seq<char>>, pid: u32) -> Seq<char> {
    if computer is Some && clean_name(computer->0).len() > 0 {
        "host-"@ + clean_name(computer->0)
    } else if user is Some && clean_name(user->0).len() > 0 {
        "host-"@ + clean_name(user->0)
    } else {
        "host-"@ + decimal(pid as nat)
    }
}

fn clean_name_of(s: &str) -> (r: String)
    ensures
        r@ == clean_name(s@),
{
    let cs = chars_of(s);
    let mut out = String::new();
    let mut i: usize = 0;
    assert(cs@.take(0) =~= Seq::<char>::empty());
    while i < cs.len()
        invariant
            i <= cs@.len(),
            out@ == clean_name(cs@.take(i as int)),
        decreases cs@.len() - i,
    {
        let c = cs[i];
        let ghost before = out@;
        if 'A' <= c && c <= 'Z' {
            push_char(&mut out, ((c as u8) + 32) as char);
        } else if ('a' <= c && c <= 'z') || ('0' <= c && c <= '9') || c == '-' || c == '_' {
            push_char(&mut out, c);
        } else if c == '\u{130}' {
            push_char(&mut out, 'i');
        } else if c == '\u{212a}' {
            push_char(&mut out, 'k');
        }
        assert(cs@.take(i as int + 1).drop_last() =~= cs@.take(i as int));
        assert(out@ =~= before + host_chars(c));
        i = i + 1;
    }
    assert(cs@.take(i as int) =~= cs@);
    out
}

/// The host id from the computer name, the user name and the process id,
/// so a tablet recognises this PC again on its next connection.
pub fn host_id_from(computer: Option<&str>, user: Option<&str>, pid: u32) -> (r: String)
    ensures
        r@ == spec_host_id(
            match computer {
                Some(c) => Some(c@),
                None => None,
            },
            match user {
                Some(u) => Some(u@),
                None => None,
            },
            pid,
        ),
{
    if let Some(name) = computer {
        let clean = clean_name_of(name);
        if clean.unicode_len() > 0 {
            let mut id = String::from_str("host-");
            id.append(clean.as_str());
            return id;
        }
    }
    if let Some(name) = user {
        let clean = clean_name_of(name);
        if clean.unicode_len() > 0 {
            let mut id = String::from_str("host-");
            id.append(clean.as_str());
            return id;
        }
    }
    let mut id = String::from_str("host-");
    push_decimal(&mut id, pid as u64);
    id
}

} // verus!
