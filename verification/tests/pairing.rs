use usbdisplay::streamer::pairing::{host_id_from, PairingStore, TabletEntry};

#[test]
fn test_fingerprint_lookup() {
    let mut store = PairingStore::new();
    store.remember("a:1", "10.0.0.1", "SHA256:first");
    store.remember("a:2", "10.0.0.2", "SHA256:second");
    assert_eq!(store.fingerprint_for("a:1"), Some(&"SHA256:first".to_string()));
    assert_eq!(store.fingerprint_for("a:2"), Some(&"SHA256:second".to_string()));
    assert_eq!(store.fingerprint_for("a:3"), None);
}

#[test]
fn test_is_paired() {
    let mut store = PairingStore::new();
    assert!(!store.is_paired("unknown"));
    store.remember("known:1", "10.0.0.9", "SHA256:abcd");
    assert!(store.is_paired("known:1"));
    assert!(!store.is_paired("other:1"));
}

#[test]
fn test_stable_host_id_is_stable_and_prefixed() {
    let a = host_id_from(Some("DESKTOP-Ab_1"), Some("user"), 77);
    let b = host_id_from(Some("DESKTOP-Ab_1"), Some("user"), 77);
    assert_eq!(a, b);
    assert!(a.starts_with("host-"));
    assert_eq!(a, "host-desktop-ab_1");
}

#[test]
fn host_id_falls_back_to_user_then_pid() {
    assert_eq!(host_id_from(Some("!!!"), Some("Jane Doe"), 5), "host-janedoe");
    assert_eq!(host_id_from(None, Some("...."), 4321), "host-4321");
    assert_eq!(host_id_from(None, None, 0), "host-0");
    assert_eq!(host_id_from(Some("\u{130}\u{212a}"), None, 1), "host-ik");
}

#[test]
fn remember_replaces_only_its_own_entry() {
    let mut store = PairingStore::new();
    store.remember_at("t:1", "10.0.0.1", "SHA256:old", 5);
    store.remember_at("t:2", "10.0.0.2", "SHA256:other", 6);
    store.remember_at("t:1", "10.0.0.3", "SHA256:new", 7);
    assert_eq!(store.fingerprint_for("t:1").map(String::as_str), Some("SHA256:new"));
    assert_eq!(store.fingerprint_for("t:2").map(String::as_str), Some("SHA256:other"));
    let tablets = store.tablets();
    assert_eq!(tablets.len(), 2);
    let rebuilt = PairingStore::from_tablets(tablets);
    assert_eq!(rebuilt.fingerprint_for("t:1").map(String::as_str), Some("SHA256:new"));
    let entry: &TabletEntry = &rebuilt.tablets()[0].1;
    assert_eq!(entry.ip, "10.0.0.3");
    assert_eq!(entry.paired_at, 7);
}

#[test]
fn remember_stamps_the_current_time() {
    let mut store = PairingStore::new();
    store.remember("tab:27184", "10.0.0.9", "SHA256:abc");
    let tablets = store.tablets();
    assert_eq!(tablets.len(), 1);
    let (key, entry) = &tablets[0];
    assert_eq!(key, "tab:27184");
    assert_eq!(entry.cert_fingerprint, "SHA256:abc");
    // Some time after September 2020.
    assert!(entry.paired_at > 1_600_000_000);
}
