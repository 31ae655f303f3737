use acmegen::{render_zone, Duration, Instant, Record, RecordStore, WakeSignal, ZoneWriter};

#[test]
fn empty_zone_is_soa_only() {
    let text = render_zone("ns1.example.org", "acme.example.org", 0, &vec![]);
    assert_eq!(
        text,
        "@               3600 SOA  ns1.example.org. zone-admin.acme.example.org. 0 3600 600 604800 1800\n"
    );
}

#[test]
fn zone_lines_are_padded_and_quoted() {
    let a = Record { subdomain: "foo".to_string(), txt: "abc".to_string() };
    let b = Record { subdomain: "averyveryverylongname".to_string(), txt: "a-value-longer-than-sixteen".to_string() };
    let text = render_zone("ns", "d.org", 1234, &vec![&a, &b]);
    let expected = format!(
        "@               3600 SOA {: >16}. zone-admin.d.org. 1234 3600 600 604800 1800\n{: <16} 60 IN TXT {: >16}\n{: <16} 60 IN TXT {: >16}\n",
        "ns", "foo", "\"abc\"", "averyveryverylongname", "\"a-value-longer-than-sixteen\""
    );
    assert_eq!(text, expected);
    assert!(text.contains(&format!("foo{}60 IN TXT{}\"abc\"\n", " ".repeat(14), " ".repeat(12))));
}

#[test]
fn zone_serial_largest() {
    let text = render_zone("ns", "d", u32::MAX, &vec![]);
    assert!(text.contains(" 4294967295 3600 600 604800 1800\n"));
}

#[test]
fn zone_writer_counts_passes() {
    let mut store = RecordStore::new(Duration::from_secs(60), false);
    store.add(Record { subdomain: "x".to_string(), txt: "1".to_string() }, Instant::from_nanos(0));
    let mut writer = ZoneWriter::new("ns".to_string(), "d.org".to_string());
    assert_eq!(writer.serial(), 0);
    let first = writer.next_zone(&store);
    assert!(first.contains(" 0 3600 600"));
    assert!(first.ends_with(&format!("x{}60 IN TXT{}\"1\"\n", " ".repeat(16), " ".repeat(14))));
    let second = writer.next_zone(&store);
    assert!(second.contains(" 1 3600 600"));
    assert_eq!(writer.serial(), 2);
}

#[test]
fn burst_of_signals_wakes_once() {
    let mut s = WakeSignal::new();
    assert!(!s.is_pending());
    s.signal();
    s.signal();
    s.signal();
    assert!(s.take());
    assert!(!s.take());
}

#[test]
fn signal_before_wait_is_not_lost() {
    let mut s = WakeSignal::new();
    assert!(!s.take());
    s.signal();
    assert!(s.is_pending());
    assert!(s.take());
}
