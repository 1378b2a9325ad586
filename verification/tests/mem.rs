use anka::mem::{human_bytes, parse_kb_field, resident_set_size};

const SAMPLE: &str = "\
Name:\tanka
State:\tR (running)
VmPeak:\t  1234567 kB
VmSize:\t  1234000 kB
VmHWM:\t    532480 kB
VmRSS:\t    524288 kB
Threads:\t1
";

#[test]
fn parses_status_fields_into_bytes() {
    assert_eq!(parse_kb_field(SAMPLE, "VmRSS:"), Some(524_288 * 1024));
    assert_eq!(parse_kb_field(SAMPLE, "VmHWM:"), Some(532_480 * 1024));
}

#[test]
fn matches_the_exact_field() {
    assert_eq!(parse_kb_field(SAMPLE, "VmPeak:"), Some(1_234_567 * 1024));
    assert_eq!(parse_kb_field(SAMPLE, "VmFoo:"), None);
}

#[test]
fn malformed_field_yields_none() {
    assert_eq!(parse_kb_field("VmRSS:\tnot-a-number kB", "VmRSS:"), None);
    assert_eq!(parse_kb_field("VmRSS:", "VmRSS:"), None);
}

#[test]
fn formats_byte_counts() {
    assert_eq!(human_bytes(0), "0 B");
    assert_eq!(human_bytes(999), "999 B");
    assert_eq!(human_bytes(1024), "1.0 KiB");
    assert_eq!(human_bytes(512 * 1024 * 1024), "512.0 MiB");
    assert_eq!(human_bytes(3 * 1024 * 1024 * 1024), "3.0 GiB");
}

#[test]
fn resident_set_size_matches_the_platform() {
    let usage = resident_set_size(Some(SAMPLE)).expect("the status text should be readable");
    assert_eq!(usage.current_bytes, 524_288 * 1024);
    assert_eq!(usage.peak_bytes, 532_480 * 1024);
    assert!(usage.current_bytes > 0);
    assert!(usage.peak_bytes >= usage.current_bytes);
    assert!(resident_set_size(None).is_none());
}
