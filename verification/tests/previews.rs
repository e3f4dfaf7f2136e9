use zenoh_explorer::preview::{
    format_binary_preview, import_preview, json_display, list_payload, payload_display,
    publish_preview, safe_truncate_index, short_payload, tree_preview,
};
use zenoh_explorer::transfer::format_size;

#[test]
fn truncate_index_keeps_whole_text() {
    assert_eq!(safe_truncate_index("hello", 10), 5);
    assert_eq!(safe_truncate_index("hello", 5), 5);
    assert_eq!(safe_truncate_index("hello", 3), 3);
    assert_eq!(safe_truncate_index("", 0), 0);
}

#[test]
fn truncate_index_backs_off_to_char_boundary() {
    // "é" is two bytes, "€" three
    let s = "aé€b";
    assert_eq!(safe_truncate_index(s, 2), 1);
    assert_eq!(safe_truncate_index(s, 3), 3);
    assert_eq!(safe_truncate_index(s, 4), 3);
    assert_eq!(safe_truncate_index(s, 5), 3);
    assert_eq!(safe_truncate_index(s, 6), 6);
    assert_eq!(safe_truncate_index("€", 1), 0);
}

#[test]
fn truncate_index_is_greatest_boundary() {
    let s = "x€y€z€";
    for max in 0..=s.len() {
        let r = safe_truncate_index(s, max);
        assert!(r <= max);
        assert!(s.is_char_boundary(r));
        for j in r + 1..=max {
            assert!(!s.is_char_boundary(j));
        }
    }
}

#[test]
fn tree_preview_cuts_long_payloads() {
    assert_eq!(tree_preview("short"), "short");
    let long = "a".repeat(10240 + 5);
    assert_eq!(
        tree_preview(&long),
        format!("{}\n... [+5 bytes - use Export for full]", "a".repeat(10240))
    );
}

#[test]
fn list_payload_marks_truncation() {
    let exact = "b".repeat(10240);
    assert_eq!(list_payload(&exact), exact);
    let long = format!("{}€", "b".repeat(10239));
    assert_eq!(
        list_payload(&long),
        format!("{}... [truncated - use Export for full]", "b".repeat(10239))
    );
}

#[test]
fn json_display_hides_excess() {
    let long = "c".repeat(51200 + 10);
    assert_eq!(
        json_display(&long),
        format!("{}\n... [+10 bytes of JSON hidden]", "c".repeat(51200))
    );
    assert_eq!(json_display("{}"), "{}");
}

#[test]
fn binary_preview_is_hex() {
    assert_eq!(format_binary_preview(&[0x00, 0xff, 0x1a]), "[binary 3 bytes] 00 ff 1a");
    assert_eq!(format_binary_preview(&[]), "[binary 0 bytes] ");
    let long: Vec<u8> = vec![0xab; 300];
    let expected = format!(
        "[binary 300 bytes] {}...",
        vec!["ab"; 256].join(" ")
    );
    assert_eq!(format_binary_preview(&long), expected);
}

#[test]
fn payload_display_prefers_text() {
    assert_eq!(payload_display("héllo".as_bytes()), "héllo");
    assert_eq!(payload_display(&[0xff, 0x00]), "[binary 2 bytes] ff 00");
}

#[test]
fn publish_preview_of_text_and_binary() {
    assert_eq!(publish_preview(b"Hello Zenoh!"), "Hello Zenoh!");
    let long = "x".repeat(300);
    assert_eq!(
        publish_preview(long.as_bytes()),
        format!("{}... [+44 bytes]", "x".repeat(256))
    );
    let mut bin = vec![0x80u8; 300];
    bin[0] = 0xff;
    let expected = format!(
        "[binary 300 bytes] ff {}...",
        vec!["80"; 255].join(" ")
    );
    assert_eq!(publish_preview(&bin), expected);
}

#[test]
fn short_payload_adds_ellipsis() {
    assert_eq!(short_payload("abc", 3), "abc");
    assert_eq!(short_payload("abcdef", 3), "abc...");
    assert_eq!(short_payload("ab€", 3), "ab...");
}

#[test]
fn import_preview_of_text_and_binary() {
    assert_eq!(import_preview(b"abc", false), "abc");
    let text = "y".repeat(300);
    assert_eq!(
        import_preview(text.as_bytes(), false),
        format!("{}... [+44 bytes]", "y".repeat(256))
    );
    assert_eq!(import_preview(text.as_bytes(), true), text);
    assert_eq!(import_preview(&[0xff, 0x01], false), "ff 01 ");
    let bin = vec![0xffu8; 260];
    assert_eq!(
        import_preview(&bin, false),
        format!("{}... [+4 bytes, 260 total]", vec!["ff"; 256].join(" "))
    );
}

fn reference_size(size: usize) -> String {
    if size >= 1024 * 1024 * 1024 {
        format!("{:.2} GB", size as f64 / (1024.0 * 1024.0 * 1024.0))
    } else if size >= 1024 * 1024 {
        format!("{:.2} MB", size as f64 / (1024.0 * 1024.0))
    } else {
        format!("{} bytes", size)
    }
}

#[test]
fn format_size_examples() {
    assert_eq!(format_size(0), "0 bytes");
    assert_eq!(format_size(1023), "1023 bytes");
    assert_eq!(format_size(1048575), "1048575 bytes");
    assert_eq!(format_size(1048576), "1.00 MB");
    assert_eq!(format_size(100 * 1024 * 1024), "100.00 MB");
    assert_eq!(format_size(1073741824), "1.00 GB");
    assert_eq!(format_size(8589934592), "8.00 GB");
    assert_eq!(format_size(1536 * 1024 * 1024), "1.50 GB");
}

#[test]
fn format_size_matches_float_formatting() {
    let mut x: u64 = 0x9E3779B97F4A7C15;
    let mut samples: Vec<usize> = vec![
        1048576 + 5242,
        1048576 + 5243,
        9 * (1 << 27),
        3 * (1 << 27),
        134217728,
        usize::MAX,
        usize::MAX - 1,
        (1usize << 53) + 1,
        (1usize << 60) + 12345,
    ];
    for _ in 0..2000 {
        x ^= x << 13;
        x ^= x >> 7;
        x ^= x << 17;
        samples.push((x >> (x % 40)) as usize);
    }
    for s in samples {
        assert_eq!(format_size(s), reference_size(s), "size {}", s);
    }
}
