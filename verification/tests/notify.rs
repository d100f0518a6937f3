use raptorqr_host::notify::{applescript_literal, human_bytes, notification_body, notification_script};

#[test]
fn escapes_applescript_strings() {
    assert_eq!(applescript_literal("plain.txt"), "\"plain.txt\"");
    // A hostile filename must not be able to close the literal.
    assert_eq!(
        applescript_literal("a\" & (do shell script \"id\") & \""),
        "\"a\\\" & (do shell script \\\"id\\\") & \\\"\""
    );
    assert_eq!(applescript_literal("back\\slash"), "\"back\\\\slash\"");
    // Newlines cannot break out onto a new statement.
    assert_eq!(applescript_literal("two\nlines"), "\"two lines\"");
    assert_eq!(applescript_literal("中文名.txt"), "\"中文名.txt\"");
}

#[test]
fn formats_sizes() {
    assert_eq!(human_bytes(313), "313 B");
    assert_eq!(human_bytes(2048), "2.0 KB");
    assert_eq!(human_bytes(1024 * 1024 * 3 / 2), "1.5 MB");
}

#[test]
fn size_units_and_boundaries() {
    assert_eq!(human_bytes(0), "0 B");
    assert_eq!(human_bytes(1023), "1023 B");
    assert_eq!(human_bytes(1024), "1.0 KB");
    assert_eq!(human_bytes(1024 * 1024 - 1), "1024.0 KB");
    assert_eq!(human_bytes(1024 * 1024), "1.0 MB");
    assert_eq!(human_bytes(1024 * 1024 * 1024), "1.0 GB");
    assert_eq!(human_bytes(1_500_000), "1.4 MB");
    assert_eq!(human_bytes(812 * 1024), "812.0 KB");
}

/// The integer formatting agrees with formatting the size as an `f64`.
#[test]
fn sizes_match_float_formatting() {
    fn float_version(bytes: usize) -> String {
        const KB: f64 = 1024.0;
        let value = bytes as f64;
        if value >= KB * KB * KB {
            format!("{:.1} GB", value / (KB * KB * KB))
        } else if value >= KB * KB {
            format!("{:.1} MB", value / (KB * KB))
        } else if value >= KB {
            format!("{:.1} KB", value / KB)
        } else {
            format!("{bytes} B")
        }
    }
    let mut samples: Vec<usize> = vec![
        0,
        1,
        1023,
        1024,
        1024 + 256, // exactly 1.25 KB: a tie
        1024 + 768, // exactly 1.75 KB: a tie
        1024 + 51,
        1024 + 52,
        usize::MAX,
        usize::MAX - 1,
        (1usize << 53) + 1,
        (1usize << 60) + 12345,
    ];
    let mut x: usize = 12345;
    for _ in 0..5000 {
        x = x.wrapping_mul(6364136223846793005).wrapping_add(1442695040888963407);
        samples.push(x >> (x % 60));
        samples.push(x % (1 << 24));
    }
    for s in samples {
        assert_eq!(human_bytes(s), float_version(s), "size {s}");
    }
}

#[test]
fn notification_text() {
    assert_eq!(
        notification_body("a.bin", "/tmp/a.bin", 2048),
        "a.bin · 2.0 KB → /tmp/a.bin"
    );
    assert_eq!(
        notification_script("x\".bin", "/d", 1),
        "display notification \"x\\\".bin · 1 B → /d\" with title \"RaptorQR — 文件已接收\" sound name \"Glass\""
    );
}
