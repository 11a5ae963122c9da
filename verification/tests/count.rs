use s3_storage::count::{group_of, human_bytes, str_less, FolderCounts, Tally};

/// The size text computed with floating point and `{:.1}` formatting.
fn human_bytes_float(n: u64) -> String {
    const UNITS: [&str; 5] = ["B", "KiB", "MiB", "GiB", "TiB"];
    let mut value = n as f64;
    let mut unit = 0;
    while value >= 1024.0 && unit < UNITS.len() - 1 {
        value /= 1024.0;
        unit += 1;
    }
    match unit {
        0 => format!("{} B", n),
        _ => format!("{:.1} {}", value, UNITS[unit]),
    }
}

#[test]
fn human_bytes_exact_values() {
    assert_eq!(human_bytes(0), "0 B");
    assert_eq!(human_bytes(1023), "1023 B");
    assert_eq!(human_bytes(1024), "1.0 KiB");
    assert_eq!(human_bytes(1536), "1.5 KiB");
    assert_eq!(human_bytes(1280), "1.2 KiB");
    assert_eq!(human_bytes(1331), "1.3 KiB");
    assert_eq!(human_bytes(2_621_440), "2.5 MiB");
    assert_eq!(human_bytes(1_048_575), "1024.0 KiB");
    assert_eq!(human_bytes(1_048_576), "1.0 MiB");
    assert_eq!(human_bytes(5 * 1024 * 1024 * 1024), "5.0 GiB");
    assert_eq!(human_bytes(u64::MAX), "16777216.0 TiB");
}

#[test]
fn human_bytes_matches_floating_point() {
    let mut samples: Vec<u64> = vec![
        1, 999, 1000, 1025, 1075, 1076, 10_239, 10_240, 123_456_789, 1 << 40, (1 << 40) - 1,
        (1 << 53) - 1, 1 << 53, (1 << 53) + 1, (1 << 54) + 3, u64::MAX - 1, u64::MAX,
        9_007_199_254_740_993, 18_014_398_509_481_985, 1280, 1331, 1792, 2_621_440, 1_153_433,
        3 * (1 << 38), 7 * (1 << 28),
    ];
    let mut x: u64 = 0x9E37_79B9_7F4A_7C15;
    for _ in 0..2000 {
        x ^= x << 13;
        x ^= x >> 7;
        x ^= x << 17;
        samples.push(x >> (x % 64));
    }
    for n in samples {
        assert_eq!(human_bytes(n), human_bytes_float(n), "size {}", n);
    }
}

#[test]
fn group_is_segment_after_prefix() {
    assert_eq!(group_of("2026/09/03/uid/a.jpeg", "2026/09/"), "03");
    assert_eq!(group_of("2026/09/a.jpeg", "2026/09/"), ".");
    assert_eq!(group_of("other/x/y", "2026/"), "other");
    assert_eq!(group_of("2026/09//x", "2026/09/"), "");
}

#[test]
fn tally_adds_objects_and_bytes() {
    let mut t = Tally::default();
    t.add(10);
    t.add(5);
    assert_eq!(t, Tally { objects: 2, bytes: 15 });
}

#[test]
fn strings_compare_by_code_point() {
    assert!(str_less("a", "b"));
    assert!(str_less("ab", "abc"));
    assert!(!str_less("abc", "ab"));
    assert!(!str_less("x", "x"));
    assert!(str_less("Z", "a"));
    assert!(str_less("é", "ü"));
}

#[test]
fn folder_counts_add_up_and_sort() {
    let mut c = FolderCounts::new();
    let prefix = "2026/";
    let entries: Vec<(Option<&str>, Option<i64>)> = vec![
        (Some("2026/b/1.jpg"), Some(10)),
        (Some("2026/a/1.jpg"), Some(7)),
        (Some("2026/a/"), Some(0)),
        (None, Some(99)),
        (Some("2026/b/2.jpg"), Some(-5)),
        (Some("2026/c.txt"), None),
        (Some("2026/a/2.jpg"), Some(3)),
        (Some("2026/d/1.jpg"), Some(1)),
    ];
    for (k, s) in entries {
        c.record(k.map(String::from), s, prefix);
    }
    assert_eq!(c.total(), Tally { objects: 6, bytes: 21 });
    assert_eq!(c.folder_count(), 4);

    let report = c.report(true);
    let names: Vec<&str> = report.rows.iter().map(|(n, _)| n.as_str()).collect();
    assert_eq!(names, vec!["a", "b", ".", "d"]);
    assert_eq!(report.rows[0].1, Tally { objects: 2, bytes: 10 });
    assert_eq!(report.rows[1].1, Tally { objects: 2, bytes: 10 });
    assert_eq!(report.shown, 4);
    assert_eq!(report.width, 1);
    assert_eq!(report.hidden_objects, 0);
}

#[test]
fn report_folds_the_tail() {
    let mut c = FolderCounts::new();
    for i in 0..25u32 {
        for _ in 0..(i + 1) {
            c.record(Some(format!("p/folder{:02}/x", i)), Some(1), "p/");
        }
    }
    let report = c.report(false);
    assert_eq!(report.rows.len(), 25);
    assert_eq!(report.shown, 20);
    assert_eq!(report.rows[0].0, "folder24");
    assert_eq!(report.width, 8);
    // folders 0..=4 hold 1 + 2 + 3 + 4 + 5 objects
    assert_eq!(report.hidden_objects, 15);
    let listed: u64 = report.rows[..report.shown].iter().map(|(_, t)| t.objects).sum();
    assert_eq!(listed + report.hidden_objects, c.total().objects);
    let all = c.report(true);
    assert_eq!(all.shown, 25);
    assert_eq!(all.hidden_objects, 0);
    let empty = FolderCounts::new().report(false);
    assert_eq!(empty.shown, 0);
    assert_eq!(empty.width, 1);
}
