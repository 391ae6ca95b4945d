use batch_file_renamer::scan::{format_bytes, summarize_scan, FileEntry};

fn entry(name: &str, size: u64) -> FileEntry {
    FileEntry {
        name: name.to_string(),
        size,
    }
}

/// The text the float formatting of the standard library gives for `bytes`.
fn float_text(bytes: u64) -> String {
    const KB: f64 = 1024.0;
    const MB: f64 = KB * 1024.0;
    const GB: f64 = MB * 1024.0;
    const TB: f64 = GB * 1024.0;
    let n = bytes as f64;
    if n >= TB {
        format!("{:.2} TB", n / TB)
    } else if n >= GB {
        format!("{:.2} GB", n / GB)
    } else if n >= MB {
        format!("{:.2} MB", n / MB)
    } else if n >= KB {
        format!("{:.2} KB", n / KB)
    } else {
        format!("{bytes} B")
    }
}

#[test]
fn scans_only_one_level_files() {
    // What the directory walk keeps of `a.fastq.gz` and `sub/` (a directory):
    // only the file one level down.
    let result = summarize_scan("/data", vec![entry("a.fastq.gz", 1)]);
    assert_eq!(result.files.len(), 1);
    assert_eq!(result.files[0].name, "a.fastq.gz");
}

#[test]
fn scan_result_is_sorted_and_summed() {
    let result = summarize_scan(
        "/data",
        vec![
            entry("b.bam", 20),
            entry("a_R2.fastq.gz", 5),
            entry("B.bam", 1),
            entry("a_R1.fastq.gz", 7),
        ],
    );
    let names: Vec<&str> = result.files.iter().map(|f| f.name.as_str()).collect();
    assert_eq!(names, vec!["B.bam", "a_R1.fastq.gz", "a_R2.fastq.gz", "b.bam"]);
    assert_eq!(result.total_size, 33);
    assert_eq!(result.root, "/data");
}

#[test]
fn scan_sorts_by_code_point() {
    let result = summarize_scan(
        "/d",
        vec![entry("样本.txt", 1), entry("z.txt", 1), entry("é.txt", 1), entry("a", 1)],
    );
    let names: Vec<&str> = result.files.iter().map(|f| f.name.as_str()).collect();
    let mut expected = vec!["样本.txt", "z.txt", "é.txt", "a"];
    expected.sort();
    assert_eq!(names, expected);
}

#[test]
fn empty_scan() {
    let result = summarize_scan("/d", Vec::new());
    assert!(result.files.is_empty());
    assert_eq!(result.total_size, 0);
}

#[test]
fn format_bytes_examples() {
    assert_eq!(format_bytes(0), "0 B");
    assert_eq!(format_bytes(1), "1 B");
    assert_eq!(format_bytes(1023), "1023 B");
    assert_eq!(format_bytes(1024), "1.00 KB");
    assert_eq!(format_bytes(1536), "1.50 KB");
    assert_eq!(format_bytes(1024 * 1024 - 1), "1024.00 KB");
    assert_eq!(format_bytes(1024 * 1024), "1.00 MB");
    assert_eq!(format_bytes(5 * 1024 * 1024 * 1024), "5.00 GB");
    assert_eq!(format_bytes(3 * (1u64 << 40) / 2), "1.50 TB");
    assert_eq!(format_bytes(u64::MAX), "16777216.00 TB");
}

#[test]
fn format_bytes_rounds_ties_to_even() {
    // 1.125 KB and 1.375 KB are exact in binary: ties go to the even digit.
    assert_eq!(format_bytes(1152), "1.12 KB");
    assert_eq!(format_bytes(1408), "1.38 KB");
    assert_eq!(format_bytes(1152), float_text(1152));
    assert_eq!(format_bytes(1408), float_text(1408));
}

#[test]
fn format_bytes_matches_float_formatting() {
    let mut samples: Vec<u64> = Vec::new();
    for shift in 0..64u32 {
        let p = 1u64 << shift;
        samples.push(p);
        samples.push(p - 1);
        samples.push(p.wrapping_add(1));
        samples.push(p / 2 * 3);
    }
    for k in 0..4096u64 {
        samples.push(k * 1024 / 8);
        samples.push(k * 1024 * 1024 / 8 + 1);
        samples.push((k << 40) / 8);
    }
    // Values above 2^53 are rounded when they become floats.
    samples.push((1u64 << 53) + 1);
    samples.push((1u64 << 60) + 12345);
    let mut x: u64 = 0x9E37_79B9_7F4A_7C15;
    for _ in 0..20000 {
        x ^= x << 13;
        x ^= x >> 7;
        x ^= x << 17;
        samples.push(x >> (x % 64));
    }
    for b in samples {
        assert_eq!(format_bytes(b), float_text(b), "bytes = {b}");
    }
}
