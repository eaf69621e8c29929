use rusize::utils::format_size;

fn float_format(bytes: u64) -> String {
    let mb = bytes as f64 / (1024.0 * 1024.0);
    let gb = mb / 1024.0;
    if gb >= 1.0 {
        format!("{:.2} GB", gb)
    } else {
        format!("{:.2} MB", mb)
    }
}

#[test]
fn format_size_examples() {
    assert_eq!(format_size(0), "0.00 MB");
    assert_eq!(format_size(1024 * 1024), "1.00 MB");
    assert_eq!(format_size(1536 * 1024), "1.50 MB");
    assert_eq!(format_size(1024 * 1024 * 1024), "1.00 GB");
    assert_eq!(format_size(5 * 1024 * 1024 * 1024 + 256 * 1024 * 1024), "5.25 GB");
    assert_eq!(format_size(1024 * 1024 * 1024 - 1), "1024.00 MB");
}

#[test]
fn format_size_rounds_ties_to_even() {
    // 131072 bytes are exactly 0.125 MB.
    assert_eq!(format_size(131072), "0.12 MB");
    // 393216 bytes are exactly 0.375 MB.
    assert_eq!(format_size(393216), "0.38 MB");
}

#[test]
fn format_size_agrees_with_float_formatting() {
    let mut samples: Vec<u64> = vec![
        1,
        5242,
        5243,
        10485,
        10486,
        131072,
        393216,
        655360,
        1 << 30,
        (1 << 30) + (1 << 22),
        u64::MAX,
        u64::MAX - 1,
        1 << 53,
        (1 << 53) + 1,
        (1 << 54) + 3,
        123_456_789_012_345,
        9_007_199_254_740_993,
        18_000_000_000_000_000_000,
    ];
    let mut x: u64 = 0x9E37_79B9_7F4A_7C15;
    for _ in 0..2000 {
        x ^= x << 13;
        x ^= x >> 7;
        x ^= x << 17;
        samples.push(x >> (x % 64));
    }
    for b in samples {
        assert_eq!(format_size(b), float_format(b), "bytes = {}", b);
    }
}
