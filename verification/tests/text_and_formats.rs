use delete_images::formats::format_size;
use delete_images::text::{chars_of, decimal_string, parse_usize_in, split_dots_bounds, trim_bounds};

fn parse(s: &str) -> Option<usize> {
    let cs = chars_of(s);
    parse_usize_in(&cs, 0, cs.len())
}

#[test]
fn decimal_renders_digits() {
    assert_eq!(decimal_string(0), "0");
    assert_eq!(decimal_string(7), "7");
    assert_eq!(decimal_string(10), "10");
    assert_eq!(decimal_string(1234567890), "1234567890");
    assert_eq!(decimal_string(u64::MAX), "18446744073709551615");
}

#[test]
fn parse_accepts_what_std_accepts() {
    for s in ["0", "7", "+7", "007", "18446744073709551615", "", "+", "-1", "1a", " 1", "18446744073709551616", "٣"] {
        assert_eq!(parse(s), s.parse::<usize>().ok(), "input {:?}", s);
    }
}

#[test]
fn trim_matches_std() {
    for s in ["", "  a b  ", "\t\n x\u{3000}", "\u{a0}\u{2009}", "abc"] {
        let cs = chars_of(s);
        let (a, b) = trim_bounds(&cs, 0, cs.len());
        let got: String = cs[a..b].iter().collect();
        assert_eq!(got, s.trim());
    }
}

#[test]
fn split_matches_std() {
    for s in ["", "1", "1..2", "..", "...", "1..2..3", "a.b", "....x"] {
        let cs = chars_of(s);
        let parts = split_dots_bounds(&cs, 0, cs.len());
        let got: Vec<String> = parts.iter().map(|(a, b)| cs[*a..*b].iter().collect()).collect();
        let want: Vec<String> = s.split("..").map(|p| p.to_string()).collect();
        assert_eq!(got, want, "input {:?}", s);
    }
}

#[test]
fn format_size_in_megabytes() {
    assert_eq!(format_size(&0), "0.00   MB");
    assert_eq!(format_size(&1572864), "1.50   MB");
    assert_eq!(format_size(&(10 * 1048576)), "10.00  MB");
    assert_eq!(format_size(&(999 * 1048576)), "999.00 MB");
}

#[test]
fn format_size_rounds_ties_to_even() {
    // 0.125 MB and 0.375 MB are exact halves of a hundredth.
    assert_eq!(format_size(&131072), "0.12   MB");
    assert_eq!(format_size(&393216), "0.38   MB");
    assert_eq!(format_size(&1), "0.00   MB");
    assert_eq!(format_size(&10486), "0.01   MB");
}

#[test]
fn format_size_in_gigabytes() {
    assert_eq!(format_size(&(1000 * 1048576)), "0.98   GB");
    assert_eq!(format_size(&(1536 * 1048576)), "1.50   GB");
    assert_eq!(format_size(&(1048576 * 1024 * 1024)), "1024.00GB");
}

#[test]
fn format_size_follows_f64_conversion() {
    assert_eq!(format_size(&usize::MAX), "17179869184.00GB");
    assert_eq!(format_size(&9007199254740993), "8388608.00GB");
}

#[test]
fn format_size_matches_float_formatting() {
    let samples: [usize; 12] = [
        0, 1, 5242, 5243, 131072, 393216, 1048575, 1048576000, 1048575999, 123456789012, 9007199254740993,
        usize::MAX,
    ];
    for b in samples {
        let mega = (b as f64 / 1024.0) / 1024.0;
        let want = if mega < 1000.0 {
            format!("{:<7.2}MB", mega)
        } else {
            format!("{:<7.2}GB", mega / 1024.0)
        };
        assert_eq!(format_size(&b), want, "size {}", b);
    }
}
