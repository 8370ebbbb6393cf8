use archive_engine::calendar::{
    date_label, day_weekday_from_sunday, local_day_of, rfc3339_to_millis, utc_minute_stamp,
    west_offset, year_of_day, year_start_day,
};
use archive_engine::sort::sort_keys;
use archive_engine::text::{
    contains_chars, escape_html, find_chars, format_number, i64_to_string, is_blank,
    is_whitespace, parse_u64, remove_all_chars, str_eq, to_chars, to_lowercase, trim_bounds,
    u64_to_string,
};

#[test]
fn escape_html_replaces_the_five_characters() {
    assert_eq!(escape_html("a & b < c > d \" e ' f").as_str(), "a &amp; b &lt; c &gt; d &quot; e &#39; f");
    assert_eq!(escape_html("").as_str(), "");
    assert_eq!(escape_html("plain ünïcode ✓").as_str(), "plain ünïcode ✓");
    assert_eq!(escape_html("&amp;").as_str(), "&amp;amp;");
}

#[test]
fn escaped_text_holds_no_markup_characters() {
    let e = escape_html("<script>alert('x') && \"y\"</script>");
    assert!(!e.contains('<') && !e.contains('>') && !e.contains('"') && !e.contains('\''));
}

#[test]
fn format_number_groups_thousands() {
    assert_eq!(format_number(0).as_str(), "0");
    assert_eq!(format_number(7).as_str(), "7");
    assert_eq!(format_number(999).as_str(), "999");
    assert_eq!(format_number(1000).as_str(), "1,000");
    assert_eq!(format_number(12345).as_str(), "12,345");
    assert_eq!(format_number(1234567).as_str(), "1,234,567");
    assert_eq!(format_number(100000).as_str(), "100,000");
}

#[test]
fn decimal_rendering() {
    assert_eq!(u64_to_string(0).as_str(), "0");
    assert_eq!(u64_to_string(18446744073709551615).as_str(), "18446744073709551615");
    assert_eq!(i64_to_string(-42).as_str(), "-42");
    assert_eq!(i64_to_string(i64::MIN).as_str(), "-9223372036854775808");
    assert_eq!(i64_to_string(1700000000000).as_str(), "1700000000000");
}

#[test]
fn parse_u64_follows_str_parse() {
    for s in ["0", "42", "+42", "007", "18446744073709551615", "18446744073709551616", "", "+", "-1", " 1", "1 ", "1a", "abc", "٣"] {
        assert_eq!(parse_u64(s), s.parse::<u64>().ok(), "input {:?}", s);
    }
}

#[test]
fn parse_inverts_decimal_rendering() {
    for n in [0u64, 1, 9, 10, 123456789, u64::MAX] {
        assert_eq!(parse_u64(u64_to_string(n).as_str()), Some(n));
    }
}

#[test]
fn whitespace_and_trimming() {
    for c in ['\t', '\n', '\u{b}', '\u{c}', '\r', ' ', '\u{85}', '\u{a0}', '\u{1680}', '\u{2000}', '\u{200a}', '\u{2028}', '\u{2029}', '\u{202f}', '\u{205f}', '\u{3000}', 'a', '\u{200b}', '_'] {
        assert_eq!(is_whitespace(c), c.is_whitespace(), "char {:?}", c);
    }
    for s in ["", "   ", "\n\t ", " a ", "a", "\u{3000}x\u{a0}"] {
        assert_eq!(is_blank(s), s.trim().is_empty(), "input {:?}", s);
        let v = to_chars(s);
        let (lo, hi) = trim_bounds(&v);
        let t: String = v[lo..hi].iter().collect();
        assert_eq!(t.as_str(), s.trim());
    }
}

#[test]
fn substring_search_and_removal() {
    let s = to_chars("hello from:bob and from:bob again");
    let p = to_chars("from:bob");
    assert_eq!(find_chars(&s, &p), Some(6));
    assert!(contains_chars(&s, &p));
    assert!(!contains_chars(&s, &to_chars("carol")));
    assert!(contains_chars(&s, &to_chars("")));
    let r: String = remove_all_chars(&s, &p).iter().collect();
    assert_eq!(r.as_str(), "hello  and  again");
    let aa: String = remove_all_chars(&to_chars("aaaa"), &to_chars("aa")).iter().collect();
    assert_eq!(aa.as_str(), "");
    let aaa: String = remove_all_chars(&to_chars("aaa"), &to_chars("aa")).iter().collect();
    assert_eq!(aaa.as_str(), "a");
    assert!(str_eq("Deleted User", "Deleted User"));
    assert!(!str_eq("Deleted User", "deleted user"));
}

#[test]
fn lowercase_is_unicode_lowercase() {
    assert_eq!(to_lowercase("HeLLo ÄÖ İ").as_str(), "HeLLo ÄÖ İ".to_lowercase().as_str());
}

#[test]
fn fixed_offsets() {
    assert_eq!(west_offset(300 * 60), Some(18000));
    assert_eq!(west_offset(-86399), Some(-86399));
    assert_eq!(west_offset(86400), None);
    assert_eq!(west_offset(-86400), None);
}

#[test]
fn local_days_from_timestamps() {
    // 2024-01-01T03:00:00Z
    let t = 1704078000000i64;
    assert_eq!(local_day_of(t, 0), 19723);
    // five hours west of UTC it is still 2023-12-31
    assert_eq!(local_day_of(t, 5 * 3600), 19722);
    // before the epoch the day rounds down
    assert_eq!(local_day_of(-1, 0), -1);
    assert_eq!(local_day_of(0, 0), 0);
}

#[test]
fn year_starts_and_weekdays() {
    assert_eq!(year_start_day(1970), 0);
    assert_eq!(year_start_day(1971), 365);
    assert_eq!(year_start_day(1973), 1096);
    assert_eq!(year_start_day(2024), 19723);
    assert_eq!(year_start_day(2025) - year_start_day(2024), 366);
    assert_eq!(year_start_day(1900), -25567);
    assert_eq!(year_start_day(2000), 10957);
    // 1970-01-01 was a Thursday, 2024-01-01 a Monday
    assert_eq!(day_weekday_from_sunday(0), 4);
    assert_eq!(day_weekday_from_sunday(19723), 1);
    assert_eq!(day_weekday_from_sunday(-1), 3);
    assert_eq!(year_of_day(19723), 2024);
    assert_eq!(year_of_day(19722), 2023);
    assert_eq!(year_of_day(-1), 1969);
}

#[test]
fn date_labels_and_stamps() {
    assert_eq!(date_label(19723).as_str(), "Jan 1, 2024");
    assert_eq!(date_label(19723 + 40).as_str(), "Feb 10, 2024");
    assert_eq!(utc_minute_stamp(0).as_str(), "01/01/70 00:00");
    assert_eq!(utc_minute_stamp(1704078000000).as_str(), "01/01/24 03:00");
    assert_eq!(rfc3339_to_millis("2024-01-01T03:00:00Z"), Some(1704078000000));
    assert_eq!(rfc3339_to_millis("2024-01-01T03:00:00.250+01:00"), Some(1704074400250));
    assert_eq!(rfc3339_to_millis("yesterday"), None);
}

#[test]
fn sort_keys_orders_lexicographically() {
    let v = vec![(3i128, 1u64, 0u64), (-1, 5, 2), (3, 0, 9), (-1, 5, 1), (0, 0, 0)];
    let r = sort_keys(&v);
    assert_eq!(r, vec![(-1, 5, 1), (-1, 5, 2), (0, 0, 0), (3, 0, 9), (3, 1, 0)]);
    assert_eq!(sort_keys(&vec![]), vec![]);
}

#[test]
fn grouping_keeps_the_digits() {
    for n in [0usize, 5, 999, 1000, 987654321, 1_000_000] {
        assert_eq!(format_number(n).replace(',', ""), n.to_string());
    }
}

#[test]
fn every_year_has_365_or_366_days() {
    for y in [-5i32, 1, 1600, 1700, 1900, 2000, 2023, 2024, 2100, 262141] {
        let len = year_start_day(y + 1) - year_start_day(y);
        assert!(len == 365 || len == 366, "year {}", y);
    }
    assert_eq!(year_start_day(1901) - year_start_day(1900), 365);
    assert_eq!(year_start_day(2001) - year_start_day(2000), 366);
}

#[test]
fn sorting_determines_the_order() {
    let a = vec![(2i128, 0u64, 0u64), (1, 9, 9), (1, 2, 3), (-7, 0, 1)];
    let mut b = a.clone();
    b.reverse();
    let c = vec![a[2], a[0], a[3], a[1]];
    assert_eq!(sort_keys(&a), sort_keys(&b));
    assert_eq!(sort_keys(&a), sort_keys(&c));
}
