use mdns::error::Error;
use mdns::text::{
    chars_of, is_same_name, is_white_space, lines_of, number_of, pieces, push_decimal, spelled,
    to_lower, trim, without_dots,
};

const SAMPLES: [&str; 12] = [
    "",
    "\n",
    "a",
    "a\n",
    "a\nb",
    "a\r\nb\r\n",
    "\r\n\r",
    "a\r\rb\n\nc",
    " \u{a0}x y\u{2028}",
    "\u{200b}z\u{200b}",
    "...",
    "a.b..",
];

#[test]
fn lines_are_those_of_std() {
    for sample in SAMPLES {
        let chars = chars_of(sample);
        let lines: Vec<String> = lines_of(&chars).into_iter().map(spelled).collect();
        assert_eq!(lines, sample.lines().collect::<Vec<_>>(), "{sample:?}");
    }
}

#[test]
fn trimming_is_that_of_std() {
    for sample in SAMPLES {
        let chars = chars_of(sample);
        assert_eq!(spelled(trim(&chars)), sample.trim(), "{sample:?}");
        assert_eq!(spelled(without_dots(&chars)), sample.trim_end_matches('.'));
    }
}

#[test]
fn splitting_is_that_of_std() {
    for sample in SAMPLES {
        let chars = chars_of(sample);
        let parts: Vec<String> = pieces(&chars, '.').into_iter().map(spelled).collect();
        assert_eq!(parts, sample.split('.').collect::<Vec<_>>(), "{sample:?}");
    }
}

#[test]
fn every_character_has_the_whitespace_and_case_of_std() {
    for c in '\0'..=char::MAX {
        assert_eq!(is_white_space(c), c.is_whitespace(), "{c:?}");
        assert_eq!(to_lower(c), c.to_ascii_lowercase(), "{c:?}");
    }
}

#[test]
fn names_differ_by_more_than_ascii_case() {
    assert!(is_same_name("Printer.LOCAL.", "pRINTER.local."));
    assert!(!is_same_name("\u{c9}", "\u{e9}"));
    assert!(!is_same_name("a", "ab"));
    assert!(is_same_name("", ""));
}

#[test]
fn numbers_read_as_std_reads_them() {
    for text in [
        "", "0", "+", "-", "+0", "-0", "00", "65535", "65536", "+65535", "++1", "1_0", " 1", "1 ",
        "\u{661}", "99999999999999999999999", "000000000000000000000000000007",
    ] {
        let chars = chars_of(text);
        assert_eq!(
            number_of(&chars, 65535),
            text.parse::<u16>().ok().map(u64::from),
            "{text:?}"
        );
        assert_eq!(
            number_of(&chars, u64::MAX),
            text.parse::<u64>().ok(),
            "{text:?}"
        );
    }
    assert_eq!(number_of(&chars_of("18446744073709551615"), u64::MAX), Some(u64::MAX));
    assert_eq!(number_of(&chars_of("18446744073709551616"), u64::MAX), None);
    assert_eq!(number_of(&chars_of("5"), 5), Some(5));
    assert_eq!(number_of(&chars_of("6"), 5), None);
    assert_eq!(number_of(&chars_of("10"), 5), None);
    assert_eq!(number_of(&chars_of("00"), 0), Some(0));
    assert_eq!(number_of(&chars_of("1"), 0), None);
}

#[test]
fn numbers_are_written_in_decimal() {
    for n in [0, 1, 9, 10, 11, 99, 100, 65535, u64::MAX] {
        let mut out = "n=".to_string();
        push_decimal(&mut out, n);
        assert_eq!(out, format!("n={n}"));
    }
}

#[test]
fn every_error_says_what_it_is_about() {
    let said = |e: Error| e.message();
    assert_eq!(
        said(Error::NoService("x".into())),
        "an mdns target names the service: mdns://host:port/<instance>.<kind>.local?port=…, got x"
    );
    assert_eq!(said(Error::NotInstance("x".into())), "not <instance>.<kind>.local: x");
    assert_eq!(said(Error::NoPort("x".into())), "a service without ?port=: x");
    assert_eq!(said(Error::Oversized), "a message over what mDNS sends");
    assert_eq!(said(Error::Unannounced), "an announcement naming no service");
    assert_eq!(said(Error::NoPeer("x".into())), "an origin naming no peer: x");
    assert_eq!(said(Error::NotChunk("a\"\n".into())), "a query for something else: \"a\\\"\\n\"");
    assert_eq!(said(Error::NotText), "TXT strings that are not text");
    assert_eq!(said(Error::OddHex("abc".into())), "an odd number of hex digits: \"abc\"");
    assert_eq!(said(Error::NotHex("zz".into())), "not hex: \"zz\"");
    assert_eq!(said(Error::Endless), "a Stream that never ends");
    assert_eq!(Error::NotHex("zz".into()).worded("<zz>"), "not hex: <zz>");
    assert_eq!(Error::NoPeer("zz".into()).subject(), "zz");
    assert_eq!(Error::Endless.subject(), "");
}
