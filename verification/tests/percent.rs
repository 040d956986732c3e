use reveal_lib::percent::{percent_decode, try_percent_decode};

#[test]
fn escapes_and_plus_signs_are_decoded() {
    assert_eq!(percent_decode("a%20b"), "a b");
    assert_eq!(percent_decode("a+b"), "a b");
    assert_eq!(percent_decode("%2B"), "+");
    assert_eq!(percent_decode("%2fVolumes%2FNAS%2fDSCF0001.RAF"), "/Volumes/NAS/DSCF0001.RAF");
    assert_eq!(percent_decode("%e2%82%AC"), "€");
}

#[test]
fn what_is_not_an_escape_stays_as_it_is() {
    assert_eq!(percent_decode("%zz"), "%zz");
    assert_eq!(percent_decode("%4"), "%4");
    assert_eq!(percent_decode("100%"), "100%");
    assert_eq!(percent_decode("%-1x"), "%-1x");
    assert_eq!(percent_decode("%\u{e9}"), "%\u{e9}");
}

#[test]
fn a_sign_counts_as_the_number_parser_reads_it() {
    assert_eq!(percent_decode("%+9"), "\t");
}

#[test]
fn bytes_that_are_not_utf8_are_replaced() {
    assert_eq!(percent_decode("%ff"), "\u{FFFD}");
    assert_eq!(percent_decode("a%C3"), "a\u{FFFD}");
}

#[test]
fn an_escape_cut_inside_a_character_is_refused() {
    assert_eq!(try_percent_decode("%a\u{20ac}"), None);
    assert_eq!(try_percent_decode("%\u{20ac}"), None);
    assert_eq!(try_percent_decode("x%41").as_deref(), Some("xA"));
}

#[test]
fn decoding_undoes_encode_uri_component() {
    // encodeURIComponent("/Volumes/Café + thé/ü (1).RAF")
    let encoded = "%2FVolumes%2FCaf%C3%A9%20%2B%20th%C3%A9%2F%C3%BC%20(1).RAF";
    assert_eq!(percent_decode(encoded), "/Volumes/Café + thé/ü (1).RAF");
    assert_eq!(percent_decode("A-_.!~*'()z09"), "A-_.!~*'()z09");
}
