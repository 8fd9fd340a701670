use clj_pulse::edn::{get, is_readable, kw, kw_ns, parse, str_at, str_vec_at, Edn};

#[test]
fn str_vec_at_reads_string_vector() {
    let map = parse(r#"{:paths ["a" "b"] :n 1}"#).expect("a map");
    assert_eq!(
        str_vec_at(&map, &kw("paths")),
        Some(vec!["a".to_string(), "b".to_string()])
    );
    // Missing key.
    assert_eq!(str_vec_at(&map, &kw("missing")), None);
    // Present but not a vector.
    assert_eq!(str_vec_at(&map, &kw("n")), None);
}

#[test]
fn strings_are_read_by_their_key() {
    let map = parse(r#"{:a "x" :b/c "y" :d 1}"#).expect("a map");
    assert_eq!(str_at(&map, &kw("a")).as_deref(), Some("x"));
    assert_eq!(str_at(&map, &kw_ns("b", "c")).as_deref(), Some("y"));
    assert_eq!(str_at(&map, &kw("c")), None);
    assert_eq!(str_at(&map, &kw("d")), None);
    assert!(matches!(get(&map, &kw("d")), Some(Edn::Other)));
    assert!(get(&map, &kw("e")).is_none());
}

#[test]
fn every_kind_of_value_is_told_apart() {
    assert!(matches!(parse("\"a\""), Some(Edn::Text(s)) if s == "a"));
    assert!(matches!(parse("a/b"), Some(Edn::Symbol(n)) if n.namespace.as_deref() == Some("a") && n.name == "b"));
    assert!(matches!(parse(":k"), Some(Edn::Keyword(n)) if n.namespace.is_none() && n.name == "k"));
    assert!(matches!(parse("[1 2]"), Some(Edn::Vector(items)) if items.len() == 2));
    assert!(matches!(parse("{:a 1}"), Some(Edn::Table(entries)) if entries.len() == 1));
    assert!(matches!(parse("nil"), Some(Edn::Other)));
    assert!(parse("(((").is_none());
}

#[test]
fn a_character_literal_must_not_split_a_character() {
    let chars = |s: &str| -> Vec<char> { s.chars().collect() };
    assert!(is_readable(&chars("\\u0041")));
    assert!(is_readable(&chars("\\u\u{e9}\u{e9}")));
    assert!(!is_readable(&chars("\\ua\u{e9}\u{e9}")));
    assert!(is_readable(&chars("")));
}

fn reads(text: &str) -> bool {
    is_readable(&text.chars().collect::<Vec<char>>())
}

#[test]
fn an_escape_counts_in_a_character_literal_alone() {
    for text in [
        "{:a \"\\\\u\u{e9}\"}",
        "; \\ua\u{e9}\u{e9}\n:k",
        ":k \\ua\u{e9}\u{e9}",
        "[\\u0041 \\newline \\u]",
        "\\a\\ua\u{e9}\u{e9}",
    ] {
        assert!(reads(text), "{text}");
        let _ = parse(text);
    }
    for text in [
        "[\\ua\u{e9}\u{e9}]",
        "#_\\ua\u{e9}\u{e9} 1",
        "\\;c\nua\u{e9}\u{e9}",
        "#{:k \\ua\u{e9}\u{e9}}",
        "[\\spaceua \\ua\u{e9}\u{e9}]",
    ] {
        assert!(!reads(text), "{text}");
    }
    assert!(matches!(parse("{:a \"\\\\u\u{e9}\"}"), Some(Edn::Table(entries)) if entries.len() == 1));
}

#[test]
fn the_scale_of_a_decimal_must_fit() {
    for text in [
        "1e-9223372036854775808M",
        "1.5e-9223372036854775807M",
        "[1e-92233720368;c\n54775808M]",
        "#_1E-9223372036854775808M 1",
        "#tag -0.000e-9223372036854775805M",
        "+1e+-009223372036854775808M",
        "1.\u{663}e-9223372036854775806M",
    ] {
        assert!(!reads(text), "{text}");
    }
    for text in [
        "1e-9223372036854775807M",
        "1.5e-9223372036854775806M",
        "1.5e9223372036854775807M",
        "1e99999M",
        "1e-9223372036854775809M",
        "1e99999999999999999999M",
        "\"1e-9223372036854775808M\"",
        ":k1e-9223372036854775808M",
        "a1e-9223372036854775808M",
        "1e-9223372036854775808M/x",
        "1e-9223372036854775808",
        "1e-9223372036854775808xM",
        "1 1e-9223372036854775808M",
        "#_1 2 1e-9223372036854775808M",
        "(1] 1e-9223372036854775808M",
        "[#_] 1e-9223372036854775808M",
        "{1} 1e-9223372036854775808M",
    ] {
        assert!(reads(text), "{text}");
        let _ = parse(text);
    }
    assert!(matches!(parse("1e-9223372036854775807M"), Some(Edn::Other)));
    assert!(matches!(parse("[1M 1e99999999999M]"), Some(Edn::Vector(items)) if items.len() == 2));
    assert!(parse("1e99999999999999999999M").is_none());
}

#[test]
fn decimals_that_are_compared_must_not_be_far_apart() {
    for text in [
        "{1M 1 1e-999999999999M 2}",
        "#{1M 1e5000000001M}",
        "#{1.0M 1e5000000000M}",
        "{[1M] 1 [1e9999999999M] 2}",
        "{:k #{-1M -1e9999999999M}}",
        "#{{:a 1M} {:a 1e9999999999M}}",
        "{#_1 1M 1 #tag 1e9999999999M 2}",
        "#{1M -1e9999999999M}",
        "#{1M 0e9999999999M}",
    ] {
        assert!(!reads(text), "{text}");
    }
    for text in [
        "{1M 1 1e+0009999M 2}",
        "{1M 1 1e99999M 2}",
        "{:a 1M :b 1e9999999999M}",
        "[1M 1e9999999999M]",
        "(1M #{1e9999999999M})",
        "#{1M 1e9999999999}",
        "#{1M #_1e9999999999M 2}",
        "{#_1M 1e9999999999M 1 :k 1M}",
        "{1M 1 1e9999999999M}",
        "#{1M} #{1M 1e9999999999M}",
    ] {
        assert!(reads(text), "{text}");
        let _ = parse(text);
    }
    assert!(matches!(parse("{1M 1 1e99999M 2}"), Some(Edn::Table(entries)) if entries.len() == 2));
    assert!(matches!(
        parse("{:a 1M :b 1e9999999999M}"),
        Some(Edn::Table(entries)) if entries.len() == 2
    ));
    assert!(matches!(parse("#{1e9999999999M 1.5e9999999999M}"), Some(Edn::Other)));
}
