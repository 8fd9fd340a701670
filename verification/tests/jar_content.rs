use clj_pulse::archive::Member;
use clj_pulse::jar_content::{
    content, extract_content, located, parse_jar_uri, split_index_path, JarUriError,
};
use std::io::{Cursor, Write};

fn make_jar(entries: &[(&str, &[u8])]) -> Vec<u8> {
    let mut zip = zip::ZipWriter::new(Cursor::new(Vec::new()));
    let opts = zip::write::SimpleFileOptions::default();
    for (name, content) in entries {
        zip.start_file(*name, opts).unwrap();
        zip.write_all(content).unwrap();
    }
    zip.finish().unwrap().into_inner()
}

#[test]
fn test_parse_jar_uri_valid() {
    let (path, entry) = parse_jar_uri("jar:file:///tmp/lib.jar!/clojure/string.clj").unwrap();
    assert_eq!(path, "/tmp/lib.jar");
    assert_eq!(entry, "clojure/string.clj");
}

#[test]
fn test_parse_jar_uri_missing_separator() {
    let uri = "jar:file:///tmp/lib.jar/clojure/string.clj";
    let result = parse_jar_uri(uri);
    assert!(result.is_err());
    let msg = result.unwrap_err().message(uri);
    assert!(msg.contains("missing '!/'"), "unexpected error: {}", msg);
}

#[test]
fn an_address_of_another_kind_is_refused() {
    let uri = "file:///tmp/lib.jar!/a.clj";
    let err = parse_jar_uri(uri).unwrap_err();
    assert_eq!(err, JarUriError::NotJar);
    assert_eq!(err.message(uri), "URI does not start with 'jar:': file:///tmp/lib.jar!/a.clj");
}

#[test]
fn a_malformed_archive_address_is_named() {
    let uri = "jar:nothing!/a.clj";
    let err = parse_jar_uri(uri).unwrap_err();
    assert!(matches!(&err, JarUriError::BadUrl { address, .. } if address == "nothing"));
    assert_eq!(err.message(uri), "Invalid file URL 'nothing': relative URL without a base");
}

#[test]
fn an_archive_address_without_a_path_is_refused() {
    let uri = "jar:mailto:a@b!/a.clj";
    let err = parse_jar_uri(uri).unwrap_err();
    assert_eq!(err.message(uri), "Cannot convert URL to path: mailto:a@b");
    assert_eq!(
        located("x:y".to_string(), "e".to_string(), None),
        Err(JarUriError::NoPath { address: "x:y".to_string() })
    );
}

#[test]
fn index_paths_split_at_the_archive() {
    assert_eq!(
        split_index_path("/m2/lib.jar!/a/b.clj"),
        Some(("/m2/lib.jar".to_string(), "a/b.clj".to_string()))
    );
    assert_eq!(split_index_path("/src/a.clj"), None);
}

#[test]
fn test_extract_content_found() {
    let source = b"(ns clojure.string)\n(defn blank? [s] (empty? s))";
    let jar = make_jar(&[("clojure/string.clj", source)]);
    let content = extract_content("/lib.jar", jar, "clojure/string.clj").unwrap();
    assert_eq!(content, std::str::from_utf8(source).unwrap());
}

#[test]
fn test_extract_content_missing_entry() {
    let jar = make_jar(&[("clojure/string.clj", b"(ns clojure.string)")]);
    let result = extract_content("/lib.jar", jar, "clojure/core.clj");
    assert!(result.is_err());
    let msg = result.unwrap_err();
    assert!(msg.contains("not found"), "unexpected error: {}", msg);
    assert_eq!(msg, "Entry 'clojure/core.clj' not found in JAR '/lib.jar'");
}

#[test]
fn what_cannot_be_read_is_told() {
    let jar = make_jar(&[("a.clj", b"\xFF\xFE")]);
    assert_eq!(
        extract_content("/lib.jar", jar, "a.clj").unwrap_err(),
        "Failed to read entry 'a.clj': stream did not contain valid UTF-8"
    );
    let msg = extract_content("/lib.jar", b"no archive".to_vec(), "a.clj").unwrap_err();
    assert!(msg.starts_with("Could not read ZIP archive '/lib.jar': "), "{}", msg);
    assert_eq!(
        content("/l.jar", "e", Member::Unreadable("why".to_string())).unwrap_err(),
        "Failed to read entry 'e': why"
    );
}
