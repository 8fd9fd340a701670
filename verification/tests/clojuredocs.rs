use clj_pulse::clojuredocs::{bracket, path_from_init_options, ClojureDocs, RawRef, RawVar};
use serde_json::Value;

fn value(json: &str) -> Value {
    serde_json::from_str(json).expect("valid JSON")
}

fn text(v: &Value) -> Option<String> {
    v.as_str().map(str::to_string)
}

fn list(v: &Value) -> Vec<Value> {
    v.as_array().cloned().unwrap_or_default()
}

/// The entries of an export.
fn parse(json: &str) -> ClojureDocs {
    let vars: Vec<RawVar> = list(&value(json)["vars"])
        .iter()
        .map(|v| RawVar {
            ns: text(&v["ns"]),
            name: text(&v["name"]),
            doc: text(&v["doc"]),
            arglists: list(&v["arglists"]).iter().filter_map(text).collect(),
            added: text(&v["added"]),
            href: text(&v["href"]),
            examples: list(&v["examples"]).iter().map(|e| text(&e["body"])).collect(),
            see_alsos: list(&v["see-alsos"])
                .iter()
                .map(|s| {
                    s.get("to-var").map(|to| RawRef {
                        ns: text(&to["ns"]),
                        name: text(&to["name"]),
                    })
                })
                .collect(),
        })
        .collect();
    ClojureDocs::from_vars(&vars)
}

const EXPORT: &str = r#"{
      "created-at": 1788243505643,
      "description": "ClojureDocs Data Export",
      "vars": [
        {"ns": "clojure.core", "name": "map", "type": "function", "added": "1.0",
         "href": "/clojure.core/map", "file": "clojure/core.clj",
         "doc": "Returns a lazy sequence.",
         "arglists": ["f", "f coll", "[x]"],
         "examples": [
           {"body": "(map inc [1 2 3])", "author": {"login": "a", "avatar-url": "x"}, "_id": "1"},
           {"body": ";; two", "created-at": 1}
         ],
         "notes": [{"body": "a note"}],
         "see-alsos": [{"to-var": {"ns": "clojure.core", "name": "mapv", "library-url": "u"}, "_id": "2"}]},
        {"ns": "clojure.string", "name": "join",
         "doc": "Joins.", "notes": [{"body": "n"}]},
        {"ns": "clojure.core", "name": "nulls", "doc": null, "added": null, "href": null,
         "arglists": null, "examples": null, "see-alsos": null, "notes": null},
        {"name": "orphan", "doc": "no ns"},
        {"ns": "clojure.core", "doc": "no name"}
      ]
    }"#;

#[test]
fn parses_entries_with_normalized_fields() {
    let docs = parse(EXPORT);
    assert_eq!(docs.len(), 3);
    let map = docs.get("clojure.core/map").unwrap();
    assert_eq!(map.ns, "clojure.core");
    assert_eq!(map.name, "map");
    assert_eq!(map.doc.as_deref(), Some("Returns a lazy sequence."));
    assert_eq!(map.arglists, vec!["[f]", "[f coll]", "[x]"]);
    assert_eq!(map.added.as_deref(), Some("1.0"));
    assert_eq!(map.examples, vec!["(map inc [1 2 3])", ";; two"]);
    assert_eq!(map.see_alsos, vec!["clojure.core/mapv"]);
    assert_eq!(map.url, "https://clojuredocs.org/clojure.core/map");
}

#[test]
fn minimal_var_gets_defaults_and_derived_url() {
    let docs = parse(EXPORT);
    let join = docs.get("clojure.string/join").unwrap();
    assert!(join.arglists.is_empty());
    assert!(join.examples.is_empty());
    assert!(join.see_alsos.is_empty());
    assert_eq!(join.added, None);
    assert_eq!(join.url, "https://clojuredocs.org/clojure.string/join");
}

#[test]
fn null_fields_read_as_empty() {
    // The raw export writes `null` for empty collections and unknown
    // scalars; each must read as empty rather than fail the whole file.
    let docs = parse(EXPORT);
    let nulls = docs.get("clojure.core/nulls").unwrap();
    assert!(nulls.arglists.is_empty());
    assert!(nulls.examples.is_empty());
    assert!(nulls.see_alsos.is_empty());
    assert_eq!(nulls.doc, None);
    assert_eq!(nulls.added, None);
    assert_eq!(nulls.url, "https://clojuredocs.org/clojure.core/nulls");
    assert!(parse(r#"{"vars": null}"#).is_empty());
}


#[test]
fn vars_without_ns_or_name_are_skipped() {
    let docs = parse(EXPORT);
    assert!(docs.get("clojure.core/orphan").is_none());
    assert!(docs.get("/orphan").is_none());
}

#[test]
fn unknown_fields_and_notes_are_ignored() {
    // Notes exist in the fixture; nothing on Entry can carry them, so the
    // check is that parsing succeeds with them and other extras present.
    let docs = parse(r#"{"vars": [{"ns": "a", "name": "b", "notes": [{"body": "x"}], "extra": 1}], "extra": true}"#);
    assert!(docs.get("a/b").is_some());
}

#[test]
fn path_from_init_options_reads_nested_key() {
    assert_eq!(
        path_from_init_options(&value(r#"{"clojuredocs": {"path": "/x/y.json"}}"#)),
        Some("/x/y.json".to_string())
    );
    assert_eq!(
        path_from_init_options(&value(r#"{"dependency-scheme": "jar"}"#)),
        None
    );
    assert_eq!(path_from_init_options(&value(r#"{"clojuredocs": "/x"}"#)), None);
    assert_eq!(path_from_init_options(&value("null")), None);
}

#[test]
fn the_last_of_two_entries_stays() {
    let docs = parse(
        r#"{"vars": [{"ns": "a", "name": "b", "doc": "one"}, {"ns": "a", "name": "b", "doc": "two"}]}"#,
    );
    assert_eq!(docs.len(), 1);
    assert_eq!(docs.get("a/b").unwrap().doc.as_deref(), Some("two"));
}

#[test]
fn argument_lists_are_bracketed_once() {
    assert_eq!(bracket(" f coll "), "[f coll]");
    assert_eq!(bracket("[x]"), "[x]");
    assert_eq!(bracket(""), "[]");
}

#[test]
fn every_entry_is_whole() {
    let docs = parse(EXPORT);
    for fqn in ["clojure.core/map", "clojure.string/join", "clojure.core/nulls"] {
        let entry = docs.get(fqn).expect("an entry");
        assert_eq!(format!("{}/{}", entry.ns, entry.name), fqn);
        assert!(!entry.ns.is_empty() && !entry.name.is_empty());
        assert!(entry.arglists.iter().all(|a| a.starts_with('[')));
        assert!(entry.url.starts_with("https://clojuredocs.org"));
    }
    assert!(!docs.is_empty());
}
