use clj_pulse::index::jar_cache::{
    cache_file_path, is_fresh, load, pack, unpack, JarCacheEntry, CACHE_FORMAT_VERSION,
};
use clj_pulse::index::{DefKind, NsMeta, Symbol, SymbolSource};
use clj_pulse::lsp::{Position, Range};

fn make_range(line: u32, start: u32, end: u32) -> Range {
    Range {
        start: Position {
            line,
            character: start,
        },
        end: Position {
            line,
            character: end,
        },
    }
}

fn make_namespace(ns: &str, file: &str) -> (NsMeta, Vec<Symbol>) {
    let meta = NsMeta {
        name: ns.to_string(),
        ..NsMeta::empty(file)
    };
    let symbol = Symbol {
        name: "my-fn".to_string(),
        fqn: format!("{ns}/my-fn"),
        ns: ns.to_string(),
        kind: DefKind::Defn,
        params: vec!["[x]".to_string()],
        doc: None,
        file: file.to_string(),
        source: SymbolSource::Jar("/lib.jar".to_string()),
        range: make_range(2, 0, 20),
        name_range: make_range(2, 5, 10),
        private: false,
    };
    (meta, vec![symbol])
}

fn make_entry(mtime: u64) -> JarCacheEntry {
    let (meta, symbols) = make_namespace("mylib.core", "/lib.jar!/mylib/core.clj");
    JarCacheEntry {
        format_version: CACHE_FORMAT_VERSION,
        mtime,
        namespaces: vec![meta],
        symbols,
    }
}

#[test]
fn test_cache_miss_wrong_format_version() {
    let mut entry = make_entry(1700000000);
    entry.format_version = CACHE_FORMAT_VERSION - 1;
    assert!(load(Some(entry), Some(1700000000)).is_none());
}

#[test]
fn test_round_trip() {
    let loaded = load(Some(make_entry(1700000000)), Some(1700000000)).unwrap();
    assert_eq!(loaded.namespaces.len(), 1);
    assert_eq!(loaded.namespaces[0].name, "mylib.core");
    assert_eq!(loaded.symbols.len(), 1);
    assert_eq!(loaded.symbols[0].name, "my-fn");
}

#[test]
fn test_cache_miss_stale_mtime() {
    // Save with mtime=0 (clearly does not match the real mtime)
    assert!(load(Some(make_entry(0)), Some(1700000000)).is_none());
}

#[test]
fn test_cache_hit() {
    assert!(load(Some(make_entry(1700000000)), Some(1700000000)).is_some());
    assert!(is_fresh(&make_entry(5), Some(5)));
    assert!(!is_fresh(&make_entry(5), None));
}

#[test]
fn test_no_cache_file_returns_none() {
    assert!(load(None, Some(1700000000)).is_none());
    assert!(load(Some(make_entry(0)), None).is_none());
}

#[test]
fn what_was_packed_comes_out_again() {
    let found = vec![
        make_namespace("a", "/lib.jar!/a.clj"),
        make_namespace("b", "/lib.jar!/b.clj"),
    ];
    let entry = pack(&found, 7);
    assert_eq!((entry.format_version, entry.mtime), (CACHE_FORMAT_VERSION, 7));
    let again = unpack(&entry);
    assert_eq!(again.len(), 2);
    for (i, ns) in ["a", "b"].iter().enumerate() {
        assert_eq!(again[i].0.name, *ns);
        assert_eq!(again[i].1.len(), 1);
        assert_eq!(again[i].1[0].fqn, format!("{ns}/my-fn"));
    }
}

#[test]
fn cache_files_are_named_by_their_hash() {
    assert_eq!(cache_file_path("/cache", 0xab), "/cache/00000000000000ab.bin");
}
