//! Reading the sources in an archive.

use vstd::prelude::*;
use crate::archive::{
    archive_held, archive_of, zip_len, zip_name, zip_open, zip_read, Archive, ArchiveView, Member,
    MemberView,
};
use crate::collect::push_item;
use crate::handlers::matching::{has_suffix, lemma_ends_in};
use crate::index::extractor::{analysis_of, extract, no_config};
use crate::index::model::{NsMeta, NsMetaView, SourceView, Symbol, SymbolSource, SymbolView};
use crate::index::scanner::{sourced, with_source, Namespaces, SourceFile, SourceFileView};
use crate::text::concat3;

verus! {

/// Whether an entry of an archive is Clojure source.
pub open spec fn source_entry(name: Seq<char>) -> bool {
    ".clj"@.is_suffix_of(name) || ".cljs"@.is_suffix_of(name) || ".cljc"@.is_suffix_of(name)
}

/// Whether an entry of an archive is Clojure source.
pub fn is_clojure_source(name: &str) -> (r: bool)
    ensures
        r == source_entry(name@),
{
    has_suffix(name, ".clj") || has_suffix(name, ".cljs") || has_suffix(name, ".cljc")
}

/// The path under which the index knows an entry of an archive.
pub open spec fn entry_path(jar: Seq<char>, name: Seq<char>) -> Seq<char> {
    jar + "!/"@ + name
}

/// What the first `n` entries of an archive say, each namespace with its symbols.
/// Private symbols are among them, so that navigation reaches the inside of a library.
pub open spec fn namespaces_in(jar: Seq<char>, entries: Seq<SourceFileView>, n: nat) -> Seq<
    (NsMetaView, Seq<SymbolView>),
>
    decreases n,
{
    if n == 0 {
        seq![]
    } else {
        let before = namespaces_in(jar, entries, (n - 1) as nat);
        let e = entries[n - 1];
        if source_entry(e.path) {
            match analysis_of(e.text, entry_path(jar, e.path), no_config()) {
                Some(a) => before.push((a.meta, sourced(a.symbols, SourceView::Jar(jar)))),
                None => before,
            }
        } else {
            before
        }
    }
}

/// What the entries of an archive say, each namespace with its symbols.
pub fn index_entries(jar_path: &str, entries: &Vec<SourceFile>) -> (r: Namespaces)
    ensures
        r.deep_view() == namespaces_in(jar_path@, entries.deep_view(), entries@.len()),
{
    let ghost all = entries.deep_view();
    let source = SymbolSource::Jar(jar_path.to_owned());
    let mut out: Vec<(NsMeta, Vec<Symbol>)> = Vec::new();
    assert(out.deep_view() =~= seq![]);
    let mut i: usize = 0;
    while i < entries.len()
        invariant
            i <= entries@.len(),
            all == entries.deep_view(),
            source.deep_view() == SourceView::Jar(jar_path@),
            out.deep_view() == namespaces_in(jar_path@, all, i as nat),
        decreases entries@.len() - i,
    {
        assert(all[i as int] == entries@[i as int].deep_view());
        let name = entries[i].path.as_str();
        if is_clojure_source(name) {
            let path = concat3(jar_path, "!/", name);
            if let Ok((meta, symbols)) = extract(entries[i].text.as_str(), path.as_str()) {
                push_item(&mut out, (meta, with_source(symbols, &source)));
            }
        }
        i += 1;
    }
    out
}

/// The sources among the first `n` files of an archive. A file that cannot be read as text
/// is passed over.
pub open spec fn sources_held(archive: ArchiveView, n: nat) -> Seq<SourceFileView>
    decreases n,
{
    if n == 0 {
        seq![]
    } else {
        let before = sources_held(archive, (n - 1) as nat);
        match archive.names[n - 1] {
            Some(name) => match archive.member(name) {
                MemberView::Text(text) => if source_entry(name) {
                    before.push(SourceFileView { path: name, text })
                } else {
                    before
                },
                _ => before,
            },
            None => before,
        }
    }
}

/// The sources in an archive.
fn read_sources(archive: Archive) -> (r: Vec<SourceFile>)
    ensures
        r.deep_view() == sources_held(archive_held(archive), archive_held(archive).names.len()),
{
    let ghost held = archive_held(archive);
    let mut archive = archive;
    let count: usize = zip_len(&archive);
    let mut out: Vec<SourceFile> = Vec::new();
    assert(out.deep_view() =~= seq![]);
    let mut i: usize = 0;
    while i < count
        invariant
            i <= count == held.names.len(),
            archive_held(archive) == held,
            out.deep_view() == sources_held(held, i as nat),
        decreases count - i,
    {
        if let Some(name) = zip_name(&mut archive, i) {
            if is_clojure_source(name.as_str()) {
                if let Member::Text(text) = zip_read(&mut archive, name.as_str()) {
                    push_item(&mut out, SourceFile { path: name, text });
                }
            }
        }
        i += 1;
    }
    out
}

/// What an archive says, each namespace with its symbols; or what is wrong with its bytes.
pub fn index_jar(jar_path: &str, bytes: Vec<u8>) -> (r: Result<Namespaces, String>)
    ensures
        match archive_of(bytes@) {
            Ok(archive) => {
                let sources = sources_held(archive, archive.names.len());
                r matches Ok(found) && found.deep_view() == namespaces_in(
                    jar_path@,
                    sources,
                    sources.len(),
                )
            },
            Err(error) => r matches Err(e) && e@ == error,
        },
{
    match zip_open(bytes) {
        Ok(archive) => Ok(index_entries(jar_path, &read_sources(archive))),
        Err(error) => Err(error),
    }
}

/// Every symbol of an archive says which archive it comes from.
pub proof fn law_symbols_name_their_archive(
    jar: Seq<char>,
    entries: Seq<SourceFileView>,
    n: nat,
    k: int,
    j: int,
)
    requires
        n <= entries.len(),
        0 <= k < namespaces_in(jar, entries, n).len(),
        0 <= j < namespaces_in(jar, entries, n)[k].1.len(),
    ensures
        namespaces_in(jar, entries, n)[k].1[j].source == SourceView::Jar(jar),
    decreases n,
{
    if n > 0 {
        let before = namespaces_in(jar, entries, (n - 1) as nat);
        if k < before.len() {
            law_symbols_name_their_archive(jar, entries, (n - 1) as nat, k, j);
        }
    }
}

/// The sources in an archive are its entries with the extension of a Clojure file.
pub proof fn law_archive_sources_end_so(name: Seq<char>)
    ensures
        source_entry(name) <==> {
            ||| exists|front: Seq<char>| name == #[trigger] (front + ".clj"@)
            ||| exists|front: Seq<char>| name == #[trigger] (front + ".cljs"@)
            ||| exists|front: Seq<char>| name == #[trigger] (front + ".cljc"@)
        },
{
    lemma_ends_in(name, ".clj"@);
    lemma_ends_in(name, ".cljs"@);
    lemma_ends_in(name, ".cljc"@);
}

}
