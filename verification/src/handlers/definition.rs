//! Where the word under the cursor is defined.

use vstd::prelude::*;
use crate::collect::dict_get;
use crate::document::{DocumentStore, StoreView};
use crate::handlers::completion::ns_of;
use crate::handlers::hover::{find_member, member_named, or_else};
use crate::handlers::java::{java_target, resolve_java_word, JavaTargetKind, TargetView};
use crate::handlers::matching::has_prefix;
use crate::handlers::references::{fqn_at, local_at, resolve_fqn_at, Location, LocationView};
use crate::handlers::resolve::{resolve_symbol, resolved, ResolvedSymbol, ResolvedView};
use crate::index::extractor::qualify;
use crate::index::jdk::{class_named, ClassView, JavaClassInfo};
use crate::index::locals::{
    binds_innermost, law_usages_mean_the_same_binding, locals_in_tree, visible, LocalRefsView,
};
use crate::index::model::SymbolView;
use crate::index::scope::{BindingView, LocalBinding};
use crate::index::symbols::{at, Index, IndexView};
use crate::lsp::{Position, Range};
use crate::syntax::FormView;
use crate::text::{
    concat3, index_from, law_split_at_the_first, split_once, starts_with_char, str_eq,
};
use crate::words::{parts, split_by, trim_start, trimmed_start};

verus! {

/// The last of the first `n` bindings of that name: the innermost one.
pub open spec fn innermost(bindings: Seq<BindingView>, name: Seq<char>, n: nat) -> Option<Range>
    decreases n,
{
    if n == 0 {
        None
    } else if bindings[n - 1].name == name {
        Some(bindings[n - 1].name_range)
    } else {
        innermost(bindings, name, (n - 1) as nat)
    }
}

/// Where the local at a position is bound. A keyword or a qualified word is none.
pub open spec fn local_site(store: StoreView, uri: Seq<char>, pos: Position) -> Option<Range> {
    match (store.word(uri, pos), store.tree(uri)) {
        (Some(word), Some(root)) => if store.keyword(uri, pos) is Some || index_from(word, '/', 0)
            is Some {
            None
        } else {
            innermost(visible(root, pos), word, visible(root, pos).len())
        },
        _ => None,
    }
}

fn find_innermost(bindings: &Vec<LocalBinding>, name: &str) -> (r: Option<Range>)
    ensures
        r == innermost(bindings.deep_view(), name@, bindings@.len()),
{
    let ghost all = bindings.deep_view();
    let mut n: usize = bindings.len();
    while n > 0
        invariant
            n <= bindings@.len(),
            all == bindings.deep_view(),
            innermost(all, name@, bindings@.len()) == innermost(all, name@, n as nat),
        decreases n,
    {
        assert(all[n - 1] == bindings@[n - 1].deep_view());
        if str_eq(bindings[n - 1].name.as_str(), name) {
            return Some(bindings[n - 1].name_range);
        }
        n -= 1;
    }
    None
}

fn local_definition(documents: &DocumentStore, uri: &str, pos: Position) -> (r: Option<Range>)
    ensures
        r == local_site(documents@, uri@, pos),
{
    if documents.is_keyword_at(uri, pos) {
        return None;
    }
    let word = match documents.word_at(uri, pos) {
        Some(word) => word,
        None => return None,
    };
    if split_once(word.as_str(), '/').is_some() {
        return None;
    }
    match documents.snapshot(uri) {
        Some(snapshot) => find_innermost(&locals_in_tree(&snapshot.tree, pos), word.as_str()),
        None => None,
    }
}

/// Whether a line declares the alias `word`: it holds `:as word`.
pub open spec fn declares_alias(line: Seq<char>, word: Seq<char>) -> bool {
    exists|i: int|
        1 <= i < parts(line, ":as"@).len() && word.is_prefix_of(
            trimmed_start(#[trigger] parts(line, ":as"@)[i]),
        )
}

fn line_declares_alias(line: &str, word: &str) -> (r: bool)
    ensures
        r == declares_alias(line@, word@),
{
    proof {
        reveal_strlit(":as");
    }
    let pieces = split_by(line, ":as");
    let ghost all = pieces.deep_view();
    let mut i: usize = 1;
    while i < pieces.len()
        invariant
            1 <= i,
            all == pieces.deep_view(),
            all == parts(line@, ":as"@),
            forall|k: int|
                1 <= k < i && k < all.len() ==> !word@.is_prefix_of(
                    trimmed_start(#[trigger] parts(line@, ":as"@)[k]),
                ),
        decreases pieces@.len() - i,
    {
        assert(all[i as int] == pieces@[i as int]@);
        if has_prefix(trim_start(pieces[i].as_str()).as_str(), word) {
            assert(word@.is_prefix_of(trimmed_start(parts(line@, ":as"@)[i as int])));
            return true;
        }
        i += 1;
    }
    false
}

/// Whether the line of a document declares the alias `word`.
pub open spec fn on_alias(store: StoreView, uri: Seq<char>, line: u32, word: Seq<char>) -> bool {
    match store.line(uri, line) {
        Some(text) => declares_alias(text, word),
        None => false,
    }
}

fn on_alias_declaration(documents: &DocumentStore, uri: &str, line: u32, word: &str) -> (r: bool)
    ensures
        r == on_alias(documents@, uri@, line, word@),
{
    match documents.line_text(uri, line) {
        Some(text) => line_declares_alias(text.as_str(), word),
        None => false,
    }
}

/// The namespace that `word` means in `ns`: its alias, or its own name.
pub open spec fn meant_namespace(v: IndexView, ns: Seq<char>, word: Seq<char>) -> Seq<char> {
    match at(v.namespaces, ns) {
        Some(meta) => match dict_get(meta.aliases, word) {
            Some(target) => target,
            None => word,
        },
        None => word,
    }
}

/// The top of the file of the namespace that `word` means.
pub open spec fn namespace_top(v: IndexView, ns: Seq<char>, word: Seq<char>) -> Option<LocationView> {
    match at(v.namespaces, meant_namespace(v, ns, word)) {
        Some(meta) => Some(LocationView { file: meta.file, range: top() }),
        None => None,
    }
}

/// The start of a file.
pub open spec fn top() -> Range {
    Range {
        start: Position { line: 0, character: 0 },
        end: Position { line: 0, character: 0 },
    }
}

fn namespace_location(index: &Index, current_ns: &str, word: &str) -> (r: Option<Location>)
    ensures
        r.deep_view() == namespace_top(index@, current_ns@, word@),
{
    let target = match index.ns_meta(current_ns) {
        Some(meta) => match meta.aliases.get(word) {
            Some(target) => target.clone(),
            None => word.to_owned(),
        },
        None => word.to_owned(),
    };
    match index.ns_meta(target.as_str()) {
        Some(meta) => Some(
            Location {
                file: meta.file,
                range: Range::new(Position::new(0, 0), Position::new(0, 0)),
            },
        ),
        None => None,
    }
}

/// Where a class declares an interop target; the class itself where it does not.
pub open spec fn target_range(c: ClassView, target: TargetView) -> Range {
    match target.kind {
        JavaTargetKind::Class => c.decl_name_range,
        JavaTargetKind::Ctor => if c.ctors.len() > 0 {
            c.ctors[0].name_range
        } else {
            c.decl_name_range
        },
        JavaTargetKind::StaticMember => {
            let name = or_else(target.member, ""@);
            match member_named(c.methods, name, 0) {
                Some(m) => m.name_range,
                None => match member_named(c.fields, name, 0) {
                    Some(f) => f.name_range,
                    None => c.decl_name_range,
                },
            }
        },
    }
}

/// Where the sources of the Java platform declare an interop word.
pub open spec fn java_site(v: IndexView, word: Seq<char>, ns: Seq<char>) -> Option<LocationView> {
    match (java_target(v, word, ns), v.jdk) {
        (Some(target), Some(jdk)) => match class_named(jdk.classes, target.class_fqn, 0) {
            Some(c) => Some(
                LocationView {
                    file: jdk.src_zip + "!/"@ + c.entry,
                    range: target_range(c, target),
                },
            ),
            None => None,
        },
        _ => None,
    }
}

fn range_of_target(info: &JavaClassInfo, kind: JavaTargetKind, member: &Option<String>) -> (r: Range)
    ensures
        forall|target: TargetView|
            target.kind == kind && target.member == member.deep_view() ==> r
                == #[trigger] target_range(info.deep_view(), target),
{
    match kind {
        JavaTargetKind::Class => info.decl_name_range,
        JavaTargetKind::Ctor => if info.ctors.len() > 0 {
            assert(info.deep_view().ctors[0] == info.ctors@[0].deep_view());
            info.ctors[0].name_range
        } else {
            info.decl_name_range
        },
        JavaTargetKind::StaticMember => {
            let name = match member {
                Some(name) => name.as_str(),
                None => "",
            };
            match find_member(&info.methods, name) {
                Some(m) => m.name_range,
                None => match find_member(&info.fields, name) {
                    Some(f) => f.name_range,
                    None => info.decl_name_range,
                },
            }
        },
    }
}

fn java_definition(index: &Index, word: &str, current_ns: &str) -> (r: Option<Location>)
    ensures
        r.deep_view() == java_site(index@, word@, current_ns@),
{
    let target = match resolve_java_word(index, word, current_ns) {
        Some(target) => target,
        None => return None,
    };
    let jdk = match index.jdk() {
        Some(jdk) => jdk,
        None => return None,
    };
    match jdk.class(target.class_fqn.as_str()) {
        Some(info) => {
            let range = range_of_target(info, target.kind, &target.member);
            assert(range == target_range(info.deep_view(), target.deep_view()));
            Some(
                Location {
                    file: concat3(jdk.src_zip.as_str(), "!/", info.entry.as_str()),
                    range,
                },
            )
        },
        None => None,
    }
}

/// Where a symbol is defined.
pub open spec fn symbol_site(s: SymbolView) -> LocationView {
    LocationView { file: s.file, range: s.name_range }
}

/// Where a bare or qualified word is defined. A built-in that the cursor does not mean,
/// because the line declares an alias of its name, gives way to the namespace; the
/// others lead to the sources of `clojure.core`, where they are indexed.
pub open spec fn word_site(
    v: IndexView,
    store: StoreView,
    uri: Seq<char>,
    line: u32,
    word: Seq<char>,
    ns: Seq<char>,
) -> Option<LocationView> {
    match resolved(v, word, ns) {
        Some(ResolvedView::Project(s)) => Some(symbol_site(s)),
        Some(ResolvedView::Core(c)) => if on_alias(store, uri, line, word) {
            namespace_top(v, ns, word)
        } else {
            match at(v.symbols, qualify("clojure.core"@, c.name)) {
                Some(s) => Some(symbol_site(s)),
                None => None,
            }
        },
        Some(_) => if on_alias(store, uri, line, word) {
            namespace_top(v, ns, word)
        } else {
            None
        },
        None => match namespace_top(v, ns, word) {
            Some(site) => Some(site),
            None => java_site(v, word, ns),
        },
    }
}

/// Where what stands at a position of the open document `uri`, the file `path`, is
/// defined: a local first, then a definition or usage, then what the word stands for. A
/// keyword is never taken for a var of its name.
pub open spec fn definition_at(
    v: IndexView,
    store: StoreView,
    uri: Seq<char>,
    path: Seq<char>,
    pos: Position,
) -> Option<LocationView> {
    match local_site(store, uri, pos) {
        Some(range) => Some(LocationView { file: path, range }),
        None => {
            let fqn = fqn_at(v, store, uri, path, pos);
            if fqn is Some && at(v.symbols, fqn->0) is Some {
                Some(symbol_site(at(v.symbols, fqn->0)->0))
            } else if (fqn is Some && (fqn->0).len() > 0 && (fqn->0)[0] == ':') || store.keyword(
                uri,
                pos,
            ) is Some {
                None
            } else {
                match store.word(uri, pos) {
                    Some(word) => word_site(v, store, uri, pos.line, word, ns_of(v, path)),
                    None => None,
                }
            }
        },
    }
}

fn word_definition(
    index: &Index,
    documents: &DocumentStore,
    uri: &str,
    line: u32,
    word: &str,
    current_ns: &str,
) -> (r: Option<Location>)
    ensures
        r.deep_view() == word_site(index@, documents@, uri@, line, word@, current_ns@),
{
    match resolve_symbol(index, word, current_ns) {
        Some(ResolvedSymbol::Project(sym)) => Some(
            Location { file: sym.file, range: sym.name_range },
        ),
        Some(ResolvedSymbol::Core(c)) => {
            if on_alias_declaration(documents, uri, line, word) {
                return namespace_location(index, current_ns, word);
            }
            match index.lookup_in_ns("clojure.core", c.name.as_str()) {
                Some(sym) => Some(Location { file: sym.file, range: sym.name_range }),
                None => None,
            }
        },
        Some(_) => if on_alias_declaration(documents, uri, line, word) {
            namespace_location(index, current_ns, word)
        } else {
            None
        },
        None => match namespace_location(index, current_ns, word) {
            Some(location) => Some(location),
            None => java_definition(index, word, current_ns),
        },
    }
}

/// Where what stands at a position of the open document `uri`, the file `path`, is
/// defined.
pub fn handle(
    index: &Index,
    documents: &DocumentStore,
    uri: &str,
    path: &str,
    pos: Position,
) -> (r: Option<Location>)
    ensures
        r.deep_view() == definition_at(index@, documents@, uri@, path@, pos),
{
    if let Some(range) = local_definition(documents, uri, pos) {
        return Some(Location { file: path.to_owned(), range });
    }
    if let Some(fqn) = resolve_fqn_at(index, documents, uri, path, pos) {
        if let Some(sym) = index.lookup(fqn.as_str()) {
            return Some(Location { file: sym.file, range: sym.name_range });
        }
        if starts_with_char(fqn.as_str(), ':') {
            return None;
        }
    }
    if documents.is_keyword_at(uri, pos) {
        return None;
    }
    let word = match documents.word_at(uri, pos) {
        Some(word) => word,
        None => return None,
    };
    let current_ns = match index.file_ns(path) {
        Some(ns) => ns,
        None => String::new(),
    };
    assert(current_ns@ =~= ns_of(index@, path@));
    word_definition(index, documents, uri, pos.line, word.as_str(), current_ns.as_str())
}

/// A local leads to its binding in the same file, whatever else has its name.
pub proof fn law_locals_come_first(
    v: IndexView,
    store: StoreView,
    uri: Seq<char>,
    path: Seq<char>,
    pos: Position,
)
    requires
        local_site(store, uri, pos) is Some,
    ensures
        definition_at(v, store, uri, path, pos) == Some(
            LocationView { file: path, range: local_site(store, uri, pos)->0 },
        ),
{
}

/// A keyword leads to the definition of that keyword or nowhere, never to a var of the
/// same name.
pub proof fn law_keywords_are_no_vars(
    v: IndexView,
    store: StoreView,
    uri: Seq<char>,
    path: Seq<char>,
    pos: Position,
)
    requires
        store.keyword(uri, pos) is Some,
    ensures
        definition_at(v, store, uri, path, pos) == (match fqn_at(v, store, uri, path, pos) {
            Some(fqn) => match at(v.symbols, fqn) {
                Some(s) => Some(symbol_site(s)),
                None => None,
            },
            None => None,
        }),
{
}

proof fn lemma_innermost(bindings: Seq<BindingView>, name: Seq<char>, n: nat)
    requires
        n <= bindings.len(),
    ensures
        match innermost(bindings, name, n) {
            Some(range) => exists|k: int|
                0 <= k < n && (#[trigger] bindings[k]).name == name && bindings[k].name_range
                    == range && forall|j: int| k < j < n ==> (#[trigger] bindings[j]).name != name,
            None => forall|j: int| 0 <= j < n ==> (#[trigger] bindings[j]).name != name,
        },
    decreases n,
{
    if n > 0 && bindings[n - 1].name != name {
        lemma_innermost(bindings, name, (n - 1) as nat);
        if let Some(range) = innermost(bindings, name, (n - 1) as nat) {
            let k = choose|k: int|
                0 <= k < n - 1 && (#[trigger] bindings[k]).name == name && bindings[k].name_range
                    == range && forall|j: int|
                    k < j < n - 1 ==> (#[trigger] bindings[j]).name != name;
            assert(bindings[k].name_range == range);
        }
    } else if n > 0 {
        assert(bindings[n - 1].name == name);
    }
}

/// A bare word that a visible local has leads to the innermost binding of that name: of the
/// visible locals, which go from the outermost to the innermost, the last of that name.
pub proof fn law_local_leads_to_its_innermost_binding(
    v: IndexView,
    store: StoreView,
    uri: Seq<char>,
    path: Seq<char>,
    pos: Position,
    word: Seq<char>,
    root: FormView,
)
    requires
        store.word(uri, pos) == Some(word),
        store.keyword(uri, pos) is None,
        !word.contains('/'),
        store.tree(uri) == Some(root),
        exists|k: int| 0 <= k < visible(root, pos).len() && (#[trigger] visible(root, pos)[k]).name
            == word,
    ensures
        exists|k: int|
            #[trigger] binds_innermost(visible(root, pos), k, word) && definition_at(
                v,
                store,
                uri,
                path,
                pos,
            ) == Some(LocationView { file: path, range: visible(root, pos)[k].name_range }),
        forall|k: int|
            #[trigger] binds_innermost(visible(root, pos), k, word) ==> definition_at(
                v,
                store,
                uri,
                path,
                pos,
            ) == Some(LocationView { file: path, range: visible(root, pos)[k].name_range }),
{
    let all = visible(root, pos);
    law_split_at_the_first(word, '/', seq![]);
    lemma_innermost(all, word, all.len());
    let range = innermost(all, word, all.len())->0;
    let k = choose|k: int|
        0 <= k < all.len() && (#[trigger] all[k]).name == word && all[k].name_range == range
            && forall|j: int| k < j < all.len() ==> (#[trigger] all[j]).name != word;
    assert(binds_innermost(all, k, word));
    assert forall|m: int| #[trigger] binds_innermost(all, m, word) implies m == k by {
        if m < k {
            assert(all[k].name != word);
        }
        if k < m {
            assert(all[m].name != word);
        }
    }
}

/// Going to the definition of a local and asking for its references or its new name start
/// from the same declaration.
pub proof fn law_definition_agrees_with_references(
    v: IndexView,
    store: StoreView,
    uri: Seq<char>,
    path: Seq<char>,
    pos: Position,
    word: Seq<char>,
    refs: LocalRefsView,
)
    requires
        local_at(store, uri, pos) == Some((word, refs)),
    ensures
        definition_at(v, store, uri, path, pos) == Some(
            LocationView { file: path, range: refs.declaration },
        ),
{
    let root = store.tree(uri)->0;
    crate::text::lemma_index_from(word, '/', 0);
    law_usages_mean_the_same_binding(root, pos, word);
    let k = choose|k: int|
        #[trigger] binds_innermost(visible(root, pos), k, word) && visible(root, pos)[k].name_range
            == refs.declaration;
    assert(visible(root, pos)[k].name == word);
    assert(!word.contains('/')) by {
        if word.contains('/') {
            assert(word[word.index_of('/')] == '/');
        }
    }
    law_local_leads_to_its_innermost_binding(v, store, uri, path, pos, word, root);
}

/// Whether the word at a position is no visible local.
pub open spec fn on_no_local(store: StoreView, uri: Seq<char>, pos: Position) -> bool {
    ||| store.word(uri, pos) is None
    ||| store.tree(uri) is None
    ||| store.keyword(uri, pos) is Some
    ||| store.word(uri, pos)->0.contains('/')
    ||| forall|k: int|
        0 <= k < visible(store.tree(uri)->0, pos).len() ==> (#[trigger] visible(
            store.tree(uri)->0,
            pos,
        )[k]).name != store.word(uri, pos)->0
}

proof fn lemma_on_no_local(store: StoreView, uri: Seq<char>, pos: Position)
    requires
        on_no_local(store, uri, pos),
    ensures
        local_site(store, uri, pos) is None,
{
    if let (Some(word), Some(root)) = (store.word(uri, pos), store.tree(uri)) {
        let all = visible(root, pos);
        lemma_innermost(all, word, all.len());
        crate::text::lemma_index_from(word, '/', 0);
        if word.contains('/') {
            assert(word[word.index_of('/')] == '/');
        }
    }
}

/// What is no local and stands for a name of the index leads to where that is defined.
pub proof fn law_names_lead_to_their_definition(
    v: IndexView,
    store: StoreView,
    uri: Seq<char>,
    path: Seq<char>,
    pos: Position,
    fqn: Seq<char>,
)
    requires
        on_no_local(store, uri, pos),
        fqn_at(v, store, uri, path, pos) == Some(fqn),
        v.symbols.dom().contains(fqn),
    ensures
        definition_at(v, store, uri, path, pos) == Some(
            LocationView { file: v.symbols[fqn].file, range: v.symbols[fqn].name_range },
        ),
{
    lemma_on_no_local(store, uri, pos);
}

/// A word that is nothing else leads to the namespace that it is an alias of, or that it
/// names: to the top of the file.
pub proof fn law_namespaces_lead_to_their_file(
    v: IndexView,
    store: StoreView,
    uri: Seq<char>,
    path: Seq<char>,
    pos: Position,
    word: Seq<char>,
    ns: Seq<char>,
    target: Seq<char>,
)
    requires
        on_no_local(store, uri, pos),
        fqn_at(v, store, uri, path, pos) is None,
        store.word(uri, pos) == Some(word),
        store.keyword(uri, pos) is None,
        v.file_to_ns.dom().contains(path),
        v.file_to_ns[path] == ns,
        resolved(v, word, ns) is None,
        v.namespaces.dom().contains(ns),
        dict_get(v.namespaces[ns].aliases, word) == Some(target) || (dict_get(
            v.namespaces[ns].aliases,
            word,
        ) is None && target == word),
        v.namespaces.dom().contains(target),
    ensures
        definition_at(v, store, uri, path, pos) == Some(
            LocationView {
                file: v.namespaces[target].file,
                range: Range {
                    start: Position { line: 0, character: 0 },
                    end: Position { line: 0, character: 0 },
                },
            },
        ),
{
    lemma_on_no_local(store, uri, pos);
}

/// A word that the project resolves leads to what it resolves to.
pub proof fn law_resolved_words_lead_to_their_definition(
    v: IndexView,
    store: StoreView,
    uri: Seq<char>,
    path: Seq<char>,
    pos: Position,
    word: Seq<char>,
    ns: Seq<char>,
    sym: SymbolView,
)
    requires
        on_no_local(store, uri, pos),
        fqn_at(v, store, uri, path, pos) matches Some(fqn) ==> !v.symbols.dom().contains(fqn) && !(
        fqn.len() > 0 && fqn[0] == ':'),
        store.word(uri, pos) == Some(word),
        store.keyword(uri, pos) is None,
        v.file_to_ns.dom().contains(path),
        v.file_to_ns[path] == ns,
        resolved(v, word, ns) == Some(ResolvedView::Project(sym)),
    ensures
        definition_at(v, store, uri, path, pos) == Some(
            LocationView { file: sym.file, range: sym.name_range },
        ),
{
    lemma_on_no_local(store, uri, pos);
}

}
