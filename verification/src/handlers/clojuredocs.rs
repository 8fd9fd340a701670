//! Which var the word under the cursor means for ClojureDocs, and the answer.

use vstd::prelude::*;
use crate::clojuredocs::{ClojureDocs, Entry, EntryView};
use crate::collect::{copy_opt, copy_strs, dict_get, strs};
use crate::handlers::resolve::{resolve_symbol, resolved, ResolvedSymbol, ResolvedView};
use crate::index::extractor::qualify;
use crate::index::model::NsMetaView;
use crate::index::symbols::{at, Index, IndexView};
use crate::text::{
    chars_of, concat3, law_split_at_the_first, matches_at, split_first, split_once, str_eq, string_of,
};

verus! {

/// The answer to a request for documentation.
#[derive(Clone, Debug)]
pub struct DocsResult {
    /// The var that the request means; `None` where it means none.
    pub symbol: Option<String>,
    pub entry: Option<DocsEntry>,
}

/// What a [`DocsResult`] says.
pub ghost struct ResultView {
    pub symbol: Option<Seq<char>>,
    pub entry: Option<EntryView>,
}

/// An entry as the editor gets it.
#[derive(Clone, Debug, PartialEq, Eq)]
pub struct DocsEntry {
    pub ns: String,
    pub name: String,
    pub doc: Option<String>,
    pub arglists: Vec<String>,
    pub added: Option<String>,
    pub examples: Vec<String>,
    pub see_alsos: Vec<String>,
    pub url: String,
}

impl DeepView for DocsEntry {
    type V = EntryView;

    open spec fn deep_view(&self) -> EntryView {
        EntryView {
            ns: self.ns@,
            name: self.name@,
            doc: self.doc.deep_view(),
            arglists: strs(self.arglists@),
            added: self.added.deep_view(),
            examples: strs(self.examples@),
            see_alsos: strs(self.see_alsos@),
            url: self.url@,
        }
    }
}

impl DeepView for DocsResult {
    type V = ResultView;

    open spec fn deep_view(&self) -> ResultView {
        ResultView { symbol: self.symbol.deep_view(), entry: self.entry.deep_view() }
    }
}

impl DocsEntry {
    /// The entry as the editor gets it.
    pub fn of(entry: &Entry) -> (r: Self)
        ensures
            r.deep_view() == entry.deep_view(),
    {
        DocsEntry {
            ns: entry.ns.clone(),
            name: entry.name.clone(),
            doc: copy_opt(&entry.doc),
            arglists: copy_strs(&entry.arglists),
            added: copy_opt(&entry.added),
            examples: copy_strs(&entry.examples),
            see_alsos: copy_strs(&entry.see_alsos),
            url: entry.url.clone(),
        }
    }
}

/// `word` without a quote or var quote in front: `#'map` and `'map` name what `map` does.
pub open spec fn unquoted(word: Seq<char>) -> Seq<char> {
    if "#'"@.is_prefix_of(word) {
        word.skip("#'"@.len() as int)
    } else if "'"@.is_prefix_of(word) {
        word.skip("'"@.len() as int)
    } else {
        word
    }
}

fn strip(word: &str, prefix: &str) -> (r: Option<String>)
    ensures
        match r {
            Some(rest) => prefix@.is_prefix_of(word@) && rest@ == word@.skip(prefix@.len() as int),
            None => !prefix@.is_prefix_of(word@),
        },
{
    let chars = chars_of(word);
    let front = chars_of(prefix);
    if matches_at(&chars, &front, 0) {
        assert(word@.take(prefix@.len() as int) =~= prefix@);
        let rest = string_of(&chars, front.len(), chars.len());
        assert(rest@ =~= word@.skip(prefix@.len() as int));
        Some(rest)
    } else {
        None
    }
}

fn unquote(word: &str) -> (r: String)
    ensures
        r@ == unquoted(word@),
{
    match strip(word, "#'") {
        Some(rest) => rest,
        None => match strip(word, "'") {
            Some(rest) => rest,
            None => word.to_owned(),
        },
    }
}

/// The var that a word of the index stands for. The built-ins are filed under
/// `clojure.core`, special forms among them.
pub open spec fn indexed_var(found: ResolvedView) -> Seq<char> {
    match found {
        ResolvedView::Project(s) => s.fqn,
        ResolvedView::Core(c) => qualify("clojure.core"@, c.name),
        ResolvedView::LetgoNative(c) => qualify("clojure.core"@, c.name),
        ResolvedView::SpecialForm(f) => qualify("clojure.core"@, f.name),
    }
}

/// The var that an unindexed word would be: a qualified one through the aliases of the
/// namespace, a bare one in `clojure.core`. A lone `/` is division.
pub open spec fn supposed_var(v: IndexView, word: Seq<char>, ns: Seq<char>) -> Option<Seq<char>> {
    match split_first(word, '/') {
        Some((alias, name)) => if alias.len() > 0 && name.len() > 0 {
            Some(
                qualify(
                    match at(v.namespaces, ns) {
                        Some(meta) => match dict_get(meta.aliases, alias) {
                            Some(target) => target,
                            None => alias,
                        },
                        None => alias,
                    },
                    name,
                ),
            )
        } else if name.len() > 0 || word == "/"@ {
            Some(qualify("clojure.core"@, word))
        } else {
            None
        },
        None => Some(qualify("clojure.core"@, word)),
    }
}

/// The var that a word means in a namespace; `None` where it can name none.
pub open spec fn var_of(v: IndexView, word: Seq<char>, ns: Seq<char>) -> Option<Seq<char>> {
    let w = unquoted(word);
    if w.len() == 0 {
        None
    } else {
        match resolved(v, w, ns) {
            Some(found) => Some(indexed_var(found)),
            None => supposed_var(v, w, ns),
        }
    }
}

/// The var that a word means in a namespace.
pub fn resolve_var(index: &Index, word: &str, current_ns: &str) -> (r: Option<String>)
    ensures
        r.deep_view() == var_of(index@, word@, current_ns@),
{
    let word = unquote(word);
    let word = word.as_str();
    if word.is_empty() {
        return None;
    }
    match resolve_symbol(index, word, current_ns) {
        Some(ResolvedSymbol::Project(sym)) => return Some(sym.fqn),
        Some(ResolvedSymbol::Core(c)) => return Some(
            concat3("clojure.core", "/", c.name.as_str()),
        ),
        Some(ResolvedSymbol::LetgoNative(c)) => return Some(
            concat3("clojure.core", "/", c.name.as_str()),
        ),
        Some(ResolvedSymbol::SpecialForm(sf)) => return Some(
            concat3("clojure.core", "/", sf.name),
        ),
        None => {},
    }
    match split_once(word, '/') {
        Some((alias, name)) => {
            if !alias.as_str().is_empty() && !name.as_str().is_empty() {
                let ns = match index.ns_meta(current_ns) {
                    Some(meta) => match meta.aliases.get(alias.as_str()) {
                        Some(target) => target.clone(),
                        None => alias,
                    },
                    None => alias,
                };
                Some(concat3(ns.as_str(), "/", name.as_str()))
            } else if !name.as_str().is_empty() || str_eq(word, "/") {
                Some(concat3("clojure.core", "/", word))
            } else {
                None
            }
        },
        None => Some(concat3("clojure.core", "/", word)),
    }
}

/// The answer for a var.
pub fn lookup(docs: &ClojureDocs, fqn: &str) -> (r: DocsResult)
    ensures
        r.deep_view() == (ResultView { symbol: Some(fqn@), entry: dict_get(docs@, fqn@) }),
{
    let entry = match docs.get(fqn) {
        Some(e) => Some(DocsEntry::of(e)),
        None => None,
    };
    DocsResult { symbol: Some(fqn.to_owned()), entry }
}

/// A quote in front of a word does not change the var that it means.
pub proof fn law_quotes_do_not_count(v: IndexView, word: Seq<char>, ns: Seq<char>)
    requires
        unquoted(word) == word,
    ensures
        var_of(v, "#'"@ + word, ns) == var_of(v, word, ns),
        var_of(v, "'"@ + word, ns) == var_of(v, word, ns),
{
    reveal_strlit("#'");
    reveal_strlit("'");
    let a = "#'"@ + word;
    assert(a.take(2) =~= "#'"@);
    assert("#'"@.is_prefix_of(a));
    assert(a.skip(2) =~= word);
    let b = "'"@ + word;
    assert(b.take(1) =~= "'"@);
    assert("'"@.is_prefix_of(b));
    assert(b[0] == '\'');
    assert(!"#'"@.is_prefix_of(b));
    assert(b.skip(1) =~= word);
}

/// What the documentation is looked up by: what the index resolves the word to; else, for a
/// qualified word, the namespace that its alias stands for; else a name of the core library.
pub proof fn law_documentation_is_looked_up_by_meaning(
    v: IndexView,
    word: Seq<char>,
    ns: Seq<char>,
    meta: NsMetaView,
    alias: Seq<char>,
    name: Seq<char>,
)
    requires
        word.len() > 0,
        unquoted(word) == word,
    ensures
        resolved(v, word, ns) matches Some(ResolvedView::Project(s)) ==> var_of(v, word, ns) == Some(
            s.fqn,
        ),
        resolved(v, word, ns) matches Some(ResolvedView::Core(c)) ==> var_of(v, word, ns) == Some(
            "clojure.core/"@ + c.name,
        ),
        resolved(v, word, ns) is None && !word.contains('/') ==> var_of(v, word, ns) == Some(
            "clojure.core/"@ + word,
        ),
        resolved(v, word, ns) is None && word == alias + seq!['/'] + name && alias.len() > 0
            && name.len() > 0 && !alias.contains('/') && at(v.namespaces, ns) == Some(meta) ==> {
            &&& dict_get(meta.aliases, alias) matches Some(target) ==> var_of(v, word, ns) == Some(
                target + "/"@ + name,
            )
            &&& dict_get(meta.aliases, alias) is None ==> var_of(v, word, ns) == Some(
                alias + "/"@ + name,
            )
        },
{
    reveal_strlit("clojure.core/");
    reveal_strlit("clojure.core");
    reveal_strlit("/");
    assert("clojure.core/"@ =~= "clojure.core"@ + "/"@);
    if !word.contains('/') {
        law_split_at_the_first(word, '/', Seq::empty());
    }
    if word == alias + seq!['/'] + name && !alias.contains('/') {
        law_split_at_the_first(alias, '/', name);
    }
}

}
