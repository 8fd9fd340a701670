//! What a word stands for in a namespace.

use vstd::prelude::*;
use crate::collect::dict_get;
use crate::handlers::builtins::{
    form_named, native_list, SpecialForm, SpecialFormView,
};
use crate::handlers::letgo_builtins::{is_native, letgo_forms, special_form};
use crate::handlers::matching::has_prefix;
use crate::index::extractor::qualify;
use crate::index::model::{CoreSymbol, CoreSymbolView, DefKind, Symbol, SymbolView};
use crate::index::symbols::{at, core_named, Index, IndexView};
use crate::text::{
    chars_of, law_split_at_the_first, rsplit_once, split_first, split_last, split_once, string_of,
};

verus! {

/// What a word stands for.
#[derive(Clone, Debug)]
pub enum ResolvedSymbol {
    Project(Symbol),
    Core(CoreSymbol),
    /// A special form of let-go, which has nothing to navigate to.
    SpecialForm(SpecialForm),
    /// A native function of let-go's core, with the arguments and documentation of
    /// Clojure's function of that name. It has nothing to navigate to either.
    LetgoNative(CoreSymbol),
}

/// What a [`ResolvedSymbol`] says.
pub ghost enum ResolvedView {
    Project(SymbolView),
    Core(CoreSymbolView),
    SpecialForm(SpecialFormView),
    LetgoNative(CoreSymbolView),
}

impl DeepView for ResolvedSymbol {
    type V = ResolvedView;

    open spec fn deep_view(&self) -> ResolvedView {
        match self {
            ResolvedSymbol::Project(s) => ResolvedView::Project(s.deep_view()),
            ResolvedSymbol::Core(c) => ResolvedView::Core(c.deep_view()),
            ResolvedSymbol::SpecialForm(f) => ResolvedView::SpecialForm(f.deep_view()),
            ResolvedSymbol::LetgoNative(c) => ResolvedView::LetgoNative(c.deep_view()),
        }
    }
}

/// The type that a constructor function builds, and whether it builds it from a map:
/// `map->DB` and `->DB` build a `DB`.
pub open spec fn factory_of(name: Seq<char>) -> Option<(Seq<char>, bool)> {
    if "map->"@.is_prefix_of(name) {
        if name.len() > "map->"@.len() {
            Some((name.skip("map->"@.len() as int), true))
        } else {
            None
        }
    } else if "->"@.is_prefix_of(name) {
        if name.len() > "->"@.len() {
            Some((name.skip("->"@.len() as int), false))
        } else {
            None
        }
    } else {
        None
    }
}

fn stripped(name: &str, prefix: &str) -> (r: Option<String>)
    ensures
        match r {
            Some(rest) => prefix@.is_prefix_of(name@) && rest@ == name@.skip(prefix@.len() as int),
            None => !prefix@.is_prefix_of(name@),
        },
{
    if has_prefix(name, prefix) {
        let chars = chars_of(name);
        let from: usize = prefix.unicode_len();
        let n: usize = chars.len();
        let rest = string_of(&chars, from, n);
        assert(rest@ =~= name@.skip(from as int));
        Some(rest)
    } else {
        None
    }
}

/// The type that a constructor function builds, and whether it builds it from a map;
/// `None` for any other name.
pub fn factory_target(name: &str) -> (r: Option<(String, bool)>)
    ensures
        r.deep_view() == factory_of(name@),
{
    if let Some(t) = stripped(name, "map->") {
        if t.as_str().is_empty() {
            None
        } else {
            Some((t, true))
        }
    } else if let Some(t) = stripped(name, "->") {
        if t.as_str().is_empty() {
            None
        } else {
            Some((t, false))
        }
    } else {
        None
    }
}

/// The record or type that the constructor function `name` of the namespace builds.
/// A type has no constructor from a map.
pub open spec fn factory_in(v: IndexView, ns: Seq<char>, name: Seq<char>) -> Option<SymbolView> {
    match factory_of(name) {
        Some((target, from_map)) => match at(v.symbols, qualify(ns, target)) {
            Some(sym) => if sym.kind == DefKind::Defrecord || (sym.kind == DefKind::Deftype
                && !from_map) {
                Some(sym)
            } else {
                None
            },
            None => None,
        },
        None => None,
    }
}

/// The record or type that the constructor function `name` of the namespace builds.
pub fn resolve_factory(index: &Index, ns: &str, name: &str) -> (r: Option<Symbol>)
    ensures
        r.deep_view() == factory_in(index@, ns@, name@),
{
    match factory_target(name) {
        Some((target, from_map)) => match index.lookup_in_ns(ns, target.as_str()) {
            Some(sym) => match sym.kind {
                DefKind::Defrecord => Some(sym),
                DefKind::Deftype => if from_map {
                    None
                } else {
                    Some(sym)
                },
                _ => None,
            },
            None => None,
        },
        None => None,
    }
}

/// A symbol of the namespace, or what its constructor function builds.
pub open spec fn var_or_factory(v: IndexView, ns: Seq<char>, name: Seq<char>) -> Option<SymbolView> {
    match at(v.symbols, qualify(ns, name)) {
        Some(sym) => Some(sym),
        None => factory_in(v, ns, name),
    }
}

/// What the namespace refers the bare word to.
pub open spec fn referred(v: IndexView, word: Seq<char>, ns: Seq<char>) -> Option<SymbolView> {
    match at(v.namespaces, ns) {
        Some(meta) => match dict_get(meta.refers, word) {
            Some(fqn) => match at(v.symbols, fqn) {
                Some(sym) => Some(sym),
                None => match split_last(fqn, '/') {
                    Some((refer_ns, _)) => factory_in(v, refer_ns, word),
                    None => None,
                },
            },
            None => None,
        },
        None => None,
    }
}

/// What the bare word stands for among the built-ins. Where let-go's core is indexed,
/// Clojure's is not looked at.
pub open spec fn builtin(v: IndexView, word: Seq<char>) -> Option<ResolvedView> {
    if v.letgo_core {
        match at(v.symbols, qualify("core"@, word)) {
            Some(sym) => Some(ResolvedView::Project(sym)),
            None => match form_named(letgo_forms(), word, 0) {
                Some(form) => Some(ResolvedView::SpecialForm(form)),
                None => if native_list().contains(word) {
                    match core_named(v.core_symbols, word, 0) {
                        Some(c) => Some(ResolvedView::LetgoNative(c)),
                        None => None,
                    }
                } else {
                    None
                },
            },
        }
    } else {
        match core_named(v.core_symbols, word, 0) {
            Some(c) => Some(ResolvedView::Core(c)),
            None => None,
        }
    }
}

/// What the word stands for in the namespace: a qualified one under its alias; a bare
/// one among the names referred to, then the namespace's own, then the built-ins.
pub open spec fn resolved(v: IndexView, word: Seq<char>, ns: Seq<char>) -> Option<ResolvedView> {
    match split_first(word, '/') {
        Some((alias, name)) => {
            let full_ns = match at(v.namespaces, ns) {
                Some(meta) => meta.alias_target(alias),
                None => alias,
            };
            match var_or_factory(v, full_ns, name) {
                Some(sym) => Some(ResolvedView::Project(sym)),
                None => None,
            }
        },
        None => match referred(v, word, ns) {
            Some(sym) => Some(ResolvedView::Project(sym)),
            None => match var_or_factory(v, ns, word) {
                Some(sym) => Some(ResolvedView::Project(sym)),
                None => builtin(v, word),
            },
        },
    }
}

fn find_in(index: &Index, ns: &str, name: &str) -> (r: Option<Symbol>)
    ensures
        r.deep_view() == var_or_factory(index@, ns@, name@),
{
    match index.lookup_in_ns(ns, name) {
        Some(sym) => Some(sym),
        None => resolve_factory(index, ns, name),
    }
}

fn find_referred(index: &Index, word: &str, ns: &str) -> (r: Option<Symbol>)
    ensures
        r.deep_view() == referred(index@, word@, ns@),
{
    match index.ns_meta(ns) {
        Some(meta) => match meta.refers.get(word) {
            Some(fqn) => match index.lookup(fqn.as_str()) {
                Some(sym) => Some(sym),
                None => match rsplit_once(fqn.as_str(), '/') {
                    Some((refer_ns, _)) => resolve_factory(index, refer_ns.as_str(), word),
                    None => None,
                },
            },
            None => None,
        },
        None => None,
    }
}

fn find_builtin(index: &Index, word: &str) -> (r: Option<ResolvedSymbol>)
    ensures
        r.deep_view() == builtin(index@, word@),
{
    if index.letgo_core() {
        if let Some(sym) = index.lookup_in_ns("core", word) {
            return Some(ResolvedSymbol::Project(sym));
        }
        if let Some(form) = special_form(word) {
            return Some(ResolvedSymbol::SpecialForm(form));
        }
        if is_native(word) {
            if let Some(c) = index.core_symbol(word) {
                return Some(ResolvedSymbol::LetgoNative(c));
            }
        }
        return None;
    }
    match index.core_symbol(word) {
        Some(c) => Some(ResolvedSymbol::Core(c)),
        None => None,
    }
}

/// What the word stands for in the namespace `current_ns`.
pub fn resolve_symbol(index: &Index, word: &str, current_ns: &str) -> (r: Option<ResolvedSymbol>)
    ensures
        r.deep_view() == resolved(index@, word@, current_ns@),
{
    match split_once(word, '/') {
        Some((alias, name)) => {
            let meta = index.ns_meta(current_ns);
            let found = match &meta {
                Some(m) => find_in(index, m.resolve_alias(alias.as_str()), name.as_str()),
                None => find_in(index, alias.as_str(), name.as_str()),
            };
            match found {
                Some(sym) => Some(ResolvedSymbol::Project(sym)),
                None => None,
            }
        },
        None => {
            if let Some(sym) = find_referred(index, word, current_ns) {
                return Some(ResolvedSymbol::Project(sym));
            }
            if let Some(sym) = find_in(index, current_ns, word) {
                return Some(ResolvedSymbol::Project(sym));
            }
            find_builtin(index, word)
        },
    }
}

/// A namespace's own var shadows a built-in of that name, unless the name is referred
/// to elsewhere.
pub proof fn law_own_names_shadow_builtins(v: IndexView, word: Seq<char>, ns: Seq<char>)
    requires
        split_first(word, '/') is None,
        at(v.symbols, qualify(ns, word)) is Some,
        referred(v, word, ns) is None,
    ensures
        resolved(v, word, ns) == Some(ResolvedView::Project(v.symbols[qualify(ns, word)])),
{
}

/// Where let-go's core is indexed, no word stands for a name of Clojure's core.
pub proof fn law_letgo_never_falls_back_to_clojure(v: IndexView, word: Seq<char>, ns: Seq<char>)
    requires
        v.letgo_core,
    ensures
        !(resolved(v, word, ns) matches Some(ResolvedView::Core(_))),
{
}

/// A constructor function stands for a record or a type, never for a plain function.
pub proof fn law_factories_build_types(v: IndexView, ns: Seq<char>, name: Seq<char>)
    ensures
        factory_in(v, ns, name) matches Some(sym) ==> sym.kind == DefKind::Defrecord || sym.kind
            == DefKind::Deftype,
        "map->"@.is_prefix_of(name) ==> (factory_in(v, ns, name) matches Some(sym) ==> sym.kind
            == DefKind::Defrecord),
{
}

/// A qualified word means the name in the namespace that its alias is short for, or, where
/// it is no alias, that it names.
pub proof fn law_qualified_words_go_through_the_alias(
    v: IndexView,
    alias: Seq<char>,
    name: Seq<char>,
    ns: Seq<char>,
    full: Seq<char>,
)
    requires
        !alias.contains('/'),
        if v.namespaces.dom().contains(ns) && dict_get(v.namespaces[ns].aliases, alias) is Some {
            dict_get(v.namespaces[ns].aliases, alias) == Some(full)
        } else {
            full == alias
        },
    ensures
        v.symbols.dom().contains(full + seq!['/'] + name) ==> resolved(
            v,
            alias + seq!['/'] + name,
            ns,
        ) == Some(ResolvedView::Project(v.symbols[full + seq!['/'] + name])),
        resolved(v, alias + seq!['/'] + name, ns) matches Some(found) ==> (found matches
            ResolvedView::Project(sym) && {
            ||| v.symbols.dom().contains(full + seq!['/'] + name) && sym == v.symbols[full + seq![
                '/',
            ] + name]
            ||| builds(v, full, name, sym)
        }),
{
    law_split_at_the_first(alias, '/', name);
    reveal_strlit("/");
    assert("/"@ =~= seq!['/']);
    lemma_factory(v, full, name);
}

/// Whether a name is that of a function that makes values of the type: `->T` of a record or
/// type, `map->T` of a record.
pub open spec fn builds(v: IndexView, ns: Seq<char>, name: Seq<char>, sym: SymbolView) -> bool {
    exists|target: Seq<char>|
        #[trigger] v.symbols.dom().contains(ns + seq!['/'] + target) && v.symbols[ns + seq!['/']
            + target] == sym && target.len() > 0 && ((name == seq!['-', '>'] + target && (sym.kind
            == DefKind::Defrecord || sym.kind == DefKind::Deftype)) || (name == seq![
            'm',
            'a',
            'p',
            '-',
            '>',
        ] + target && sym.kind == DefKind::Defrecord))
}

proof fn lemma_factory(v: IndexView, ns: Seq<char>, name: Seq<char>)
    ensures
        factory_in(v, ns, name) matches Some(sym) ==> builds(v, ns, name, sym),
{
    reveal_strlit("/");
    reveal_strlit("map->");
    reveal_strlit("->");
    assert("/"@ =~= seq!['/']);
    assert("map->"@ =~= seq!['m', 'a', 'p', '-', '>']);
    assert("->"@ =~= seq!['-', '>']);
    if let Some(sym) = factory_in(v, ns, name) {
        let target = (factory_of(name)->0).0;
        assert(qualify(ns, target) =~= ns + seq!['/'] + target);
        if "map->"@.is_prefix_of(name) {
            assert(name =~= "map->"@ + target);
        } else {
            assert(name =~= "->"@ + target);
        }
        assert(v.symbols.dom().contains(ns + seq!['/'] + target));
    }
}

/// A record's or type's own constructor functions mean the type, where nothing else has
/// their name.
pub proof fn law_constructors_mean_their_type(v: IndexView, ns: Seq<char>, target: Seq<char>)
    requires
        v.symbols.dom().contains(ns + seq!['/'] + target),
        target.len() > 0,
        !target.contains('/'),
    ensures
        ({
            let sym = v.symbols[ns + seq!['/'] + target];
            let (plain, from_map) = (
                seq!['-', '>'] + target,
                seq!['m', 'a', 'p', '-', '>'] + target,
            );
            &&& (sym.kind == DefKind::Defrecord || sym.kind == DefKind::Deftype) && referred(
                v,
                plain,
                ns,
            ) is None && !v.symbols.dom().contains(ns + seq!['/'] + plain) ==> resolved(
                v,
                plain,
                ns,
            ) == Some(ResolvedView::Project(sym))
            &&& sym.kind == DefKind::Defrecord && referred(v, from_map, ns) is None
                && !v.symbols.dom().contains(ns + seq!['/'] + from_map) ==> resolved(
                v,
                from_map,
                ns,
            ) == Some(ResolvedView::Project(sym))
        }),
{
    reveal_strlit("/");
    reveal_strlit("map->");
    reveal_strlit("->");
    assert("/"@ =~= seq!['/']);
    assert("map->"@ =~= seq!['m', 'a', 'p', '-', '>']);
    assert("->"@ =~= seq!['-', '>']);
    let plain = seq!['-', '>'] + target;
    let from_map = seq!['m', 'a', 'p', '-', '>'] + target;
    assert(!plain.contains('/')) by {
        if plain.contains('/') {
            let i = plain.index_of('/');
            assert(target[i - 2] == '/');
        }
    }
    assert(!from_map.contains('/')) by {
        if from_map.contains('/') {
            let i = from_map.index_of('/');
            assert(target[i - 5] == '/');
        }
    }
    law_split_at_the_first(plain, '/', seq![]);
    law_split_at_the_first(from_map, '/', seq![]);
    assert(plain.skip(2) =~= target);
    assert(from_map.skip(5) =~= target);
    assert(from_map.take(5) =~= "map->"@);
    assert(plain.take(2) =~= "->"@);
    assert(plain[0] == '-');
    assert(!"map->"@.is_prefix_of(plain)) by {
        if "map->"@.is_prefix_of(plain) {
            assert(plain[0] == "map->"@[0]);
        }
    }
}

/// A name that the namespace refers to means what it refers to, before its own names.
pub proof fn law_referred_names_come_first(v: IndexView, word: Seq<char>, ns: Seq<char>, fqn: Seq<char>)
    requires
        !word.contains('/'),
        v.namespaces.dom().contains(ns),
        dict_get(v.namespaces[ns].refers, word) == Some(fqn),
        v.symbols.dom().contains(fqn),
    ensures
        resolved(v, word, ns) == Some(ResolvedView::Project(v.symbols[fqn])),
{
    law_split_at_the_first(word, '/', seq![]);
}

/// A bare name that is not referred means the one of its own namespace, and, outside let-go,
/// where the namespace has none and builds none, the first of the core library.
pub proof fn law_own_names_come_before_the_core_library(
    v: IndexView,
    word: Seq<char>,
    ns: Seq<char>,
    i: int,
)
    requires
        !word.contains('/'),
        v.namespaces.dom().contains(ns) ==> dict_get(v.namespaces[ns].refers, word) is None,
    ensures
        v.symbols.dom().contains(ns + seq!['/'] + word) ==> resolved(v, word, ns) == Some(
            ResolvedView::Project(v.symbols[ns + seq!['/'] + word]),
        ),
        !v.symbols.dom().contains(ns + seq!['/'] + word) && factory_in(v, ns, word) is None
            && !v.letgo_core && 0 <= i < v.core_symbols.len() && v.core_symbols[i].name == word
            && (forall|j: int| 0 <= j < i ==> (#[trigger] v.core_symbols[j]).name != word)
            ==> resolved(v, word, ns) == Some(ResolvedView::Core(v.core_symbols[i])),
        !v.symbols.dom().contains(ns + seq!['/'] + word) && factory_in(v, ns, word) is None
            && !v.letgo_core && (forall|j: int|
            0 <= j < v.core_symbols.len() ==> (#[trigger] v.core_symbols[j]).name != word)
            ==> resolved(v, word, ns) is None,
{
    law_split_at_the_first(word, '/', seq![]);
    reveal_strlit("/");
    assert("/"@ =~= seq!['/']);
    if 0 <= i < v.core_symbols.len() && v.core_symbols[i].name == word && (forall|j: int|
        0 <= j < i ==> (#[trigger] v.core_symbols[j]).name != word) {
        lemma_core_named(v.core_symbols, word, 0, i);
    }
    if forall|j: int|
        0 <= j < v.core_symbols.len() ==> (#[trigger] v.core_symbols[j]).name != word {
        lemma_not_core_named(v.core_symbols, word, 0);
    }
}

proof fn lemma_core_named(core: Seq<CoreSymbolView>, name: Seq<char>, i: nat, k: int)
    requires
        i <= k < core.len(),
        core[k].name == name,
        forall|j: int| 0 <= j < k ==> (#[trigger] core[j]).name != name,
    ensures
        core_named(core, name, i) == Some(core[k]),
    decreases core.len() - i,
{
    if i < k {
        assert(core[i as int].name != name);
        lemma_core_named(core, name, i + 1, k);
    }
}

proof fn lemma_not_core_named(core: Seq<CoreSymbolView>, name: Seq<char>, i: nat)
    requires
        forall|j: int| 0 <= j < core.len() ==> (#[trigger] core[j]).name != name,
    ensures
        core_named(core, name, i) is None,
    decreases core.len() - i,
{
    if i < core.len() {
        assert(core[i as int].name != name);
        lemma_not_core_named(core, name, i + 1);
    }
}

/// In let-go a name of its own core sources comes before a special form, and a special form
/// before a native function.
pub proof fn law_letgo_order(v: IndexView, word: Seq<char>, ns: Seq<char>)
    requires
        v.letgo_core,
        !word.contains('/'),
        v.namespaces.dom().contains(ns) ==> dict_get(v.namespaces[ns].refers, word) is None,
        !v.symbols.dom().contains(ns + seq!['/'] + word),
        factory_in(v, ns, word) is None,
    ensures
        v.symbols.dom().contains("core"@ + seq!['/'] + word) ==> resolved(v, word, ns) == Some(
            ResolvedView::Project(v.symbols["core"@ + seq!['/'] + word]),
        ),
        !v.symbols.dom().contains("core"@ + seq!['/'] + word) ==> (resolved(v, word, ns) matches
            Some(found) ==> match found {
            ResolvedView::SpecialForm(f) => f.name == word && letgo_forms().contains(f),
            ResolvedView::LetgoNative(c) => c.name == word && native_list().contains(word)
                && v.core_symbols.contains(c) && !(exists|i: int|
                0 <= i < letgo_forms().len() && (#[trigger] letgo_forms()[i]).name == word),
            _ => false,
        }),
{
    law_split_at_the_first(word, '/', seq![]);
    reveal_strlit("/");
    assert("/"@ =~= seq!['/']);
    lemma_form_named(letgo_forms(), word, 0);
    lemma_core_found(v.core_symbols, word, 0);
}

proof fn lemma_form_named(forms: Seq<SpecialFormView>, name: Seq<char>, i: nat)
    ensures
        match form_named(forms, name, i) {
            Some(f) => f.name == name && forms.contains(f),
            None => forall|j: int| i <= j < forms.len() ==> (#[trigger] forms[j]).name != name,
        },
    decreases forms.len() - i,
{
    if i < forms.len() {
        if forms[i as int].name == name {
            assert(forms.contains(forms[i as int]));
        } else {
            lemma_form_named(forms, name, i + 1);
        }
    }
}

proof fn lemma_core_found(core: Seq<CoreSymbolView>, name: Seq<char>, i: nat)
    ensures
        core_named(core, name, i) matches Some(c) ==> c.name == name && core.contains(c),
    decreases core.len() - i,
{
    if i < core.len() {
        if core[i as int].name == name {
            assert(core.contains(core[i as int]));
        } else {
            lemma_core_found(core, name, i + 1);
        }
    }
}

}
