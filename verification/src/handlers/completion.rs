//! What the editor is offered while a name is typed.

use vstd::prelude::*;
use crate::chars::{is_uppercase, uppercase};
use crate::collect::{
    contains_str, copy_opt, dict_get, join_by, joined_by, push_item, strs, Dict,
};
use crate::document::{char_col, word_in, DocumentStore, StoreView};
use crate::handlers::builtins::{
    forms_of, native_list, native_names, special_forms, SpecialFormView,
};
use crate::handlers::java::{class_in, resolve_class};
use crate::handlers::matching::{
    embeds, has_suffix, law_closer_names_match_better, law_matches_are_subsequences, lemma_ends_in,
    match_score, tier_of,
};
use crate::handlers::references::lemma_concat_contains;
use crate::index::extractor::qualify;
use crate::index::jdk::{
    class_named, names_with_prefix, simple_name, simple_name_of, ClassView, JavaMember, MemberView,
};
use crate::index::locals::{locals_in_scope_at, visible};
use crate::index::model::{
    CoreSymbol, CoreSymbolView, DefKind, NsMeta, NsMetaView, Symbol, SymbolView,
};
use crate::index::scope::{BindingView, LocalBinding};
use crate::index::symbols::{at, core_named, Index, IndexView};
use crate::lsp::Position;
use crate::sort::{
    law_sorting_keeps_everything, lemma_listing_order_is_lost, lemma_push_contains, ranked, sort_ranked, text_le, RankView, Ranked,
};
use crate::syntax::{syntax_of, FormView};
use crate::text::{
    concat3, digit_char, digit_of, index_from, law_split_at_the_first, lemma_index_from, rsplit_once, split_first, split_last, split_once, stands_at,
    str_eq,
};

verus! {

/// The kind of thing that a completion stands for.
#[derive(Clone, Copy, Debug, PartialEq, Eq, Structural)]
pub enum CompletionItemKind {
    Method,
    Function,
    Field,
    Variable,
    Class,
    Interface,
    Module,
    Value,
    Keyword,
}

/// A name that the editor is offered.
#[derive(Clone, Debug)]
pub struct CompletionItem {
    pub label: String,
    pub detail: Option<String>,
    /// Documentation in Markdown.
    pub documentation: Option<String>,
    pub kind: CompletionItemKind,
    /// What the editor sorts the offers by.
    pub sort_text: String,
}

/// What a [`CompletionItem`] says.
pub ghost struct ItemView {
    pub label: Seq<char>,
    pub detail: Option<Seq<char>>,
    pub documentation: Option<Seq<char>>,
    pub kind: CompletionItemKind,
    pub sort_text: Seq<char>,
}

impl DeepView for CompletionItem {
    type V = ItemView;

    open spec fn deep_view(&self) -> ItemView {
        ItemView {
            label: self.label@,
            detail: self.detail.deep_view(),
            documentation: self.documentation.deep_view(),
            kind: self.kind,
            sort_text: self.sort_text@,
        }
    }
}

/// Where a name comes from, the most local first.
#[derive(Clone, Copy, Debug, PartialEq, Eq, Structural)]
pub enum Pool {
    Local,
    CurrentNs,
    Referred,
    Core,
    Alias,
    Namespace,
    Java,
}

impl Pool {
    /// The rank of the pool among matches of one tier.
    pub open spec fn rank(self) -> u8 {
        match self {
            Pool::Local => 0,
            Pool::CurrentNs => 1,
            Pool::Referred => 2,
            Pool::Core => 3,
            Pool::Alias | Pool::Namespace => 4,
            Pool::Java => 5,
        }
    }

    /// The rank of the pool among matches of one tier.
    pub fn digit(self) -> (r: u8)
        ensures
            r == self.rank(),
    {
        match self {
            Pool::Local => 0,
            Pool::CurrentNs => 1,
            Pool::Referred => 2,
            Pool::Core => 3,
            Pool::Alias | Pool::Namespace => 4,
            Pool::Java => 5,
        }
    }
}

/// Whether a match of the tier is worth an offer. One character finds only what it
/// starts, and a namespace has to hold the query in one piece. The empty query is
/// exempt.
pub open spec fn allowed(tier: u8, prefix: Seq<char>, pool: Pool) -> bool {
    prefix.len() == 0 || !(tier >= 2 && prefix.len() < 2) && !(pool == Pool::Namespace && tier
        >= 3)
}

/// Whether a match of the tier is worth an offer.
pub fn tier_allowed(tier: u8, prefix: &str, pool: Pool) -> (r: bool)
    ensures
        r == allowed(tier, prefix@, pool),
{
    if prefix.is_empty() {
        return true;
    }
    if tier >= 2 && prefix.unicode_len() < 2 {
        return false;
    }
    if tier >= 3 {
        match pool {
            Pool::Namespace => false,
            _ => true,
        }
    } else {
        true
    }
}

/// The tier of a name that is worth an offer.
pub open spec fn offered_tier(name: Seq<char>, prefix: Seq<char>, pool: Pool) -> Option<u8> {
    match tier_of(name, prefix) {
        Some(tier) => if allowed(tier, prefix, pool) {
            Some(tier)
        } else {
            None
        },
        None => None,
    }
}

/// The tier of a name that is worth an offer; `None` for any other name.
pub fn matched(name: &str, prefix: &str, pool: Pool) -> (r: Option<u8>)
    ensures
        r == offered_tier(name@, prefix@, pool),
        r matches Some(tier) ==> tier <= 3,
{
    match match_score(name, prefix) {
        Some(tier) => if tier_allowed(tier, prefix, pool) {
            Some(tier)
        } else {
            None
        },
        None => None,
    }
}

/// What ranks an offer: the tier, then the pool, then the label.
pub open spec fn sort_key(tier: u8, pool: Pool, label: Seq<char>) -> Seq<char> {
    seq![digit_char(tier), '-', digit_char(pool.rank()), '-'] + label
}

/// An offer.
pub open spec fn offer(
    label: Seq<char>,
    detail: Seq<char>,
    documentation: Option<Seq<char>>,
    kind: CompletionItemKind,
    tier: u8,
    pool: Pool,
) -> ItemView {
    ItemView {
        label,
        detail: Some(detail),
        documentation,
        kind,
        sort_text: sort_key(tier, pool, label),
    }
}

fn push(
    items: &mut Vec<CompletionItem>,
    label: String,
    detail: String,
    documentation: Option<String>,
    kind: CompletionItemKind,
    tier: u8,
    pool: Pool,
)
    ensures
        final(items).deep_view() == old(items).deep_view().push(
            offer(label@, detail@, documentation.deep_view(), kind, tier, pool),
        ),
{
    let mut sort_text = String::new();
    sort_text.push(digit_of(tier));
    sort_text.push('-');
    sort_text.push(digit_of(pool.digit()));
    sort_text.push('-');
    sort_text.append(label.as_str());
    assert(sort_text@ =~= sort_key(tier, pool, label@));
    push_item(
        items,
        CompletionItem { label, detail: Some(detail), documentation, kind, sort_text },
    );
}

/// The kind of completion that a definition makes.
pub open spec fn item_kind(kind: DefKind) -> CompletionItemKind {
    match kind {
        DefKind::Defn | DefKind::DefnPrivate | DefKind::Defmacro | DefKind::Deftest =>
            CompletionItemKind::Function,
        DefKind::Def | DefKind::Defonce => CompletionItemKind::Variable,
        DefKind::Defprotocol => CompletionItemKind::Interface,
        DefKind::Defrecord | DefKind::Deftype => CompletionItemKind::Class,
        _ => CompletionItemKind::Value,
    }
}

/// The kind of completion that a definition makes.
pub fn defkind_to_completion_kind(kind: DefKind) -> (r: CompletionItemKind)
    ensures
        r == item_kind(kind),
{
    match kind {
        DefKind::Defn | DefKind::DefnPrivate | DefKind::Defmacro | DefKind::Deftest =>
            CompletionItemKind::Function,
        DefKind::Def | DefKind::Defonce => CompletionItemKind::Variable,
        DefKind::Defprotocol => CompletionItemKind::Interface,
        DefKind::Defrecord | DefKind::Deftype => CompletionItemKind::Class,
        _ => CompletionItemKind::Value,
    }
}

/// A namespace or other origin, and arguments in brackets.
pub open spec fn with_args(origin: Seq<char>, args: Seq<char>) -> Seq<char> {
    origin + " ("@ + args + ")"@
}

fn args_after(origin: &str, args: &str) -> (r: String)
    ensures
        r@ == with_args(origin@, args@),
{
    let mut out = concat3(origin, " (", args);
    out.append(")");
    out
}

/// The offer of a symbol, under an alias where there is one.
pub open spec fn symbol_offer(sym: SymbolView, alias: Option<Seq<char>>, tier: u8, pool: Pool) -> ItemView {
    offer(
        match alias {
            Some(a) => qualify(a, sym.name),
            None => sym.name,
        },
        with_args(sym.ns, joined_by(sym.params, " "@, sym.params.len())),
        sym.doc,
        item_kind(sym.kind),
        tier,
        pool,
    )
}

fn push_symbol(
    items: &mut Vec<CompletionItem>,
    sym: &Symbol,
    alias: Option<&str>,
    tier: u8,
    pool: Pool,
)
    ensures
        final(items).deep_view() == old(items).deep_view().push(
            symbol_offer(
                sym.deep_view(),
                match alias {
                    Some(a) => Some(a@),
                    None => None,
                },
                tier,
                pool,
            ),
        ),
{
    let label = match alias {
        Some(a) => concat3(a, "/", sym.name.as_str()),
        None => sym.name.clone(),
    };
    let params = join_by(&sym.params, " ");
    let detail = args_after(sym.ns.as_str(), params.as_str());
    push(
        items,
        label,
        detail,
        copy_opt(&sym.doc),
        defkind_to_completion_kind(sym.kind),
        tier,
        pool,
    );
}

/// The offers of the first `n` of the symbols `fqns`.
pub open spec fn symbol_offers(
    v: IndexView,
    fqns: Seq<Seq<char>>,
    alias: Option<Seq<char>>,
    prefix: Seq<char>,
    pool: Pool,
    n: nat,
) -> Seq<ItemView>
    decreases n,
{
    if n == 0 {
        seq![]
    } else {
        let before = symbol_offers(v, fqns, alias, prefix, pool, (n - 1) as nat);
        match at(v.symbols, fqns[n - 1]) {
            Some(sym) => match offered_tier(sym.name, prefix, pool) {
                Some(tier) => before.push(symbol_offer(sym, alias, tier, pool)),
                None => before,
            },
            None => before,
        }
    }
}

/// The offers of the symbols of a namespace.
pub open spec fn namespace_offers(
    v: IndexView,
    ns: Seq<char>,
    alias: Option<Seq<char>>,
    prefix: Seq<char>,
    pool: Pool,
) -> Seq<ItemView> {
    match at(v.ns_symbols, ns) {
        Some(fqns) => symbol_offers(v, fqns, alias, prefix, pool, fqns.len()),
        None => seq![],
    }
}

fn add_namespace(
    items: &mut Vec<CompletionItem>,
    index: &Index,
    ns: &str,
    alias: Option<&str>,
    prefix: &str,
    pool: Pool,
)
    ensures
        final(items).deep_view() == old(items).deep_view() + namespace_offers(
            index@,
            ns@,
            match alias {
                Some(a) => Some(a@),
                None => None,
            },
            prefix@,
            pool,
        ),
{
    let ghost before = items.deep_view();
    let ghost al = match alias {
        Some(a) => Some(a@),
        None => None,
    };
    let fqns = match index.fqns_in_ns(ns) {
        Some(fqns) => fqns,
        None => {
            assert(before + seq![] =~= before);
            return;
        },
    };
    let ghost names = fqns.deep_view();
    let mut i: usize = 0;
    assert(before + seq![] =~= before);
    while i < fqns.len()
        invariant
            i <= fqns@.len(),
            names == fqns.deep_view(),
            al == (match alias {
                Some(a) => Some(a@),
                None => None,
            }),
            items.deep_view() == before + symbol_offers(
                index@,
                names,
                al,
                prefix@,
                pool,
                i as nat,
            ),
        decreases fqns@.len() - i,
    {
        assert(names[i as int] == fqns@[i as int]@);
        let ghost done = symbol_offers(index@, names, al, prefix@, pool, i as nat);
        if let Some(sym) = index.lookup(fqns[i].as_str()) {
            if let Some(tier) = matched(sym.name.as_str(), prefix, pool) {
                push_symbol(items, &sym, alias, tier, pool);
                let ghost x = symbol_offer(sym.deep_view(), al, tier, pool);
                assert((before + done).push(x) =~= before + done.push(x));
            }
        }
        i += 1;
    }
}

/// The offer of a name that is referred to, whose namespace is not indexed.
pub open spec fn referred_offer(name: Seq<char>, fqn: Seq<char>, tier: u8) -> ItemView {
    let ns = match split_last(fqn, '/') {
        Some((ns, _)) => ns,
        None => fqn,
    };
    offer(
        name,
        ns + " (referred)"@,
        None,
        CompletionItemKind::Function,
        tier,
        Pool::Referred,
    )
}

/// The offers of the first `n` names that are referred to one by one. Such a name is
/// valid whether or not its namespace is indexed.
pub open spec fn refer_offers(
    v: IndexView,
    refers: Seq<(Seq<char>, Seq<char>)>,
    prefix: Seq<char>,
    n: nat,
) -> Seq<ItemView>
    decreases n,
{
    if n == 0 {
        seq![]
    } else {
        let before = refer_offers(v, refers, prefix, (n - 1) as nat);
        let (name, fqn) = refers[n - 1];
        match offered_tier(name, prefix, Pool::Referred) {
            Some(tier) => before.push(
                match at(v.symbols, fqn) {
                    Some(sym) => symbol_offer(sym, None, tier, Pool::Referred),
                    None => referred_offer(name, fqn, tier),
                },
            ),
            None => before,
        }
    }
}

fn add_refers(items: &mut Vec<CompletionItem>, index: &Index, refers: &Dict<String>, prefix: &str)
    ensures
        final(items).deep_view() == old(items).deep_view() + refer_offers(
            index@,
            refers.deep_view(),
            prefix@,
            refers.deep_view().len(),
        ),
{
    let ghost before = items.deep_view();
    let ghost all = refers.deep_view();
    let mut i: usize = 0;
    assert(before + seq![] =~= before);
    while i < refers.entries.len()
        invariant
            i <= refers.entries@.len(),
            all == refers.deep_view(),
            items.deep_view() == before + refer_offers(index@, all, prefix@, i as nat),
        decreases refers.entries@.len() - i,
    {
        let ghost done = refer_offers(index@, all, prefix@, i as nat);
        let name = refers.entries[i].0.as_str();
        let fqn = refers.entries[i].1.as_str();
        assert(all[i as int] == (name@, fqn@));
        if let Some(tier) = matched(name, prefix, Pool::Referred) {
            match index.lookup(fqn) {
                Some(sym) => {
                    push_symbol(items, &sym, None, tier, Pool::Referred);
                },
                None => {
                    let mut detail = match rsplit_once(fqn, '/') {
                        Some((ns, _)) => ns,
                        None => fqn.to_owned(),
                    };
                    detail.append(" (referred)");
                    push(
                        items,
                        name.to_owned(),
                        detail,
                        None,
                        CompletionItemKind::Function,
                        tier,
                        Pool::Referred,
                    );
                },
            }
            let ghost x = items.deep_view().last();
            assert((before + done).push(x) =~= before + done.push(x));
        }
        i += 1;
    }
}

/// Whether a symbol of a namespace referred in full can be named bare: it is not
/// private, and not already referred to by itself.
pub open spec fn referable(sym: SymbolView, refers: Seq<(Seq<char>, Seq<char>)>) -> bool {
    !sym.private && sym.kind != DefKind::DefnPrivate && dict_get(refers, sym.name) is None
}

/// The offers of the first `n` symbols of a namespace referred in full.
pub open spec fn public_offers(
    v: IndexView,
    refers: Seq<(Seq<char>, Seq<char>)>,
    fqns: Seq<Seq<char>>,
    prefix: Seq<char>,
    n: nat,
) -> Seq<ItemView>
    decreases n,
{
    if n == 0 {
        seq![]
    } else {
        let before = public_offers(v, refers, fqns, prefix, (n - 1) as nat);
        match at(v.symbols, fqns[n - 1]) {
            Some(sym) => match offered_tier(sym.name, prefix, Pool::Referred) {
                Some(tier) => if referable(sym, refers) {
                    before.push(symbol_offer(sym, None, tier, Pool::Referred))
                } else {
                    before
                },
                None => before,
            },
            None => before,
        }
    }
}

/// The offers of the first `n` namespaces referred in full.
pub open spec fn refer_all_offers(v: IndexView, meta: NsMetaView, prefix: Seq<char>, n: nat) -> Seq<
    ItemView,
>
    decreases n,
{
    if n == 0 {
        seq![]
    } else {
        let before = refer_all_offers(v, meta, prefix, (n - 1) as nat);
        match at(v.ns_symbols, meta.refer_all[n - 1]) {
            Some(fqns) => before + public_offers(v, meta.refers, fqns, prefix, fqns.len()),
            None => before,
        }
    }
}

fn add_public(
    items: &mut Vec<CompletionItem>,
    index: &Index,
    refers: &Dict<String>,
    fqns: &Vec<String>,
    prefix: &str,
)
    ensures
        final(items).deep_view() == old(items).deep_view() + public_offers(
            index@,
            refers.deep_view(),
            fqns.deep_view(),
            prefix@,
            fqns@.len(),
        ),
{
    let ghost before = items.deep_view();
    let ghost names = fqns.deep_view();
    let mut i: usize = 0;
    assert(before + seq![] =~= before);
    while i < fqns.len()
        invariant
            i <= fqns@.len(),
            names == fqns.deep_view(),
            items.deep_view() == before + public_offers(
                index@,
                refers.deep_view(),
                names,
                prefix@,
                i as nat,
            ),
        decreases fqns@.len() - i,
    {
        assert(names[i as int] == fqns@[i as int]@);
        let ghost done = public_offers(index@, refers.deep_view(), names, prefix@, i as nat);
        if let Some(sym) = index.lookup(fqns[i].as_str()) {
            let hidden = match sym.kind {
                DefKind::DefnPrivate => true,
                _ => sym.private,
            };
            if !hidden && !refers.contains_key(sym.name.as_str()) {
                if let Some(tier) = matched(sym.name.as_str(), prefix, Pool::Referred) {
                    push_symbol(items, &sym, None, tier, Pool::Referred);
                    let ghost x = symbol_offer(sym.deep_view(), None, tier, Pool::Referred);
                    assert((before + done).push(x) =~= before + done.push(x));
                }
            }
        }
        i += 1;
    }
}

fn add_refer_all(items: &mut Vec<CompletionItem>, index: &Index, meta: &NsMeta, prefix: &str)
    ensures
        final(items).deep_view() == old(items).deep_view() + refer_all_offers(
            index@,
            meta.deep_view(),
            prefix@,
            meta.deep_view().refer_all.len(),
        ),
{
    let ghost before = items.deep_view();
    let ghost m = meta.deep_view();
    let mut i: usize = 0;
    assert(before + seq![] =~= before);
    while i < meta.refer_all.len()
        invariant
            i <= meta.refer_all@.len(),
            m == meta.deep_view(),
            items.deep_view() == before + refer_all_offers(index@, m, prefix@, i as nat),
        decreases meta.refer_all@.len() - i,
    {
        let ghost done = refer_all_offers(index@, m, prefix@, i as nat);
        if let Some(fqns) = index.fqns_in_ns(meta.refer_all[i].as_str()) {
            add_public(items, index, &meta.refers, &fqns, prefix);
            let ghost more = public_offers(
                index@,
                m.refers,
                fqns.deep_view(),
                prefix@,
                fqns.deep_view().len(),
            );
            assert(before + done + more =~= before + (done + more));
        }
        i += 1;
    }
}

/// The offers of the first `n` special forms.
pub open spec fn form_offers(forms: Seq<SpecialFormView>, prefix: Seq<char>, n: nat) -> Seq<ItemView>
    decreases n,
{
    if n == 0 {
        seq![]
    } else {
        let before = form_offers(forms, prefix, (n - 1) as nat);
        let form = forms[n - 1];
        match offered_tier(form.name, prefix, Pool::Core) {
            Some(tier) => before.push(
                offer(
                    form.name,
                    "special form "@ + form.usage,
                    Some(form.doc),
                    CompletionItemKind::Keyword,
                    tier,
                    Pool::Core,
                ),
            ),
            None => before,
        }
    }
}

fn add_forms(items: &mut Vec<CompletionItem>, letgo: bool, prefix: &str)
    ensures
        final(items).deep_view() == old(items).deep_view() + form_offers(
            forms_of(letgo),
            prefix@,
            forms_of(letgo).len(),
        ),
{
    let forms = special_forms(letgo);
    let ghost all = forms_of(letgo);
    let ghost before = items.deep_view();
    let mut i: usize = 0;
    assert(before + seq![] =~= before);
    while i < forms.len()
        invariant
            i <= forms@.len(),
            all == forms.deep_view(),
            items.deep_view() == before + form_offers(all, prefix@, i as nat),
        decreases forms@.len() - i,
    {
        assert(all[i as int] == forms@[i as int].deep_view());
        let ghost done = form_offers(all, prefix@, i as nat);
        if let Some(tier) = matched(forms[i].name, prefix, Pool::Core) {
            push(
                items,
                forms[i].name.to_owned(),
                crate::text::concat2("special form ", forms[i].usage),
                Some(forms[i].doc.to_owned()),
                CompletionItemKind::Keyword,
                tier,
                Pool::Core,
            );
            let ghost x = items.deep_view().last();
            assert((before + done).push(x) =~= before + done.push(x));
        }
        i += 1;
    }
}

/// The documentation, where there is any.
pub open spec fn some_text(doc: Seq<char>) -> Option<Seq<char>> {
    if doc.len() == 0 {
        None
    } else {
        Some(doc)
    }
}

fn doc_of(doc: &String) -> (r: Option<String>)
    ensures
        r.deep_view() == some_text(doc@),
{
    if doc.as_str().is_empty() {
        None
    } else {
        Some(doc.clone())
    }
}

/// The offer of a native function of let-go, with what Clojure's core says of a
/// function of that name.
pub open spec fn native_offer(name: Seq<char>, entry: Option<CoreSymbolView>, tier: u8) -> ItemView {
    let label = "let-go core (native)"@;
    offer(
        name,
        match entry {
            Some(c) => if c.params.len() == 0 {
                label
            } else {
                with_args(label, c.params)
            },
            None => label,
        },
        match entry {
            Some(c) => some_text(c.doc),
            None => None,
        },
        CompletionItemKind::Function,
        tier,
        Pool::Core,
    )
}

/// The offers of the first `n` native functions of let-go. One that let-go's core has
/// a source for is offered from there.
pub open spec fn native_offers(v: IndexView, names: Seq<Seq<char>>, prefix: Seq<char>, n: nat) -> Seq<
    ItemView,
>
    decreases n,
{
    if n == 0 {
        seq![]
    } else {
        let before = native_offers(v, names, prefix, (n - 1) as nat);
        let name = names[n - 1];
        match offered_tier(name, prefix, Pool::Core) {
            Some(tier) => if at(v.symbols, qualify("core"@, name)) is None {
                before.push(native_offer(name, core_named(v.core_symbols, name, 0), tier))
            } else {
                before
            },
            None => before,
        }
    }
}

fn push_native(items: &mut Vec<CompletionItem>, name: &str, entry: Option<CoreSymbol>, tier: u8)
    ensures
        final(items).deep_view() == old(items).deep_view().push(
            native_offer(name@, entry.deep_view(), tier),
        ),
{
    let (detail, doc) = match &entry {
        Some(c) => (
            if c.params.as_str().is_empty() {
                "let-go core (native)".to_owned()
            } else {
                args_after("let-go core (native)", c.params.as_str())
            },
            doc_of(&c.doc),
        ),
        None => ("let-go core (native)".to_owned(), None),
    };
    push(
        items,
        name.to_owned(),
        detail,
        doc,
        CompletionItemKind::Function,
        tier,
        Pool::Core,
    );
}

fn add_natives(items: &mut Vec<CompletionItem>, index: &Index, names: &Vec<String>, prefix: &str)
    ensures
        final(items).deep_view() == old(items).deep_view() + native_offers(
            index@,
            strs(names@),
            prefix@,
            names@.len(),
        ),
{
    let ghost before = items.deep_view();
    let ghost all = strs(names@);
    let mut i: usize = 0;
    assert(before + seq![] =~= before);
    while i < names.len()
        invariant
            i <= names@.len(),
            all == strs(names@),
            items.deep_view() == before + native_offers(index@, all, prefix@, i as nat),
        decreases names@.len() - i,
    {
        let ghost done = native_offers(index@, all, prefix@, i as nat);
        let name = names[i].as_str();
        assert(all[i as int] == name@);
        if let Some(tier) = matched(name, prefix, Pool::Core) {
            if index.lookup_in_ns("core", name).is_none() {
                push_native(items, name, index.core_symbol(name), tier);
                let ghost x = items.deep_view().last();
                assert((before + done).push(x) =~= before + done.push(x));
            }
        }
        i += 1;
    }
}

/// The offers of the first `n` names of Clojure's core that the file does not exclude.
pub open spec fn core_offers(
    core_symbols: Seq<CoreSymbolView>,
    excluded: Seq<Seq<char>>,
    prefix: Seq<char>,
    n: nat,
) -> Seq<ItemView>
    decreases n,
{
    if n == 0 {
        seq![]
    } else {
        let before = core_offers(core_symbols, excluded, prefix, (n - 1) as nat);
        let c = core_symbols[n - 1];
        match offered_tier(c.name, prefix, Pool::Core) {
            Some(tier) => if excluded.contains(c.name) {
                before
            } else {
                before.push(
                    offer(
                        c.name,
                        with_args("clojure.core"@, c.params),
                        some_text(c.doc),
                        CompletionItemKind::Function,
                        tier,
                        Pool::Core,
                    ),
                )
            },
            None => before,
        }
    }
}

fn add_core(
    items: &mut Vec<CompletionItem>,
    core_symbols: &Vec<CoreSymbol>,
    excluded: &Vec<String>,
    prefix: &str,
)
    ensures
        final(items).deep_view() == old(items).deep_view() + core_offers(
            core_symbols.deep_view(),
            strs(excluded@),
            prefix@,
            core_symbols@.len(),
        ),
{
    let ghost before = items.deep_view();
    let ghost all = core_symbols.deep_view();
    let mut i: usize = 0;
    assert(before + seq![] =~= before);
    while i < core_symbols.len()
        invariant
            i <= core_symbols@.len(),
            all == core_symbols.deep_view(),
            items.deep_view() == before + core_offers(all, strs(excluded@), prefix@, i as nat),
        decreases core_symbols@.len() - i,
    {
        let ghost done = core_offers(all, strs(excluded@), prefix@, i as nat);
        let c = &core_symbols[i];
        assert(all[i as int] == c.deep_view());
        if !contains_str(excluded, c.name.as_str()) {
            if let Some(tier) = matched(c.name.as_str(), prefix, Pool::Core) {
                push(
                    items,
                    c.name.clone(),
                    args_after("clojure.core", c.params.as_str()),
                    doc_of(&c.doc),
                    CompletionItemKind::Function,
                    tier,
                    Pool::Core,
                );
                let ghost x = items.deep_view().last();
                assert((before + done).push(x) =~= before + done.push(x));
            }
        }
        i += 1;
    }
}

/// The core names that the namespace excludes.
pub open spec fn excluded_in(v: IndexView, ns: Seq<char>) -> Seq<Seq<char>> {
    match at(v.namespaces, ns) {
        Some(meta) => meta.core_excludes,
        None => seq![],
    }
}

/// The names that let-go implements natively, as far as the index knows them.
pub open spec fn natives_of(v: IndexView) -> Seq<Seq<char>> {
    match v.letgo_native {
        Some(names) => names,
        None => native_list(),
    }
}

/// The offers of the language's built-ins.
pub open spec fn builtin_offers(v: IndexView, prefix: Seq<char>, ns: Seq<char>) -> Seq<ItemView> {
    if v.letgo_core {
        form_offers(forms_of(true), prefix, forms_of(true).len()) + native_offers(
            v,
            natives_of(v),
            prefix,
            natives_of(v).len(),
        ) + namespace_offers(v, "core"@, None, prefix, Pool::Core)
    } else {
        core_offers(v.core_symbols, excluded_in(v, ns), prefix, v.core_symbols.len())
            + form_offers(forms_of(false), prefix, forms_of(false).len())
    }
}

fn add_builtins(items: &mut Vec<CompletionItem>, index: &Index, prefix: &str, ns: &str)
    ensures
        final(items).deep_view() == old(items).deep_view() + builtin_offers(index@, prefix@, ns@),
{
    let ghost before = items.deep_view();
    if index.letgo_core() {
        add_forms(items, true, prefix);
        match index.letgo_native_names() {
            Some(names) => add_natives(items, index, names, prefix),
            None => add_natives(items, index, &native_names(), prefix),
        }
        add_namespace(items, index, "core", None, prefix, Pool::Core);
    } else {
        match index.ns_meta(ns) {
            Some(meta) => add_core(items, index.core_list(), &meta.core_excludes, prefix),
            None => {
                let none: Vec<String> = Vec::new();
                assert(strs(none@) =~= seq![]);
                add_core(items, index.core_list(), &none, prefix)
            },
        }
        add_forms(items, false, prefix);
    }
    assert(items.deep_view() =~= before + builtin_offers(index@, prefix@, ns@));
}

/// The offers of the first `n` aliases.
pub open spec fn alias_offers(aliases: Seq<(Seq<char>, Seq<char>)>, prefix: Seq<char>, n: nat) -> Seq<
    ItemView,
>
    decreases n,
{
    if n == 0 {
        seq![]
    } else {
        let before = alias_offers(aliases, prefix, (n - 1) as nat);
        let (alias, full_ns) = aliases[n - 1];
        match offered_tier(alias, prefix, Pool::Alias) {
            Some(tier) => before.push(
                offer(
                    alias,
                    "alias for "@ + full_ns,
                    None,
                    CompletionItemKind::Module,
                    tier,
                    Pool::Alias,
                ),
            ),
            None => before,
        }
    }
}

fn add_aliases(items: &mut Vec<CompletionItem>, aliases: &Dict<String>, prefix: &str)
    ensures
        final(items).deep_view() == old(items).deep_view() + alias_offers(
            aliases.deep_view(),
            prefix@,
            aliases.deep_view().len(),
        ),
{
    let ghost before = items.deep_view();
    let ghost all = aliases.deep_view();
    let mut i: usize = 0;
    assert(before + seq![] =~= before);
    while i < aliases.entries.len()
        invariant
            i <= aliases.entries@.len(),
            all == aliases.deep_view(),
            items.deep_view() == before + alias_offers(all, prefix@, i as nat),
        decreases aliases.entries@.len() - i,
    {
        let ghost done = alias_offers(all, prefix@, i as nat);
        let alias = aliases.entries[i].0.as_str();
        assert(all[i as int] == (alias@, aliases.entries@[i as int].1@));
        if let Some(tier) = matched(alias, prefix, Pool::Alias) {
            push(
                items,
                alias.to_owned(),
                crate::text::concat2("alias for ", aliases.entries[i].1.as_str()),
                None,
                CompletionItemKind::Module,
                tier,
                Pool::Alias,
            );
            let ghost x = items.deep_view().last();
            assert((before + done).push(x) =~= before + done.push(x));
        }
        i += 1;
    }
}

/// Whether the namespace is internal to a library, and not worth requiring.
pub open spec fn internal_ns(ns: Seq<char>) -> bool {
    ".impl"@.is_suffix_of(ns) || ".internal"@.is_suffix_of(ns)
}

/// Whether the namespace is internal to a library.
pub fn is_internal_ns(ns: &str) -> (r: bool)
    ensures
        r == internal_ns(ns@),
{
    has_suffix(ns, ".impl") || has_suffix(ns, ".internal")
}

/// How many namespaces are offered at most.
pub const NAMESPACE_LIMIT: usize = 50;

/// How many Java classes are offered at most.
pub const JAVA_CLASS_LIMIT: usize = 50;

/// Those of the first `n` namespaces `names` that are worth an offer.
pub open spec fn ns_hits(names: Seq<Seq<char>>, prefix: Seq<char>, n: nat) -> Seq<RankView>
    decreases n,
{
    if n == 0 {
        seq![]
    } else {
        let before = ns_hits(names, prefix, (n - 1) as nat);
        let ns = names[n - 1];
        match offered_tier(ns, prefix, Pool::Namespace) {
            Some(tier) => if internal_ns(ns) {
                before
            } else {
                before.push(RankView { tier: tier as u64, size: 0, name: ns })
            },
            None => before,
        }
    }
}

/// The best matches, no more than are offered.
pub open spec fn best(hits: Seq<RankView>) -> Seq<RankView> {
    if hits.len() <= NAMESPACE_LIMIT {
        ranked(hits)
    } else {
        ranked(hits).take(NAMESPACE_LIMIT as int)
    }
}

/// The offers of the first `n` of the namespaces `hits`.
pub open spec fn hit_offers(hits: Seq<RankView>, n: nat) -> Seq<ItemView>
    decreases n,
{
    if n == 0 {
        seq![]
    } else {
        hit_offers(hits, (n - 1) as nat).push(
            offer(
                hits[n - 1].name,
                "namespace"@,
                None,
                CompletionItemKind::Module,
                hits[n - 1].tier as u8,
                Pool::Namespace,
            ),
        )
    }
}

/// The offers of namespaces.
pub open spec fn require_offers(names: Seq<Seq<char>>, prefix: Seq<char>) -> Seq<ItemView> {
    let hits = best(ns_hits(names, prefix, names.len()));
    hit_offers(hits, hits.len())
}

/// Whether `names` are the namespaces of the index, each once.
pub open spec fn lists_namespaces(v: IndexView, names: Seq<Seq<char>>) -> bool {
    &&& names.no_duplicates()
    &&& forall|k: Seq<char>| #[trigger] names.contains(k) <==> v.namespaces.dom().contains(k)
}

fn add_requires(items: &mut Vec<CompletionItem>, names: &Vec<String>, prefix: &str)
    ensures
        final(items).deep_view() == old(items).deep_view() + require_offers(strs(names@), prefix@),
{
    let ghost all = strs(names@);
    let mut hits: Vec<Ranked> = Vec::new();
    assert(hits.deep_view() =~= seq![]);
    let mut i: usize = 0;
    while i < names.len()
        invariant
            i <= names@.len(),
            all == strs(names@),
            hits.deep_view() == ns_hits(all, prefix@, i as nat),
        decreases names@.len() - i,
    {
        assert(all[i as int] == names@[i as int]@);
        if !is_internal_ns(names[i].as_str()) {
            if let Some(tier) = matched(names[i].as_str(), prefix, Pool::Namespace) {
                push_item(
                    &mut hits,
                    Ranked { tier: tier as u64, size: 0, name: names[i].clone() },
                );
            }
        }
        i += 1;
    }
    let ghost found = hits.deep_view();
    let mut hits = sort_ranked(hits);
    proof {
        crate::sort::law_sorting_keeps_everything(found);
    }
    assert(hits.deep_view().len() == found.len());
    hits.truncate(NAMESPACE_LIMIT);
    let ghost top = best(found);
    assert(hits.deep_view() =~= top);
    let ghost before = items.deep_view();
    let mut j: usize = 0;
    assert(before + seq![] =~= before);
    while j < hits.len()
        invariant
            j <= hits@.len(),
            top == hits.deep_view(),
            items.deep_view() == before + hit_offers(top, j as nat),
        decreases hits@.len() - j,
    {
        let ghost done = hit_offers(top, j as nat);
        assert(top[j as int] == hits@[j as int].deep_view());
        #[verifier::truncate]
        let tier: u8 = hits[j].tier as u8;
        push(
            items,
            hits[j].name.clone(),
            "namespace".to_owned(),
            None,
            CompletionItemKind::Module,
            tier,
            Pool::Namespace,
        );
        let ghost x = items.deep_view().last();
        assert((before + done).push(x) =~= before + done.push(x));
        j += 1;
    }
}

/// The offer of a Java class.
pub open spec fn class_offer(fqn: Seq<char>, prefix: Seq<char>) -> ItemView {
    let label = simple_name_of(fqn);
    offer(
        label,
        fqn,
        None,
        CompletionItemKind::Class,
        match tier_of(label, prefix) {
            Some(tier) => tier,
            None => 1,
        },
        Pool::Java,
    )
}

/// The offers of the first `n` of the classes `fqns`.
pub open spec fn class_offers(fqns: Seq<Seq<char>>, prefix: Seq<char>, n: nat) -> Seq<ItemView>
    decreases n,
{
    if n == 0 {
        seq![]
    } else {
        class_offers(fqns, prefix, (n - 1) as nat).push(class_offer(fqns[n - 1], prefix))
    }
}

/// The offers of Java classes, for a prefix that starts with an upper-case letter.
pub open spec fn java_offers(v: IndexView, prefix: Seq<char>) -> Seq<ItemView> {
    match v.jdk {
        Some(jdk) => if prefix.len() > 0 && uppercase(prefix[0]) {
            let fqns = names_with_prefix(jdk.classes, prefix, jdk.classes.len());
            class_offers(
                fqns,
                prefix,
                if fqns.len() <= JAVA_CLASS_LIMIT {
                    fqns.len()
                } else {
                    JAVA_CLASS_LIMIT as nat
                },
            )
        } else {
            seq![]
        },
        None => seq![],
    }
}

fn add_java(items: &mut Vec<CompletionItem>, index: &Index, prefix: &str)
    ensures
        final(items).deep_view() == old(items).deep_view() + java_offers(index@, prefix@),
{
    let ghost before = items.deep_view();
    assert(before + seq![] =~= before);
    if prefix.is_empty() || !is_uppercase(prefix.get_char(0)) {
        return;
    }
    let jdk = match index.jdk() {
        Some(jdk) => jdk,
        None => return,
    };
    let fqns = jdk.class_names_with_prefix(prefix);
    let ghost all = strs(fqns@);
    let end: usize = if fqns.len() <= JAVA_CLASS_LIMIT {
        fqns.len()
    } else {
        JAVA_CLASS_LIMIT
    };
    let mut i: usize = 0;
    while i < end
        invariant
            i <= end <= fqns@.len(),
            all == strs(fqns@),
            items.deep_view() == before + class_offers(all, prefix@, i as nat),
        decreases end - i,
    {
        let ghost done = class_offers(all, prefix@, i as nat);
        assert(all[i as int] == fqns@[i as int]@);
        let label = simple_name(fqns[i].as_str());
        let tier: u8 = match match_score(label.as_str(), prefix) {
            Some(tier) => tier,
            None => 1,
        };
        push(items, label, fqns[i].clone(), None, CompletionItemKind::Class, tier, Pool::Java);
        let ghost x = items.deep_view().last();
        assert((before + done).push(x) =~= before + done.push(x));
        i += 1;
    }
}

/// The offer of a static member of a Java class.
pub open spec fn member_offer(
    alias: Seq<char>,
    name: Seq<char>,
    class_fqn: Seq<char>,
    is_method: bool,
    tier: u8,
) -> ItemView {
    offer(
        qualify(alias, name),
        with_args(class_fqn, if is_method {
            "static method"@
        } else {
            "static field"@
        }),
        None,
        if is_method {
            CompletionItemKind::Method
        } else {
            CompletionItemKind::Field
        },
        tier,
        Pool::Java,
    )
}

/// The offers of the first `n` of the members that are static.
pub open spec fn member_offers(
    members: Seq<MemberView>,
    alias: Seq<char>,
    class_fqn: Seq<char>,
    is_method: bool,
    prefix: Seq<char>,
    n: nat,
) -> Seq<ItemView>
    decreases n,
{
    if n == 0 {
        seq![]
    } else {
        let before = member_offers(members, alias, class_fqn, is_method, prefix, (n - 1) as nat);
        let m = members[n - 1];
        match offered_tier(m.name, prefix, Pool::Java) {
            Some(tier) => if m.is_static {
                before.push(member_offer(alias, m.name, class_fqn, is_method, tier))
            } else {
                before
            },
            None => before,
        }
    }
}

fn add_members(
    items: &mut Vec<CompletionItem>,
    members: &Vec<JavaMember>,
    alias: &str,
    class_fqn: &str,
    is_method: bool,
    prefix: &str,
)
    ensures
        final(items).deep_view() == old(items).deep_view() + member_offers(
            members.deep_view(),
            alias@,
            class_fqn@,
            is_method,
            prefix@,
            members@.len(),
        ),
{
    let ghost before = items.deep_view();
    let ghost all = members.deep_view();
    let mut i: usize = 0;
    assert(before + seq![] =~= before);
    while i < members.len()
        invariant
            i <= members@.len(),
            all == members.deep_view(),
            items.deep_view() == before + member_offers(
                all,
                alias@,
                class_fqn@,
                is_method,
                prefix@,
                i as nat,
            ),
        decreases members@.len() - i,
    {
        let ghost done = member_offers(all, alias@, class_fqn@, is_method, prefix@, i as nat);
        let m = &members[i];
        assert(all[i as int] == m.deep_view());
        if m.is_static {
            if let Some(tier) = matched(m.name.as_str(), prefix, Pool::Java) {
                push(
                    items,
                    concat3(alias, "/", m.name.as_str()),
                    args_after(
                        class_fqn,
                        if is_method {
                            "static method"
                        } else {
                            "static field"
                        },
                    ),
                    None,
                    if is_method {
                        CompletionItemKind::Method
                    } else {
                        CompletionItemKind::Field
                    },
                    tier,
                    Pool::Java,
                );
                let ghost x = items.deep_view().last();
                assert((before + done).push(x) =~= before + done.push(x));
            }
        }
        i += 1;
    }
}

/// The offers of a Java class's static members.
pub open spec fn static_offers(v: IndexView, alias: Seq<char>, prefix: Seq<char>, ns: Seq<char>) -> Seq<
    ItemView,
> {
    match class_in(v, alias, ns) {
        Some(class_fqn) => match class_named(v.jdk->0.classes, class_fqn, 0) {
            Some(info) => member_offers(
                info.methods,
                alias,
                class_fqn,
                true,
                prefix,
                info.methods.len(),
            ) + member_offers(info.fields, alias, class_fqn, false, prefix, info.fields.len()),
            None => seq![],
        },
        None => seq![],
    }
}

/// The offers for a qualified prefix: the vars of the namespace that the alias stands
/// for, or else the static members of the class that it names.
pub open spec fn qualified_offers(v: IndexView, alias: Seq<char>, prefix: Seq<char>, ns: Seq<char>) -> Seq<
    ItemView,
> {
    let full_ns = match at(v.namespaces, ns) {
        Some(meta) => dict_get(meta.aliases, alias),
        None => None,
    };
    match full_ns {
        Some(full_ns) => namespace_offers(v, full_ns, Some(alias), prefix, Pool::CurrentNs),
        None => static_offers(v, alias, prefix, ns),
    }
}

/// The offers of what the namespace refers to.
pub open spec fn referred_offers(v: IndexView, prefix: Seq<char>, ns: Seq<char>) -> Seq<ItemView> {
    match at(v.namespaces, ns) {
        Some(meta) => refer_offers(v, meta.refers, prefix, meta.refers.len()) + refer_all_offers(
            v,
            meta,
            prefix,
            meta.refer_all.len(),
        ),
        None => seq![],
    }
}

/// The offers of the namespace's aliases.
pub open spec fn aliases_in(v: IndexView, prefix: Seq<char>, ns: Seq<char>) -> Seq<ItemView> {
    match at(v.namespaces, ns) {
        Some(meta) => alias_offers(meta.aliases, prefix, meta.aliases.len()),
        None => seq![],
    }
}

/// The offers for a bare prefix: the namespace's own vars, what it refers to, the
/// built-ins, and, unless the prefix is empty, aliases, namespaces and Java classes.
pub open spec fn bare_offers(
    v: IndexView,
    prefix: Seq<char>,
    ns: Seq<char>,
    names: Seq<Seq<char>>,
) -> Seq<ItemView> {
    let near = namespace_offers(v, ns, None, prefix, Pool::CurrentNs) + referred_offers(
        v,
        prefix,
        ns,
    ) + builtin_offers(v, prefix, ns);
    if prefix.len() == 0 {
        near
    } else {
        near + aliases_in(v, prefix, ns) + require_offers(names, prefix) + java_offers(v, prefix)
    }
}

/// The offers for a prefix; `names` are the index's namespaces.
pub open spec fn offers(v: IndexView, prefix: Seq<char>, ns: Seq<char>, names: Seq<Seq<char>>) -> Seq<
    ItemView,
> {
    match split_first(prefix, '/') {
        Some((alias, rest)) => qualified_offers(v, alias, rest, ns),
        None => bare_offers(v, prefix, ns, names),
    }
}

fn add_static(items: &mut Vec<CompletionItem>, index: &Index, alias: &str, prefix: &str, ns: &str)
    ensures
        final(items).deep_view() == old(items).deep_view() + static_offers(
            index@,
            alias@,
            prefix@,
            ns@,
        ),
{
    let ghost before = items.deep_view();
    assert(before + seq![] =~= before);
    if let Some(class_fqn) = resolve_class(index, alias, ns) {
        if let Some(jdk) = index.jdk() {
            if let Some(info) = jdk.class(class_fqn.as_str()) {
                add_members(items, &info.methods, alias, class_fqn.as_str(), true, prefix);
                add_members(items, &info.fields, alias, class_fqn.as_str(), false, prefix);
                assert(items.deep_view() =~= before + static_offers(
                    index@,
                    alias@,
                    prefix@,
                    ns@,
                ));
            }
        }
    }
}

/// The offers for a prefix in the namespace `current_ns`.
pub fn complete_symbols(index: &Index, prefix: &str, current_ns: &str) -> (r: Vec<CompletionItem>)
    ensures
        exists|names: Seq<Seq<char>>|
            lists_namespaces(index@, names) && r.deep_view() == #[trigger] offers(
                index@,
                prefix@,
                current_ns@,
                names,
            ),
{
    let names = index.namespace_names();
    let ghost all = strs(names@);
    assert(lists_namespaces(index@, all));
    let mut items: Vec<CompletionItem> = Vec::new();
    assert(items.deep_view() =~= seq![]);
    match split_once(prefix, '/') {
        Some((alias, rest)) => {
            let meta = index.ns_meta(current_ns);
            let full_ns = match &meta {
                Some(m) => m.aliases.get(alias.as_str()),
                None => None,
            };
            match full_ns {
                Some(full_ns) => {
                    add_namespace(
                        &mut items,
                        index,
                        full_ns.as_str(),
                        Some(alias.as_str()),
                        rest.as_str(),
                        Pool::CurrentNs,
                    );
                },
                None => {
                    add_static(&mut items, index, alias.as_str(), rest.as_str(), current_ns);
                },
            }
            assert(items.deep_view() =~= qualified_offers(index@, alias@, rest@, current_ns@));
        },
        None => {
            add_namespace(&mut items, index, current_ns, None, prefix, Pool::CurrentNs);
            let meta = index.ns_meta(current_ns);
            if let Some(m) = &meta {
                add_refers(&mut items, index, &m.refers, prefix);
                add_refer_all(&mut items, index, m, prefix);
            }
            add_builtins(&mut items, index, prefix, current_ns);
            if !prefix.is_empty() {
                if let Some(m) = &meta {
                    add_aliases(&mut items, &m.aliases, prefix);
                }
                add_requires(&mut items, &names, prefix);
                add_java(&mut items, index, prefix);
            }
            assert(items.deep_view() =~= bare_offers(index@, prefix@, current_ns@, all));
        },
    }
    assert(items.deep_view() == offers(index@, prefix@, current_ns@, all));
    items
}

/// Whether one of the offers has the label.
pub open spec fn has_label(items: Seq<ItemView>, label: Seq<char>) -> bool {
    exists|i: int| 0 <= i < items.len() && (#[trigger] items[i]).label == label
}

/// The offers of the last `n` of the locals, innermost first. An inner local shadows
/// an outer one of its name.
pub open spec fn local_offers(locals: Seq<BindingView>, prefix: Seq<char>, n: nat) -> Seq<ItemView>
    decreases n,
{
    if n == 0 || n > locals.len() {
        seq![]
    } else {
        let before = local_offers(locals, prefix, (n - 1) as nat);
        let name = locals[locals.len() - n].name;
        match offered_tier(name, prefix, Pool::Local) {
            Some(tier) => if has_label(before, name) {
                before
            } else {
                before.push(
                    offer(
                        name,
                        "local"@,
                        None,
                        CompletionItemKind::Variable,
                        tier,
                        Pool::Local,
                    ),
                )
            },
            None => before,
        }
    }
}

fn is_offered(items: &Vec<CompletionItem>, label: &str) -> (r: bool)
    ensures
        r == has_label(items.deep_view(), label@),
{
    let ghost all = items.deep_view();
    let mut i: usize = 0;
    while i < items.len()
        invariant
            i <= items@.len(),
            all == items.deep_view(),
            forall|j: int| 0 <= j < i ==> (#[trigger] all[j]).label != label@,
        decreases items@.len() - i,
    {
        assert(all[i as int] == items@[i as int].deep_view());
        if str_eq(items[i].label.as_str(), label) {
            return true;
        }
        i += 1;
    }
    false
}

/// The offers of the locals, innermost first.
pub fn complete_locals(locals: &Vec<LocalBinding>, prefix: &str) -> (r: Vec<CompletionItem>)
    ensures
        r.deep_view() == local_offers(locals.deep_view(), prefix@, locals@.len()),
{
    let ghost all = locals.deep_view();
    let mut out: Vec<CompletionItem> = Vec::new();
    assert(out.deep_view() =~= seq![]);
    let len: usize = locals.len();
    let mut n: usize = 0;
    while n < len
        invariant
            n <= len == locals@.len(),
            all == locals.deep_view(),
            out.deep_view() == local_offers(all, prefix@, n as nat),
        decreases len - n,
    {
        let name = locals[len - 1 - n].name.as_str();
        assert(all[len - 1 - n] == locals@[len - 1 - n].deep_view());
        if let Some(tier) = matched(name, prefix, Pool::Local) {
            if !is_offered(&out, name) {
                push(
                    &mut out,
                    name.to_owned(),
                    "local".to_owned(),
                    None,
                    CompletionItemKind::Variable,
                    tier,
                    Pool::Local,
                );
            }
        }
        n += 1;
    }
    out
}

/// The locals visible at a position of an open document.
pub open spec fn locals_at(store: StoreView, uri: Seq<char>, pos: Position) -> Seq<BindingView> {
    match store.text(uri) {
        Some(text) => match syntax_of(text) {
            Some(root) => visible(root, pos),
            None => seq![],
        },
        None => seq![],
    }
}

/// The word at a position of an open document; empty where there is none.
pub open spec fn prefix_at(store: StoreView, uri: Seq<char>, pos: Position) -> Seq<char> {
    match store.line(uri, pos.line) {
        Some(cs) => match word_in(cs, char_col(cs, pos.character as nat)) {
            Some(word) => word,
            None => seq![],
        },
        None => seq![],
    }
}

/// The namespace of a file; empty where the index has none.
pub open spec fn ns_of(v: IndexView, path: Seq<char>) -> Seq<char> {
    match at(v.file_to_ns, path) {
        Some(ns) => ns,
        None => seq![],
    }
}

/// The offers at a position of an open document, the locals first. A qualified prefix
/// names no local.
pub open spec fn offers_at(
    v: IndexView,
    store: StoreView,
    uri: Seq<char>,
    path: Seq<char>,
    pos: Position,
    names: Seq<Seq<char>>,
) -> Seq<ItemView> {
    let prefix = prefix_at(store, uri, pos);
    let found = offers(v, prefix, ns_of(v, path), names);
    if index_from(prefix, '/', 0) is Some {
        found
    } else {
        let locals = locals_at(store, uri, pos);
        local_offers(locals, prefix, locals.len()) + found
    }
}

/// What the editor is offered. A list that is incomplete is asked for again when the
/// prefix grows.
#[derive(Clone, Debug)]
pub struct CompletionList {
    pub is_incomplete: bool,
    pub items: Vec<CompletionItem>,
}

/// The offers at a position of the document `uri`, which is the file `path`; `None`
/// where there are none. The list is incomplete, as a longer prefix can match names
/// that a short one is too loose for.
pub fn handle(
    index: &Index,
    documents: &DocumentStore,
    uri: &str,
    path: &str,
    pos: Position,
) -> (r: Option<CompletionList>)
    ensures
        exists|names: Seq<Seq<char>>|
            lists_namespaces(index@, names) && {
                let found = #[trigger] offers_at(index@, documents@, uri@, path@, pos, names);
                match r {
                    Some(list) => list.is_incomplete && list.items.deep_view() == found
                        && found.len() > 0,
                    None => found.len() == 0,
                }
            },
{
    let prefix = match documents.word_at(uri, pos) {
        Some(word) => word,
        None => String::new(),
    };
    assert(prefix@ =~= prefix_at(documents@, uri@, pos));
    let current_ns = match index.file_ns(path) {
        Some(ns) => ns,
        None => String::new(),
    };
    assert(current_ns@ =~= ns_of(index@, path@));
    let found = complete_symbols(index, prefix.as_str(), current_ns.as_str());
    let ghost names = choose|names: Seq<Seq<char>>|
        lists_namespaces(index@, names) && found.deep_view() == #[trigger] offers(
            index@,
            prefix@,
            current_ns@,
            names,
        );
    let items = if split_once(prefix.as_str(), '/').is_some() {
        found
    } else {
        let locals = match documents.text(uri) {
            Some(text) => locals_in_scope_at(text.as_str(), pos),
            None => Vec::new(),
        };
        assert(locals.deep_view() =~= locals_at(documents@, uri@, pos));
        let mut items = complete_locals(&locals, prefix.as_str());
        let mut found = found;
        let ghost (a, b) = (items.deep_view(), found.deep_view());
        items.append(&mut found);
        assert(items.deep_view() =~= a + b);
        items
    };
    assert(items.deep_view() == offers_at(index@, documents@, uri@, path@, pos, names));
    if items.len() == 0 {
        None
    } else {
        Some(CompletionList { is_incomplete: true, items })
    }
}

proof fn lemma_hits_once(names: Seq<Seq<char>>, prefix: Seq<char>, n: nat)
    requires
        n <= names.len(),
        names.no_duplicates(),
    ensures
        ns_hits(names, prefix, n).no_duplicates(),
        forall|h: RankView| #[trigger]
            ns_hits(names, prefix, n).contains(h) <==> is_hit(h, prefix) && names.take(
                n as int,
            ).contains(h.name),
    decreases n,
{
    if n > 0 {
        let before = ns_hits(names, prefix, (n - 1) as nat);
        let after = ns_hits(names, prefix, n);
        let ns = names[n - 1];
        let shorter = names.take(n - 1);
        let longer = names.take(n as int);
        lemma_hits_once(names, prefix, (n - 1) as nat);
        assert(longer =~= shorter.push(ns));
        assert(!shorter.contains(ns)) by {
            if shorter.contains(ns) {
                let i = choose|i: int| 0 <= i < shorter.len() && shorter[i] == ns;
                assert(names[i] == names[n - 1]);
            }
        }
        assert forall|h: RankView| #[trigger] after.contains(h) <==> is_hit(h, prefix)
            && longer.contains(h.name) by {
            lemma_push_contains(shorter, ns, h.name);
            if after.len() > before.len() {
                lemma_push_contains(before, after.last(), h);
            }
            assert(before.contains(h) <==> is_hit(h, prefix) && shorter.contains(h.name));
        }
        if after.len() > before.len() {
            assert(!before.contains(after.last()));
        }
    } else {
        assert(names.take(0).len() == 0);
    }
}

/// Whether a namespace under this rank is worth an offer.
pub open spec fn is_hit(h: RankView, prefix: Seq<char>) -> bool {
    &&& !internal_ns(h.name)
    &&& h.size == 0
    &&& offered_tier(h.name, prefix, Pool::Namespace) matches Some(tier) && h.tier == tier
}

/// In whatever order the index lists its namespaces, the offers are the same.
pub proof fn law_offers_do_not_depend_on_listing_order(
    v: IndexView,
    prefix: Seq<char>,
    ns: Seq<char>,
    a: Seq<Seq<char>>,
    b: Seq<Seq<char>>,
)
    requires
        lists_namespaces(v, a),
        lists_namespaces(v, b),
    ensures
        offers(v, prefix, ns, a) == offers(v, prefix, ns, b),
{
    let (x, y) = (ns_hits(a, prefix, a.len()), ns_hits(b, prefix, b.len()));
    lemma_hits_once(a, prefix, a.len());
    lemma_hits_once(b, prefix, b.len());
    assert(a.take(a.len() as int) =~= a);
    assert(b.take(b.len() as int) =~= b);
    assert forall|h: RankView| #[trigger] x.contains(h) <==> y.contains(h) by {
        assert(a.contains(h.name) <==> b.contains(h.name));
    }
    lemma_listing_order_is_lost(x, y);
}

/// A nearer tier sorts first wherever the name comes from, and within a tier the more
/// local pool does.
pub proof fn law_tier_sorts_before_pool(
    t1: u8,
    p1: Pool,
    l1: Seq<char>,
    t2: u8,
    p2: Pool,
    l2: Seq<char>,
)
    requires
        t2 <= 3,
        t1 < t2 || (t1 == t2 && p1.rank() < p2.rank()),
    ensures
        text_le(sort_key(t1, p1, l1), sort_key(t2, p2, l2)),
        !text_le(sort_key(t2, p2, l2), sort_key(t1, p1, l1)),
{
    let (a, b) = (sort_key(t1, p1, l1), sort_key(t2, p2, l2));
    if t1 == t2 {
        let (a1, b1) = (a.drop_first(), b.drop_first());
        assert(a[0] == b[0]);
        let (a2, b2) = (a1.drop_first(), b1.drop_first());
        assert(a1[0] == '-' && b1[0] == '-');
        assert(a2[0] == digit_char(p1.rank()) && b2[0] == digit_char(p2.rank()));
        assert(text_le(a2, b2) && !text_le(b2, a2));
        assert(text_le(a1, b1) && !text_le(b1, a1));
    } else {
        assert(a[0] == digit_char(t1) && b[0] == digit_char(t2));
    }
}

/// What names are matched against: what follows the slash of a qualified prefix, and else
/// the prefix.
pub open spec fn query_of(prefix: Seq<char>) -> Seq<char> {
    match split_first(prefix, '/') {
        Some((_, rest)) => rest,
        None => prefix,
    }
}

/// Whether an offer is sorted by the tier `t` of the name that matched and the pool `p`,
/// which is none of locals. Its label is that name, alone or qualified; of a name that is
/// referred to, it is the name of the definition.
pub open spec fn keyed_as(
    item: ItemView,
    query: Seq<char>,
    name: Seq<char>,
    t: u8,
    p: Pool,
) -> bool {
    &&& tier_of(name, query) == Some(t)
    &&& t <= 3
    &&& 1 <= p.rank() <= 5
    &&& item.sort_text == sort_key(t, p, item.label)
    &&& item.label == name || ("/"@ + name).is_suffix_of(item.label) || p == Pool::Referred
}

/// Whether an offer is sorted by its tier and its pool.
pub open spec fn has_key(item: ItemView, query: Seq<char>) -> bool {
    exists|name: Seq<char>, t: u8, p: Pool| #[trigger] keyed_as(item, query, name, t, p)
}

/// Whether all the offers are sorted by their tiers and pools.
pub open spec fn have_keys(items: Seq<ItemView>, query: Seq<char>) -> bool {
    forall|i: int| 0 <= i < items.len() ==> has_key(#[trigger] items[i], query)
}

/// Every offer carries a key: the tier of its match, its pool, and its label.
pub proof fn law_every_offer_has_a_key(
    v: IndexView,
    prefix: Seq<char>,
    ns: Seq<char>,
    names: Seq<Seq<char>>,
)
    ensures
        have_keys(offers(v, prefix, ns, names), query_of(prefix)),
{
    match split_first(prefix, '/') {
        Some((alias, rest)) => {
            lemma_qualified_keys(v, alias, rest, ns);
        },
        None => {
            lemma_namespace_keys(v, ns, None, prefix, Pool::CurrentNs);
            lemma_referred_keys(v, prefix, ns);
            lemma_builtin_keys(v, prefix, ns);
            if prefix.len() > 0 {
                if let Some(meta) = at(v.namespaces, ns) {
                    lemma_alias_keys(meta.aliases, prefix, meta.aliases.len());
                }
                lemma_require_keys(names, prefix);
                lemma_java_keys(v, prefix);
            }
        },
    }
}

/// An offer of a nearer tier sorts before every offer of a farther one, and within a tier
/// the offer of a more local pool does.
pub proof fn law_offers_sort_by_tier_and_pool(
    a: ItemView,
    b: ItemView,
    query: Seq<char>,
    n1: Seq<char>,
    t1: u8,
    p1: Pool,
    n2: Seq<char>,
    t2: u8,
    p2: Pool,
)
    requires
        keyed_as(a, query, n1, t1, p1),
        keyed_as(b, query, n2, t2, p2),
        t1 < t2 || (t1 == t2 && p1.rank() < p2.rank()),
    ensures
        text_le(a.sort_text, b.sort_text),
        !text_le(b.sort_text, a.sort_text),
{
    law_tier_sorts_before_pool(t1, p1, a.label, t2, p2, b.label);
}

proof fn lemma_qualified(alias: Seq<char>, name: Seq<char>)
    ensures
        ("/"@ + name).is_suffix_of(qualify(alias, name)),
{
    let whole = qualify(alias, name);
    assert(whole.skip(whole.len() - ("/"@ + name).len()) =~= "/"@ + name);
}

proof fn lemma_symbol_keys(
    v: IndexView,
    fqns: Seq<Seq<char>>,
    alias: Option<Seq<char>>,
    prefix: Seq<char>,
    pool: Pool,
    n: nat,
)
    requires
        pool != Pool::Local,
    ensures
        have_keys(symbol_offers(v, fqns, alias, prefix, pool, n), prefix),
    decreases n,
{
    if n > 0 {
        lemma_symbol_keys(v, fqns, alias, prefix, pool, (n - 1) as nat);
        if let Some(sym) = at(v.symbols, fqns[n - 1]) {
            if let Some(t) = offered_tier(sym.name, prefix, pool) {
                if let Some(a) = alias {
                    lemma_qualified(a, sym.name);
                }
                assert(keyed_as(symbol_offer(sym, alias, t, pool), prefix, sym.name, t, pool));
            }
        }
    }
}

proof fn lemma_namespace_keys(
    v: IndexView,
    ns: Seq<char>,
    alias: Option<Seq<char>>,
    prefix: Seq<char>,
    pool: Pool,
)
    requires
        pool != Pool::Local,
    ensures
        have_keys(namespace_offers(v, ns, alias, prefix, pool), prefix),
{
    if let Some(fqns) = at(v.ns_symbols, ns) {
        lemma_symbol_keys(v, fqns, alias, prefix, pool, fqns.len());
    }
}

proof fn lemma_member_keys(
    members: Seq<MemberView>,
    alias: Seq<char>,
    class_fqn: Seq<char>,
    is_method: bool,
    prefix: Seq<char>,
    n: nat,
)
    ensures
        have_keys(member_offers(members, alias, class_fqn, is_method, prefix, n), prefix),
    decreases n,
{
    if n > 0 {
        lemma_member_keys(members, alias, class_fqn, is_method, prefix, (n - 1) as nat);
        let name = members[n - 1].name;
        if let Some(t) = offered_tier(name, prefix, Pool::Java) {
            lemma_qualified(alias, name);
            assert(keyed_as(
                member_offer(alias, name, class_fqn, is_method, t),
                prefix,
                name,
                t,
                Pool::Java,
            ));
        }
    }
}

proof fn lemma_qualified_keys(v: IndexView, alias: Seq<char>, prefix: Seq<char>, ns: Seq<char>)
    ensures
        have_keys(qualified_offers(v, alias, prefix, ns), prefix),
{
    let full_ns = match at(v.namespaces, ns) {
        Some(meta) => dict_get(meta.aliases, alias),
        None => None,
    };
    match full_ns {
        Some(full_ns) => {
            lemma_namespace_keys(v, full_ns, Some(alias), prefix, Pool::CurrentNs);
        },
        None => {
            if let Some(class_fqn) = class_in(v, alias, ns) {
                if let Some(info) = class_named(v.jdk->0.classes, class_fqn, 0) {
                    let (m, f) = (info.methods, info.fields);
                    lemma_member_keys(m, alias, class_fqn, true, prefix, m.len());
                    lemma_member_keys(f, alias, class_fqn, false, prefix, f.len());
                }
            }
        },
    }
}

proof fn lemma_refer_keys(
    v: IndexView,
    refers: Seq<(Seq<char>, Seq<char>)>,
    prefix: Seq<char>,
    n: nat,
)
    ensures
        have_keys(refer_offers(v, refers, prefix, n), prefix),
    decreases n,
{
    if n > 0 {
        lemma_refer_keys(v, refers, prefix, (n - 1) as nat);
        let (name, fqn) = refers[n - 1];
        if let Some(t) = offered_tier(name, prefix, Pool::Referred) {
            let item = match at(v.symbols, fqn) {
                Some(sym) => symbol_offer(sym, None, t, Pool::Referred),
                None => referred_offer(name, fqn, t),
            };
            assert(keyed_as(item, prefix, name, t, Pool::Referred));
        }
    }
}

proof fn lemma_public_keys(
    v: IndexView,
    refers: Seq<(Seq<char>, Seq<char>)>,
    fqns: Seq<Seq<char>>,
    prefix: Seq<char>,
    n: nat,
)
    ensures
        have_keys(public_offers(v, refers, fqns, prefix, n), prefix),
    decreases n,
{
    if n > 0 {
        lemma_public_keys(v, refers, fqns, prefix, (n - 1) as nat);
        if let Some(sym) = at(v.symbols, fqns[n - 1]) {
            if let Some(t) = offered_tier(sym.name, prefix, Pool::Referred) {
                assert(keyed_as(
                    symbol_offer(sym, None, t, Pool::Referred),
                    prefix,
                    sym.name,
                    t,
                    Pool::Referred,
                ));
            }
        }
    }
}

proof fn lemma_refer_all_keys(v: IndexView, meta: NsMetaView, prefix: Seq<char>, n: nat)
    ensures
        have_keys(refer_all_offers(v, meta, prefix, n), prefix),
    decreases n,
{
    if n > 0 {
        lemma_refer_all_keys(v, meta, prefix, (n - 1) as nat);
        if let Some(fqns) = at(v.ns_symbols, meta.refer_all[n - 1]) {
            lemma_public_keys(v, meta.refers, fqns, prefix, fqns.len());
        }
    }
}

proof fn lemma_referred_keys(v: IndexView, prefix: Seq<char>, ns: Seq<char>)
    ensures
        have_keys(referred_offers(v, prefix, ns), prefix),
{
    if let Some(meta) = at(v.namespaces, ns) {
        lemma_refer_keys(v, meta.refers, prefix, meta.refers.len());
        lemma_refer_all_keys(v, meta, prefix, meta.refer_all.len());
    }
}

proof fn lemma_form_keys(forms: Seq<SpecialFormView>, prefix: Seq<char>, n: nat)
    ensures
        have_keys(form_offers(forms, prefix, n), prefix),
    decreases n,
{
    if n > 0 {
        lemma_form_keys(forms, prefix, (n - 1) as nat);
        let name = forms[n - 1].name;
        if let Some(t) = offered_tier(name, prefix, Pool::Core) {
            assert(keyed_as(
                form_offers(forms, prefix, n).last(),
                prefix,
                name,
                t,
                Pool::Core,
            ));
        }
    }
}

proof fn lemma_native_keys(v: IndexView, names: Seq<Seq<char>>, prefix: Seq<char>, n: nat)
    ensures
        have_keys(native_offers(v, names, prefix, n), prefix),
    decreases n,
{
    if n > 0 {
        lemma_native_keys(v, names, prefix, (n - 1) as nat);
        let name = names[n - 1];
        if let Some(t) = offered_tier(name, prefix, Pool::Core) {
            assert(keyed_as(
                native_offer(name, core_named(v.core_symbols, name, 0), t),
                prefix,
                name,
                t,
                Pool::Core,
            ));
        }
    }
}

proof fn lemma_core_keys(
    core_symbols: Seq<CoreSymbolView>,
    excluded: Seq<Seq<char>>,
    prefix: Seq<char>,
    n: nat,
)
    ensures
        have_keys(core_offers(core_symbols, excluded, prefix, n), prefix),
    decreases n,
{
    if n > 0 {
        lemma_core_keys(core_symbols, excluded, prefix, (n - 1) as nat);
        let name = core_symbols[n - 1].name;
        if let Some(t) = offered_tier(name, prefix, Pool::Core) {
            if !excluded.contains(name) {
                assert(keyed_as(
                    core_offers(core_symbols, excluded, prefix, n).last(),
                    prefix,
                    name,
                    t,
                    Pool::Core,
                ));
            }
        }
    }
}

proof fn lemma_builtin_keys(v: IndexView, prefix: Seq<char>, ns: Seq<char>)
    ensures
        have_keys(builtin_offers(v, prefix, ns), prefix),
{
    lemma_form_keys(forms_of(v.letgo_core), prefix, forms_of(v.letgo_core).len());
    if v.letgo_core {
        lemma_native_keys(v, natives_of(v), prefix, natives_of(v).len());
        lemma_namespace_keys(v, "core"@, None, prefix, Pool::Core);
    } else {
        lemma_core_keys(v.core_symbols, excluded_in(v, ns), prefix, v.core_symbols.len());
    }
}

proof fn lemma_alias_keys(aliases: Seq<(Seq<char>, Seq<char>)>, prefix: Seq<char>, n: nat)
    ensures
        have_keys(alias_offers(aliases, prefix, n), prefix),
    decreases n,
{
    if n > 0 {
        lemma_alias_keys(aliases, prefix, (n - 1) as nat);
        let alias = aliases[n - 1].0;
        if let Some(t) = offered_tier(alias, prefix, Pool::Alias) {
            assert(keyed_as(
                alias_offers(aliases, prefix, n).last(),
                prefix,
                alias,
                t,
                Pool::Alias,
            ));
        }
    }
}

proof fn lemma_hits_are_matches(names: Seq<Seq<char>>, prefix: Seq<char>, n: nat)
    ensures
        forall|i: int|
            0 <= i < ns_hits(names, prefix, n).len() ==> is_hit(
                #[trigger] ns_hits(names, prefix, n)[i],
                prefix,
            ),
    decreases n,
{
    if n > 0 {
        lemma_hits_are_matches(names, prefix, (n - 1) as nat);
        let before = ns_hits(names, prefix, (n - 1) as nat);
        let now = ns_hits(names, prefix, n);
        assert forall|i: int| 0 <= i < now.len() implies is_hit(#[trigger] now[i], prefix) by {
            if i < before.len() {
                assert(now[i] == before[i]);
            }
        }
    }
}

proof fn lemma_hit_keys(hits: Seq<RankView>, prefix: Seq<char>, n: nat)
    requires
        n <= hits.len(),
        forall|i: int| 0 <= i < hits.len() ==> is_hit(#[trigger] hits[i], prefix),
    ensures
        have_keys(hit_offers(hits, n), prefix),
    decreases n,
{
    if n > 0 {
        lemma_hit_keys(hits, prefix, (n - 1) as nat);
        let h = hits[n - 1];
        assert(is_hit(h, prefix));
        assert(keyed_as(
            hit_offers(hits, n).last(),
            prefix,
            h.name,
            h.tier as u8,
            Pool::Namespace,
        ));
    }
}

proof fn lemma_require_keys(names: Seq<Seq<char>>, prefix: Seq<char>)
    ensures
        have_keys(require_offers(names, prefix), prefix),
{
    let all = ns_hits(names, prefix, names.len());
    let hits = best(all);
    lemma_hits_are_matches(names, prefix, names.len());
    law_sorting_keeps_everything(all);
    assert forall|i: int| 0 <= i < hits.len() implies is_hit(#[trigger] hits[i], prefix) by {
        all.to_multiset_ensures();
        ranked(all).to_multiset_ensures();
        assert(ranked(all).contains(ranked(all)[i]));
        assert(all.to_multiset().count(hits[i]) > 0);
        assert(all.contains(hits[i]));
        assert(is_hit(all[all.index_of(hits[i])], prefix));
    }
    lemma_hit_keys(hits, prefix, hits.len());
}

proof fn lemma_classes_match(classes: Seq<ClassView>, prefix: Seq<char>, n: nat)
    ensures
        forall|i: int|
            0 <= i < names_with_prefix(classes, prefix, n).len() ==> prefix.is_prefix_of(
                simple_name_of(#[trigger] names_with_prefix(classes, prefix, n)[i]),
            ),
    decreases n,
{
    if n > 0 {
        lemma_classes_match(classes, prefix, (n - 1) as nat);
        let before = names_with_prefix(classes, prefix, (n - 1) as nat);
        let now = names_with_prefix(classes, prefix, n);
        assert forall|i: int| 0 <= i < now.len() implies prefix.is_prefix_of(
            simple_name_of(#[trigger] now[i]),
        ) by {
            if i < before.len() {
                assert(now[i] == before[i]);
            }
        }
    }
}

proof fn lemma_class_keys(fqns: Seq<Seq<char>>, prefix: Seq<char>, n: nat)
    requires
        n <= fqns.len(),
        prefix.len() > 0,
        forall|i: int|
            0 <= i < fqns.len() ==> prefix.is_prefix_of(simple_name_of(#[trigger] fqns[i])),
    ensures
        have_keys(class_offers(fqns, prefix, n), prefix),
    decreases n,
{
    if n > 0 {
        lemma_class_keys(fqns, prefix, (n - 1) as nat);
        let name = simple_name_of(fqns[n - 1]);
        assert(keyed_as(
            class_offer(fqns[n - 1], prefix),
            prefix,
            name,
            tier_of(name, prefix)->0,
            Pool::Java,
        ));
    }
}

proof fn lemma_java_keys(v: IndexView, prefix: Seq<char>)
    requires
        prefix.len() > 0,
    ensures
        have_keys(java_offers(v, prefix), prefix),
{
    if let Some(jdk) = v.jdk {
        let fqns = names_with_prefix(jdk.classes, prefix, jdk.classes.len());
        lemma_classes_match(jdk.classes, prefix, jdk.classes.len());
        lemma_class_keys(
            fqns,
            prefix,
            if fqns.len() <= JAVA_CLASS_LIMIT {
                fqns.len()
            } else {
                JAVA_CLASS_LIMIT as nat
            },
        );
    }
}

/// Whether an item offers a name that the prefix matches closely enough for where it comes
/// from: a prefix of one character only takes what starts with it, and namespaces are not
/// searched for scattered characters. How close the match is and where it comes from is
/// what it sorts by.
pub open spec fn offers_match(item: ItemView, name: Seq<char>, prefix: Seq<char>, pool: Pool) -> bool {
    exists|tier: u8|
        tier_of(name, prefix) == Some(tier) && (prefix.len() == 0 || ((tier < 2 || prefix.len()
            >= 2) && (pool == Pool::Namespace ==> tier < 3))) && #[trigger] sort_key(
            tier,
            pool,
            item.label,
        ) == item.sort_text
}

/// Whether an item offers the symbol under a label.
pub open spec fn offers_symbol(
    item: ItemView,
    sym: SymbolView,
    label: Seq<char>,
    prefix: Seq<char>,
    pool: Pool,
) -> bool {
    &&& item.label == label
    &&& item.detail == Some(
        sym.ns + " ("@ + joined_by(sym.params, " "@, sym.params.len()) + ")"@,
    )
    &&& item.documentation == sym.doc
    &&& item.kind == item_kind(sym.kind)
    &&& offers_match(item, sym.name, prefix, pool)
}

/// Whether an item has what is said of it, and a name that the prefix matches.
pub open spec fn offers_plain(
    item: ItemView,
    label: Seq<char>,
    detail: Seq<char>,
    documentation: Option<Seq<char>>,
    kind: CompletionItemKind,
    prefix: Seq<char>,
    pool: Pool,
) -> bool {
    &&& item.label == label
    &&& item.detail == Some(detail)
    &&& item.documentation == documentation
    &&& item.kind == kind
    &&& offers_match(item, label, prefix, pool)
}

proof fn lemma_offers_match(
    item: ItemView,
    name: Seq<char>,
    prefix: Seq<char>,
    pool: Pool,
)
    ensures
        offers_match(item, name, prefix, pool) <==> (offered_tier(name, prefix, pool) matches Some(
            tier,
        ) && sort_key(tier, pool, item.label) == item.sort_text),
{
    if let Some(tier) = offered_tier(name, prefix, pool) {
        if sort_key(tier, pool, item.label) == item.sort_text {
            assert(tier_of(name, prefix) == Some(tier));
        }
    }
}

/// Whether an item offers the name at `k` of a list of names that the index knows, under
/// the alias, where there is one.
pub open spec fn offers_listed(
    v: IndexView,
    fqns: Seq<Seq<char>>,
    alias: Option<Seq<char>>,
    prefix: Seq<char>,
    pool: Pool,
    k: int,
    item: ItemView,
) -> bool {
    &&& 0 <= k < fqns.len()
    &&& v.symbols.dom().contains(fqns[k])
    &&& offers_symbol(
        item,
        v.symbols[fqns[k]],
        match alias {
            Some(a) => a + "/"@ + v.symbols[fqns[k]].name,
            None => v.symbols[fqns[k]].name,
        },
        prefix,
        pool,
    )
}

/// Whether an item offers the name at `k` that the namespace refers to: what the index
/// knows of it, or its name alone.
pub open spec fn offers_referred(
    v: IndexView,
    refers: Seq<(Seq<char>, Seq<char>)>,
    prefix: Seq<char>,
    k: int,
    item: ItemView,
) -> bool {
    &&& 0 <= k < refers.len()
    &&& offers_match(item, refers[k].0, prefix, Pool::Referred)
    &&& if v.symbols.dom().contains(refers[k].1) {
        let sym = v.symbols[refers[k].1];
        &&& item.label == sym.name
        &&& item.detail == Some(
            sym.ns + " ("@ + joined_by(sym.params, " "@, sym.params.len()) + ")"@,
        )
        &&& item.documentation == sym.doc
        &&& item.kind == item_kind(sym.kind)
    } else {
        &&& item.label == refers[k].0
        &&& item.documentation is None
        &&& item.kind == CompletionItemKind::Function
        &&& item.detail == referred_offer(refers[k].0, refers[k].1, 0).detail
    }
}

/// Whether an item offers the public name at `k` of a namespace that is referred in full,
/// where the name is not referred by itself.
pub open spec fn offers_public(
    v: IndexView,
    refers: Seq<(Seq<char>, Seq<char>)>,
    fqns: Seq<Seq<char>>,
    prefix: Seq<char>,
    k: int,
    item: ItemView,
) -> bool {
    &&& 0 <= k < fqns.len()
    &&& v.symbols.dom().contains(fqns[k])
    &&& !v.symbols[fqns[k]].private
    &&& v.symbols[fqns[k]].kind != DefKind::DefnPrivate
    &&& dict_get(refers, v.symbols[fqns[k]].name) is None
    &&& offers_symbol(item, v.symbols[fqns[k]], v.symbols[fqns[k]].name, prefix, Pool::Referred)
}

/// Whether an item offers the special form at `k`.
pub open spec fn offers_form(forms: Seq<SpecialFormView>, prefix: Seq<char>, k: int, item: ItemView) -> bool {
    0 <= k < forms.len() && offers_plain(
        item,
        forms[k].name,
        "special form "@ + forms[k].usage,
        Some(forms[k].doc),
        CompletionItemKind::Keyword,
        prefix,
        Pool::Core,
    )
}

/// Whether an item offers the core name at `k`, which the namespace does not exclude.
pub open spec fn offers_core(
    core_symbols: Seq<CoreSymbolView>,
    excluded: Seq<Seq<char>>,
    prefix: Seq<char>,
    k: int,
    item: ItemView,
) -> bool {
    &&& 0 <= k < core_symbols.len()
    &&& !excluded.contains(core_symbols[k].name)
    &&& offers_plain(
        item,
        core_symbols[k].name,
        "clojure.core"@ + " ("@ + core_symbols[k].params + ")"@,
        if core_symbols[k].doc.len() == 0 {
            None
        } else {
            Some(core_symbols[k].doc)
        },
        CompletionItemKind::Function,
        prefix,
        Pool::Core,
    )
}

/// Whether an item offers the alias at `k`.
pub open spec fn offers_alias(
    aliases: Seq<(Seq<char>, Seq<char>)>,
    prefix: Seq<char>,
    k: int,
    item: ItemView,
) -> bool {
    0 <= k < aliases.len() && offers_plain(
        item,
        aliases[k].0,
        "alias for "@ + aliases[k].1,
        None,
        CompletionItemKind::Module,
        prefix,
        Pool::Alias,
    )
}

/// Whether an item offers the static member at `k` of a class.
pub open spec fn offers_member(
    members: Seq<MemberView>,
    alias: Seq<char>,
    class_fqn: Seq<char>,
    is_method: bool,
    prefix: Seq<char>,
    k: int,
    item: ItemView,
) -> bool {
    &&& 0 <= k < members.len()
    &&& members[k].is_static
    &&& item.label == alias + "/"@ + members[k].name
    &&& item.detail == Some(
        class_fqn + " ("@ + (if is_method {
            "static method"@
        } else {
            "static field"@
        }) + ")"@,
    )
    &&& item.documentation is None
    &&& item.kind == (if is_method {
        CompletionItemKind::Method
    } else {
        CompletionItemKind::Field
    })
    &&& offers_match(item, members[k].name, prefix, Pool::Java)
}

proof fn lemma_symbol_offers(
    v: IndexView,
    fqns: Seq<Seq<char>>,
    alias: Option<Seq<char>>,
    prefix: Seq<char>,
    pool: Pool,
    n: nat,
    item: ItemView,
)
    requires
        n <= fqns.len(),
    ensures
        symbol_offers(v, fqns, alias, prefix, pool, n).contains(item) <==> exists|k: int|
            k < n && #[trigger] offers_listed(v, fqns, alias, prefix, pool, k, item),
    decreases n,
{
    if n > 0 {
        let before = symbol_offers(v, fqns, alias, prefix, pool, (n - 1) as nat);
        let after = symbol_offers(v, fqns, alias, prefix, pool, n);
        lemma_symbol_offers(v, fqns, alias, prefix, pool, (n - 1) as nat, item);
        lemma_offers_match(item, v.symbols[fqns[n - 1]].name, prefix, pool);
        if after.len() > before.len() {
            lemma_push_contains(before, after.last(), item);
        }
        assert(offers_listed(v, fqns, alias, prefix, pool, n - 1, item) <==> after.len() > before.len() && item == after.last());
        if exists|k: int| k < n && #[trigger] offers_listed(v, fqns, alias, prefix, pool, k, item) {
            let k = choose|k: int| k < n && #[trigger] offers_listed(v, fqns, alias, prefix, pool, k, item);
            if k < n - 1 {
                assert(before.contains(item));
            }
        }
    } else {
        assert(symbol_offers(v, fqns, alias, prefix, pool, n) =~= seq![]);
    }
}

proof fn lemma_refer_offers(
    v: IndexView,
    refers: Seq<(Seq<char>, Seq<char>)>,
    prefix: Seq<char>,
    n: nat,
    item: ItemView,
)
    requires
        n <= refers.len(),
    ensures
        refer_offers(v, refers, prefix, n).contains(item) <==> exists|k: int|
            k < n && #[trigger] offers_referred(v, refers, prefix, k, item),
    decreases n,
{
    if n > 0 {
        let before = refer_offers(v, refers, prefix, (n - 1) as nat);
        let after = refer_offers(v, refers, prefix, n);
        lemma_refer_offers(v, refers, prefix, (n - 1) as nat, item);
        lemma_offers_match(item, refers[n - 1].0, prefix, Pool::Referred);
        if after.len() > before.len() {
            lemma_push_contains(before, after.last(), item);
        }
        assert(offers_referred(v, refers, prefix, n - 1, item) <==> after.len() > before.len() && item == after.last());
        if exists|k: int| k < n && #[trigger] offers_referred(v, refers, prefix, k, item) {
            let k = choose|k: int| k < n && #[trigger] offers_referred(v, refers, prefix, k, item);
            if k < n - 1 {
                assert(before.contains(item));
            }
        }
    } else {
        assert(refer_offers(v, refers, prefix, n) =~= seq![]);
    }
}

proof fn lemma_public_offers(
    v: IndexView,
    refers: Seq<(Seq<char>, Seq<char>)>,
    fqns: Seq<Seq<char>>,
    prefix: Seq<char>,
    n: nat,
    item: ItemView,
)
    requires
        n <= fqns.len(),
    ensures
        public_offers(v, refers, fqns, prefix, n).contains(item) <==> exists|k: int|
            k < n && #[trigger] offers_public(v, refers, fqns, prefix, k, item),
    decreases n,
{
    if n > 0 {
        let before = public_offers(v, refers, fqns, prefix, (n - 1) as nat);
        let after = public_offers(v, refers, fqns, prefix, n);
        lemma_public_offers(v, refers, fqns, prefix, (n - 1) as nat, item);
        lemma_offers_match(item, v.symbols[fqns[n - 1]].name, prefix, Pool::Referred);
        if after.len() > before.len() {
            lemma_push_contains(before, after.last(), item);
        }
        assert(offers_public(v, refers, fqns, prefix, n - 1, item) <==> after.len() > before.len() && item == after.last());
        if exists|k: int| k < n && #[trigger] offers_public(v, refers, fqns, prefix, k, item) {
            let k = choose|k: int| k < n && #[trigger] offers_public(v, refers, fqns, prefix, k, item);
            if k < n - 1 {
                assert(before.contains(item));
            }
        }
    } else {
        assert(public_offers(v, refers, fqns, prefix, n) =~= seq![]);
    }
}

proof fn lemma_form_offers(
    forms: Seq<SpecialFormView>,
    prefix: Seq<char>,
    n: nat,
    item: ItemView,
)
    requires
        n <= forms.len(),
    ensures
        form_offers(forms, prefix, n).contains(item) <==> exists|k: int|
            k < n && #[trigger] offers_form(forms, prefix, k, item),
    decreases n,
{
    if n > 0 {
        let before = form_offers(forms, prefix, (n - 1) as nat);
        let after = form_offers(forms, prefix, n);
        lemma_form_offers(forms, prefix, (n - 1) as nat, item);
        lemma_offers_match(item, forms[n - 1].name, prefix, Pool::Core);
        if after.len() > before.len() {
            lemma_push_contains(before, after.last(), item);
        }
        assert(offers_form(forms, prefix, n - 1, item) <==> after.len() > before.len() && item == after.last());
        if exists|k: int| k < n && #[trigger] offers_form(forms, prefix, k, item) {
            let k = choose|k: int| k < n && #[trigger] offers_form(forms, prefix, k, item);
            if k < n - 1 {
                assert(before.contains(item));
            }
        }
    } else {
        assert(form_offers(forms, prefix, n) =~= seq![]);
    }
}

proof fn lemma_core_offers(
    core_symbols: Seq<CoreSymbolView>,
    excluded: Seq<Seq<char>>,
    prefix: Seq<char>,
    n: nat,
    item: ItemView,
)
    requires
        n <= core_symbols.len(),
    ensures
        core_offers(core_symbols, excluded, prefix, n).contains(item) <==> exists|k: int|
            k < n && #[trigger] offers_core(core_symbols, excluded, prefix, k, item),
    decreases n,
{
    if n > 0 {
        let before = core_offers(core_symbols, excluded, prefix, (n - 1) as nat);
        let after = core_offers(core_symbols, excluded, prefix, n);
        lemma_core_offers(core_symbols, excluded, prefix, (n - 1) as nat, item);
        lemma_offers_match(item, core_symbols[n - 1].name, prefix, Pool::Core);
        if after.len() > before.len() {
            lemma_push_contains(before, after.last(), item);
        }
        assert(offers_core(core_symbols, excluded, prefix, n - 1, item) <==> after.len() > before.len() && item == after.last());
        if exists|k: int| k < n && #[trigger] offers_core(core_symbols, excluded, prefix, k, item) {
            let k = choose|k: int| k < n && #[trigger] offers_core(core_symbols, excluded, prefix, k, item);
            if k < n - 1 {
                assert(before.contains(item));
            }
        }
    } else {
        assert(core_offers(core_symbols, excluded, prefix, n) =~= seq![]);
    }
}

proof fn lemma_alias_offers(
    aliases: Seq<(Seq<char>, Seq<char>)>,
    prefix: Seq<char>,
    n: nat,
    item: ItemView,
)
    requires
        n <= aliases.len(),
    ensures
        alias_offers(aliases, prefix, n).contains(item) <==> exists|k: int|
            k < n && #[trigger] offers_alias(aliases, prefix, k, item),
    decreases n,
{
    if n > 0 {
        let before = alias_offers(aliases, prefix, (n - 1) as nat);
        let after = alias_offers(aliases, prefix, n);
        lemma_alias_offers(aliases, prefix, (n - 1) as nat, item);
        lemma_offers_match(item, aliases[n - 1].0, prefix, Pool::Alias);
        if after.len() > before.len() {
            lemma_push_contains(before, after.last(), item);
        }
        assert(offers_alias(aliases, prefix, n - 1, item) <==> after.len() > before.len() && item == after.last());
        if exists|k: int| k < n && #[trigger] offers_alias(aliases, prefix, k, item) {
            let k = choose|k: int| k < n && #[trigger] offers_alias(aliases, prefix, k, item);
            if k < n - 1 {
                assert(before.contains(item));
            }
        }
    } else {
        assert(alias_offers(aliases, prefix, n) =~= seq![]);
    }
}

proof fn lemma_member_offers(
    members: Seq<MemberView>,
    alias: Seq<char>,
    class_fqn: Seq<char>,
    is_method: bool,
    prefix: Seq<char>,
    n: nat,
    item: ItemView,
)
    requires
        n <= members.len(),
    ensures
        member_offers(members, alias, class_fqn, is_method, prefix, n).contains(item) <==> exists|k: int|
            k < n && #[trigger] offers_member(members, alias, class_fqn, is_method, prefix, k, item),
    decreases n,
{
    if n > 0 {
        let before = member_offers(members, alias, class_fqn, is_method, prefix, (n - 1) as nat);
        let after = member_offers(members, alias, class_fqn, is_method, prefix, n);
        lemma_member_offers(members, alias, class_fqn, is_method, prefix, (n - 1) as nat, item);
        lemma_offers_match(item, members[n - 1].name, prefix, Pool::Java);
        if after.len() > before.len() {
            lemma_push_contains(before, after.last(), item);
        }
        assert(offers_member(members, alias, class_fqn, is_method, prefix, n - 1, item) <==> after.len() > before.len() && item == after.last());
        if exists|k: int| k < n && #[trigger] offers_member(members, alias, class_fqn, is_method, prefix, k, item) {
            let k = choose|k: int| k < n && #[trigger] offers_member(members, alias, class_fqn, is_method, prefix, k, item);
            if k < n - 1 {
                assert(before.contains(item));
            }
        }
    } else {
        assert(member_offers(members, alias, class_fqn, is_method, prefix, n) =~= seq![]);
    }
}

/// Behind an alias, the members of the namespace that it is short for are offered: every
/// name that the index lists there and that the rest of the prefix matches, under
/// `alias/name`, and nothing else.
pub proof fn law_alias_offers_its_members(
    v: IndexView,
    alias: Seq<char>,
    rest: Seq<char>,
    ns: Seq<char>,
    names: Seq<Seq<char>>,
    full: Seq<char>,
    item: ItemView,
)
    requires
        !alias.contains('/'),
        v.namespaces.dom().contains(ns),
        dict_get(v.namespaces[ns].aliases, alias) == Some(full),
    ensures
        offers(v, alias + seq!['/'] + rest, ns, names).contains(item) <==> {
            &&& v.ns_symbols.dom().contains(full)
            &&& exists|k: int| #[trigger]
                offers_listed(v, v.ns_symbols[full], Some(alias), rest, Pool::CurrentNs, k, item)
        },
{
    law_split_at_the_first(alias, '/', rest);
    if v.ns_symbols.dom().contains(full) {
        let fqns = v.ns_symbols[full];
        lemma_symbol_offers(v, fqns, Some(alias), rest, Pool::CurrentNs, fqns.len(), item);
    }
}

/// Behind a class, its static members are offered, and nothing else.
pub proof fn law_class_offers_its_static_members(
    v: IndexView,
    alias: Seq<char>,
    rest: Seq<char>,
    ns: Seq<char>,
    names: Seq<Seq<char>>,
    class_fqn: Seq<char>,
    item: ItemView,
)
    requires
        !alias.contains('/'),
        v.namespaces.dom().contains(ns) ==> dict_get(v.namespaces[ns].aliases, alias) is None,
        class_in(v, alias, ns) == Some(class_fqn),
    ensures
        offers(v, alias + seq!['/'] + rest, ns, names).contains(item) <==> (class_named(
            v.jdk->0.classes,
            class_fqn,
            0,
        ) matches Some(info) && {
            ||| exists|k: int| #[trigger]
                offers_member(info.methods, alias, class_fqn, true, rest, k, item)
            ||| exists|k: int| #[trigger]
                offers_member(info.fields, alias, class_fqn, false, rest, k, item)
        }),
{
    law_split_at_the_first(alias, '/', rest);
    if let Some(info) = class_named(v.jdk->0.classes, class_fqn, 0) {
        let methods = member_offers(
            info.methods,
            alias,
            class_fqn,
            true,
            rest,
            info.methods.len(),
        );
        let fields = member_offers(info.fields, alias, class_fqn, false, rest, info.fields.len());
        lemma_member_offers(info.methods, alias, class_fqn, true, rest, info.methods.len(), item);
        lemma_member_offers(info.fields, alias, class_fqn, false, rest, info.fields.len(), item);
        lemma_concat_contains(methods, fields, item);
    }
}

/// Whether an item offers a public name of one of the namespaces that are referred in full.
pub open spec fn offers_refer_all(
    v: IndexView,
    meta: NsMetaView,
    prefix: Seq<char>,
    m: int,
    k: int,
    item: ItemView,
) -> bool {
    &&& 0 <= m < meta.refer_all.len()
    &&& v.ns_symbols.dom().contains(meta.refer_all[m])
    &&& offers_public(v, meta.refers, v.ns_symbols[meta.refer_all[m]], prefix, k, item)
}

proof fn lemma_refer_all_offers(
    v: IndexView,
    meta: NsMetaView,
    prefix: Seq<char>,
    n: nat,
    item: ItemView,
)
    requires
        n <= meta.refer_all.len(),
    ensures
        refer_all_offers(v, meta, prefix, n).contains(item) <==> exists|m: int, k: int|
            m < n && #[trigger] offers_refer_all(v, meta, prefix, m, k, item),
    decreases n,
{
    if n > 0 {
        let before = refer_all_offers(v, meta, prefix, (n - 1) as nat);
        let r = meta.refer_all[n - 1];
        lemma_refer_all_offers(v, meta, prefix, (n - 1) as nat, item);
        if v.ns_symbols.dom().contains(r) {
            let fqns = v.ns_symbols[r];
            let last = public_offers(v, meta.refers, fqns, prefix, fqns.len());
            lemma_concat_contains(before, last, item);
            lemma_public_offers(v, meta.refers, fqns, prefix, fqns.len(), item);
            if last.contains(item) {
                let k = choose|k: int| k < fqns.len() && #[trigger]
                    offers_public(v, meta.refers, fqns, prefix, k, item);
                assert(offers_refer_all(v, meta, prefix, n - 1, k, item));
            }
        }
        if exists|m: int, k: int|
            m < n && #[trigger] offers_refer_all(v, meta, prefix, m, k, item) {
            let (m, k) = choose|m: int, k: int|
                m < n && #[trigger] offers_refer_all(v, meta, prefix, m, k, item);
            if m < n - 1 {
                assert(before.contains(item));
            } else {
                assert(offers_public(v, meta.refers, v.ns_symbols[r], prefix, k, item));
            }
        }
    } else {
        assert(refer_all_offers(v, meta, prefix, n) =~= seq![]);
    }
}

/// Whether an item is one of those that a bare word is offered from near by: a name of its
/// own namespace, one that the namespace refers to, or one that is built in.
pub open spec fn offers_near(v: IndexView, prefix: Seq<char>, ns: Seq<char>, item: ItemView) -> bool {
    ||| v.ns_symbols.dom().contains(ns) && exists|k: int| #[trigger]
        offers_listed(v, v.ns_symbols[ns], None, prefix, Pool::CurrentNs, k, item)
    ||| v.namespaces.dom().contains(ns) && exists|k: int| #[trigger]
        offers_referred(v, v.namespaces[ns].refers, prefix, k, item)
    ||| v.namespaces.dom().contains(ns) && exists|m: int, k: int| #[trigger]
        offers_refer_all(v, v.namespaces[ns], prefix, m, k, item)
    ||| !v.letgo_core && v.namespaces.dom().contains(ns) && exists|k: int| #[trigger]
        offers_core(v.core_symbols, v.namespaces[ns].core_excludes, prefix, k, item)
    ||| !v.letgo_core && !v.namespaces.dom().contains(ns) && exists|k: int| #[trigger]
        offers_core(v.core_symbols, seq![], prefix, k, item)
    ||| exists|k: int| #[trigger] offers_form(forms_of(v.letgo_core), prefix, k, item)
    ||| v.letgo_core && exists|k: int| #[trigger] offers_native(v, natives_of(v), prefix, k, item)
    ||| v.letgo_core && v.ns_symbols.dom().contains("core"@) && exists|k: int| #[trigger]
        offers_listed(v, v.ns_symbols["core"@], None, prefix, Pool::Core, k, item)
}

/// Whether an item offers the native name at `k`, which the sources do not define.
pub open spec fn offers_native(
    v: IndexView,
    names: Seq<Seq<char>>,
    prefix: Seq<char>,
    k: int,
    item: ItemView,
) -> bool {
    &&& 0 <= k < names.len()
    &&& !v.symbols.dom().contains("core"@ + "/"@ + names[k])
    &&& item.label == names[k]
    &&& item.kind == CompletionItemKind::Function
    &&& item.detail == native_offer(names[k], core_named(v.core_symbols, names[k], 0), 0).detail
    &&& item.documentation == native_offer(
        names[k],
        core_named(v.core_symbols, names[k], 0),
        0,
    ).documentation
    &&& offers_match(item, names[k], prefix, Pool::Core)
}

proof fn lemma_native_offers(
    v: IndexView,
    names: Seq<Seq<char>>,
    prefix: Seq<char>,
    n: nat,
    item: ItemView,
)
    requires
        n <= names.len(),
    ensures
        native_offers(v, names, prefix, n).contains(item) <==> exists|k: int|
            k < n && #[trigger] offers_native(v, names, prefix, k, item),
    decreases n,
{
    if n > 0 {
        let before = native_offers(v, names, prefix, (n - 1) as nat);
        let after = native_offers(v, names, prefix, n);
        lemma_native_offers(v, names, prefix, (n - 1) as nat, item);
        lemma_offers_match(item, names[n - 1], prefix, Pool::Core);
        if after.len() > before.len() {
            lemma_push_contains(before, after.last(), item);
        }
        assert(offers_native(v, names, prefix, n - 1, item) <==> after.len() > before.len() && item == after.last());
        if exists|k: int| k < n && #[trigger] offers_native(v, names, prefix, k, item) {
            let k = choose|k: int| k < n && #[trigger] offers_native(v, names, prefix, k, item);
            if k < n - 1 {
                assert(before.contains(item));
            }
        }
    } else {
        assert(native_offers(v, names, prefix, n) =~= seq![]);
    }
}

proof fn lemma_namespace_offers(
    v: IndexView,
    ns: Seq<char>,
    prefix: Seq<char>,
    pool: Pool,
    item: ItemView,
)
    ensures
        namespace_offers(v, ns, None, prefix, pool).contains(item) <==> v.ns_symbols.dom().contains(
            ns,
        ) && exists|k: int| #[trigger] offers_listed(
            v,
            v.ns_symbols[ns],
            None,
            prefix,
            pool,
            k,
            item,
        ),
{
    if v.ns_symbols.dom().contains(ns) {
        let fqns = v.ns_symbols[ns];
        lemma_symbol_offers(v, fqns, None, prefix, pool, fqns.len(), item);
    }
}

proof fn lemma_builtin_offers(v: IndexView, prefix: Seq<char>, ns: Seq<char>, item: ItemView)
    ensures
        builtin_offers(v, prefix, ns).contains(item) <==> {
            ||| !v.letgo_core && exists|k: int| #[trigger]
                offers_core(v.core_symbols, excluded_in(v, ns), prefix, k, item)
            ||| exists|k: int| #[trigger] offers_form(forms_of(v.letgo_core), prefix, k, item)
            ||| v.letgo_core && exists|k: int| #[trigger]
                offers_native(v, natives_of(v), prefix, k, item)
            ||| v.letgo_core && v.ns_symbols.dom().contains("core"@) && exists|k: int| #[trigger]
                offers_listed(v, v.ns_symbols["core"@], None, prefix, Pool::Core, k, item)
        },
{
    let forms = forms_of(v.letgo_core);
    lemma_form_offers(forms, prefix, forms.len(), item);
    if v.letgo_core {
        let natives = natives_of(v);
        lemma_native_offers(v, natives, prefix, natives.len(), item);
        lemma_namespace_offers(v, "core"@, prefix, Pool::Core, item);
        let one = form_offers(forms, prefix, forms.len());
        let two = native_offers(v, natives, prefix, natives.len());
        let three = namespace_offers(v, "core"@, None, prefix, Pool::Core);
        lemma_concat_contains(one + two, three, item);
        lemma_concat_contains(one, two, item);
    } else {
        lemma_core_offers(
            v.core_symbols,
            excluded_in(v, ns),
            prefix,
            v.core_symbols.len(),
            item,
        );
        lemma_concat_contains(
            core_offers(v.core_symbols, excluded_in(v, ns), prefix, v.core_symbols.len()),
            form_offers(forms, prefix, forms.len()),
            item,
        );
    }
}

/// A bare word is offered every name that its namespace defines, refers to or has built in
/// and that it matches; a word of which something is typed is offered aliases, namespaces
/// and classes too. Nothing else is.
pub proof fn law_bare_word_is_offered_what_it_can_name(
    v: IndexView,
    prefix: Seq<char>,
    ns: Seq<char>,
    names: Seq<Seq<char>>,
    item: ItemView,
)
    requires
        !prefix.contains('/'),
    ensures
        offers(v, prefix, ns, names).contains(item) <==> {
            ||| offers_near(v, prefix, ns, item)
            ||| prefix.len() > 0 && v.namespaces.dom().contains(ns) && exists|k: int| #[trigger]
                offers_alias(v.namespaces[ns].aliases, prefix, k, item)
            ||| prefix.len() > 0 && require_offers(names, prefix).contains(item)
            ||| prefix.len() > 0 && java_offers(v, prefix).contains(item)
        },
{
    law_split_at_the_first(prefix, '/', seq![]);
    let own = namespace_offers(v, ns, None, prefix, Pool::CurrentNs);
    let referred = referred_offers(v, prefix, ns);
    let built_in = builtin_offers(v, prefix, ns);
    lemma_namespace_offers(v, ns, prefix, Pool::CurrentNs, item);
    lemma_builtin_offers(v, prefix, ns, item);
    lemma_concat_contains(own + referred, built_in, item);
    lemma_concat_contains(own, referred, item);
    if v.namespaces.dom().contains(ns) {
        let meta = v.namespaces[ns];
        lemma_refer_offers(v, meta.refers, prefix, meta.refers.len(), item);
        lemma_refer_all_offers(v, meta, prefix, meta.refer_all.len(), item);
        lemma_concat_contains(
            refer_offers(v, meta.refers, prefix, meta.refers.len()),
            refer_all_offers(v, meta, prefix, meta.refer_all.len()),
            item,
        );
        lemma_alias_offers(meta.aliases, prefix, meta.aliases.len(), item);
    }
    let near = own + referred + built_in;
    let aliases = aliases_in(v, prefix, ns);
    lemma_concat_contains(
        near + aliases + require_offers(names, prefix),
        java_offers(v, prefix),
        item,
    );
    lemma_concat_contains(near + aliases, require_offers(names, prefix), item);
    lemma_concat_contains(near, aliases, item);
}

proof fn lemma_hit_offers(hits: Seq<RankView>, n: nat, item: ItemView)
    requires
        n <= hits.len(),
    ensures
        hit_offers(hits, n).contains(item) <==> exists|k: int|
            0 <= k < n && item == #[trigger] hit_offer(hits[k]),
    decreases n,
{
    if n > 0 {
        let before = hit_offers(hits, (n - 1) as nat);
        lemma_hit_offers(hits, (n - 1) as nat, item);
        lemma_push_contains(before, hit_offer(hits[n - 1]), item);
        if exists|k: int| 0 <= k < n && item == #[trigger] hit_offer(hits[k]) {
            let k = choose|k: int| 0 <= k < n && item == #[trigger] hit_offer(hits[k]);
            if k < n - 1 {
                assert(before.contains(item));
            }
        }
    } else {
        assert(hit_offers(hits, n) =~= seq![]);
    }
}

spec fn hit_offer(h: RankView) -> ItemView {
    offer(
        h.name,
        "namespace"@,
        None,
        CompletionItemKind::Module,
        h.tier as u8,
        Pool::Namespace,
    )
}

/// Whether an item offers a namespace of the index that is not internal to its library.
pub open spec fn offers_namespace(v: IndexView, name: Seq<char>, prefix: Seq<char>, item: ItemView) -> bool {
    &&& v.namespaces.dom().contains(name)
    &&& !".impl"@.is_suffix_of(name)
    &&& !".internal"@.is_suffix_of(name)
    &&& offers_plain(
        item,
        name,
        "namespace"@,
        None,
        CompletionItemKind::Module,
        prefix,
        Pool::Namespace,
    )
}

/// The namespaces that are offered are namespaces of the index that match; while the index
/// has no more than are offered at most, every one that matches is.
pub proof fn law_namespaces_are_offered(
    v: IndexView,
    prefix: Seq<char>,
    names: Seq<Seq<char>>,
    item: ItemView,
)
    requires
        lists_namespaces(v, names),
    ensures
        require_offers(names, prefix).contains(item) ==> exists|name: Seq<char>| #[trigger]
            offers_namespace(v, name, prefix, item),
        names.len() <= NAMESPACE_LIMIT && (exists|name: Seq<char>| #[trigger]
            offers_namespace(v, name, prefix, item)) ==> require_offers(names, prefix).contains(
            item,
        ),
        require_offers(names, prefix).len() <= NAMESPACE_LIMIT,
{
    let hits = ns_hits(names, prefix, names.len());
    let kept = best(hits);
    lemma_hits_once(names, prefix, names.len());
    assert(names.take(names.len() as int) =~= names);
    law_sorting_keeps_everything(hits);
    lemma_hit_offers(kept, kept.len(), item);
    lemma_hit_count(names, prefix, names.len());
    lemma_hit_offers_len(kept, kept.len());
    if require_offers(names, prefix).contains(item) {
        let k = choose|k: int| 0 <= k < kept.len() && item == #[trigger] hit_offer(kept[k]);
        let h = kept[k];
        assert(ranked(hits)[k] == h);
        assert(ranked(hits).contains(h));
        lemma_same_items(hits, h);
        assert(hits.contains(h));
        assert(names.contains(h.name));
        lemma_offers_match(item, h.name, prefix, Pool::Namespace);
        assert(offers_namespace(v, h.name, prefix, item));
    }
    if names.len() <= NAMESPACE_LIMIT && exists|name: Seq<char>| #[trigger]
        offers_namespace(v, name, prefix, item) {
        let name = choose|name: Seq<char>| #[trigger] offers_namespace(v, name, prefix, item);
        lemma_offers_match(item, name, prefix, Pool::Namespace);
        let tier = offered_tier(name, prefix, Pool::Namespace)->0;
        let h = RankView { tier: tier as u64, size: 0, name };
        assert(names.contains(name));
        assert(hits.contains(h));
        lemma_same_items(hits, h);
        let k = ranked(hits).index_of(h);
        assert(kept[k] == h);
        assert(item == hit_offer(kept[k]));
    }
}

proof fn lemma_hit_count(names: Seq<Seq<char>>, prefix: Seq<char>, n: nat)
    requires
        n <= names.len(),
    ensures
        ns_hits(names, prefix, n).len() <= n,
    decreases n,
{
    if n > 0 {
        lemma_hit_count(names, prefix, (n - 1) as nat);
    }
}

proof fn lemma_hit_offers_len(hits: Seq<RankView>, n: nat)
    ensures
        hit_offers(hits, n).len() == n,
    decreases n,
{
    if n > 0 {
        lemma_hit_offers_len(hits, (n - 1) as nat);
    }
}

proof fn lemma_local_offers(locals: Seq<BindingView>, prefix: Seq<char>, n: nat, item: ItemView)
    requires
        n <= locals.len(),
    ensures
        local_offers(locals, prefix, n).contains(item) <==> exists|k: int|
            locals.len() - n <= k < locals.len() && #[trigger] offers_local(
                locals,
                prefix,
                k,
                item,
            ),
        forall|i: int, j: int|
            0 <= i < j < local_offers(locals, prefix, n).len() ==> (#[trigger] local_offers(
                locals,
                prefix,
                n,
            )[i]).label != (#[trigger] local_offers(locals, prefix, n)[j]).label,
        forall|i: int|
            0 <= i < local_offers(locals, prefix, n).len() ==> offers_inner(
                locals,
                prefix,
                n,
                #[trigger] local_offers(locals, prefix, n)[i],
            ),
    decreases n,
{
    let after = local_offers(locals, prefix, n);
    if n > 0 {
        let before = local_offers(locals, prefix, (n - 1) as nat);
        let at = locals.len() - n;
        let name = locals[at].name;
        lemma_local_offers(locals, prefix, (n - 1) as nat, item);
        lemma_offers_match(item, name, prefix, Pool::Local);
        if let Some(tier) = offered_tier(name, prefix, Pool::Local) {
            let mine = offer(name, "local"@, None, CompletionItemKind::Variable, tier, Pool::Local);
            lemma_offers_match(mine, name, prefix, Pool::Local);
            lemma_push_contains(before, mine, item);
            assert(offers_local(locals, prefix, at, mine));
            assert(offers_local(locals, prefix, at, item) <==> item == mine);
            if has_label(before, name) {
                let i = choose|i: int| 0 <= i < before.len() && (#[trigger] before[i]).label == name;
                assert(offers_inner(locals, prefix, (n - 1) as nat, before[i]));
                let k = choose|k: int|
                    locals.len() - (n - 1) <= k < locals.len() && #[trigger] offers_local(
                        locals,
                        prefix,
                        k,
                        before[i],
                    );
                lemma_offers_match(before[i], name, prefix, Pool::Local);
                assert(before[i] == mine);
            }
        }
        assert forall|i: int| 0 <= i < after.len() implies offers_inner(
            locals,
            prefix,
            n,
            #[trigger] after[i],
        ) by {
            if i < before.len() {
                assert(after[i] == before[i]);
                assert(offers_inner(locals, prefix, (n - 1) as nat, before[i]));
                let k = choose|k: int|
                    locals.len() - (n - 1) <= k < locals.len() && #[trigger] offers_local(
                        locals,
                        prefix,
                        k,
                        before[i],
                    );
                assert(offers_local(locals, prefix, k, after[i]));
            } else {
                lemma_offers_match(after[i], name, prefix, Pool::Local);
                assert(offers_local(locals, prefix, at, after[i]));
            }
        }
        if exists|k: int|
            locals.len() - n <= k < locals.len() && #[trigger] offers_local(
                locals,
                prefix,
                k,
                item,
            ) {
            let k = choose|k: int|
                locals.len() - n <= k < locals.len() && #[trigger] offers_local(
                    locals,
                    prefix,
                    k,
                    item,
                );
            if k > at {
                assert(before.contains(item));
                let i = before.index_of(item);
                assert(after[i] == item);
            }
        }
        if after.contains(item) {
            let i = after.index_of(item);
            assert(offers_inner(locals, prefix, n, after[i]));
            let k = choose|k: int|
                locals.len() - n <= k < locals.len() && #[trigger] offers_local(
                    locals,
                    prefix,
                    k,
                    after[i],
                );
            assert(offers_local(locals, prefix, k, item));
        }
        assert forall|i: int, j: int| 0 <= i < j < after.len() implies (#[trigger] after[i]).label
            != (#[trigger] after[j]).label by {
            if j < before.len() {
                assert(before[i].label != before[j].label);
            } else {
                assert(before[i] == after[i]);
            }
        }
    } else {
        assert(after =~= seq![]);
    }
}

/// Whether an item offers one of the last `n` locals.
spec fn offers_inner(locals: Seq<BindingView>, prefix: Seq<char>, n: nat, item: ItemView) -> bool {
    exists|k: int|
        locals.len() - n <= k < locals.len() && #[trigger] offers_local(locals, prefix, k, item)
}

/// Whether an item offers the local at `k`.
pub open spec fn offers_local(locals: Seq<BindingView>, prefix: Seq<char>, k: int, item: ItemView) -> bool {
    0 <= k < locals.len() && offers_plain(
        item,
        locals[k].name,
        "local"@,
        None,
        CompletionItemKind::Variable,
        prefix,
        Pool::Local,
    )
}

/// At a bare word, the visible locals that it matches are offered, each name once, besides what the
/// namespace offers; at a qualified one no local is.
pub proof fn law_visible_locals_are_offered(
    v: IndexView,
    store: StoreView,
    uri: Seq<char>,
    path: Seq<char>,
    pos: Position,
    names: Seq<Seq<char>>,
    item: ItemView,
    root: FormView,
)
    requires
        store.tree(uri) == Some(root),
    ensures
        ({
            let prefix = prefix_at(store, uri, pos);
            offers_at(v, store, uri, path, pos, names).contains(item) <==> {
                ||| offers(v, prefix, ns_of(v, path), names).contains(item)
                ||| !prefix.contains('/') && exists|k: int| #[trigger]
                    offers_local(visible(root, pos), prefix, k, item)
            }
        }),
        forall|i: int, j: int|
            0 <= i < j < local_offers(
                visible(root, pos),
                prefix_at(store, uri, pos),
                visible(root, pos).len(),
            ).len() ==> (#[trigger] local_offers(
                visible(root, pos),
                prefix_at(store, uri, pos),
                visible(root, pos).len(),
            )[i]).label != (#[trigger] local_offers(
                visible(root, pos),
                prefix_at(store, uri, pos),
                visible(root, pos).len(),
            )[j]).label,
{
    let prefix = prefix_at(store, uri, pos);
    let locals = visible(root, pos);
    let found = offers(v, prefix, ns_of(v, path), names);
    lemma_index_from(prefix, '/', 0);
    lemma_local_offers(locals, prefix, locals.len(), item);
    lemma_concat_contains(local_offers(locals, prefix, locals.len()), found, item);
    if prefix.contains('/') {
        assert(prefix[prefix.index_of('/')] == '/');
    }
}

proof fn lemma_same_items(hits: Seq<RankView>, h: RankView)
    ensures
        ranked(hits).contains(h) <==> hits.contains(h),
{
    law_sorting_keeps_everything(hits);
    hits.to_multiset_ensures();
    ranked(hits).to_multiset_ensures();
    assert(hits.contains(h) <==> hits.to_multiset().count(h) > 0);
    assert(ranked(hits).contains(h) <==> ranked(hits).to_multiset().count(h) > 0);
}

/// What is offered for what is typed: everything for nothing; for one character the names that start
/// with it; for more every name with those characters in order, but of a namespace only one that
/// holds them together.
pub proof fn law_what_is_typed_decides_what_is_offered(
    name: Seq<char>,
    typed: Seq<char>,
    pool: Pool,
)
    ensures
        typed.len() == 0 ==> offered_tier(name, typed, pool) is Some,
        typed.len() == 1 ==> (offered_tier(name, typed, pool) is Some <==> exists|rest: Seq<char>|
            name == #[trigger] (typed + rest)),
        typed.len() >= 2 && pool != Pool::Namespace ==> (offered_tier(name, typed, pool) is Some
            <==> exists|at: Seq<int>| #[trigger] embeds(typed, name, at)),
        typed.len() >= 2 && pool == Pool::Namespace ==> (offered_tier(name, typed, pool) is Some
            <==> exists|k: int| #[trigger] stands_at(name, typed, k)),
{
    if typed.len() > 0 {
        law_closer_names_match_better(name, typed);
        law_matches_are_subsequences(name, typed);
    }
}

/// What is offered is shown as what it is: functions and macros as functions, values as variables,
/// protocols as interfaces, records and types as classes.
pub proof fn law_offers_show_their_kind(kind: DefKind)
    ensures
        item_kind(kind) == CompletionItemKind::Function <==> kind == DefKind::Defn || kind
            == DefKind::DefnPrivate || kind == DefKind::Defmacro || kind == DefKind::Deftest,
        item_kind(kind) == CompletionItemKind::Variable <==> kind == DefKind::Def || kind
            == DefKind::Defonce,
        item_kind(kind) == CompletionItemKind::Interface <==> kind == DefKind::Defprotocol,
        item_kind(kind) == CompletionItemKind::Class <==> kind == DefKind::Defrecord || kind
            == DefKind::Deftype,
{
}

/// A namespace is internal where its last part is `impl` or `internal`.
pub proof fn law_internal_namespaces_end_so(ns: Seq<char>)
    ensures
        internal_ns(ns) <==> {
            ||| exists|front: Seq<char>| ns == #[trigger] (front + ".impl"@)
            ||| exists|front: Seq<char>| ns == #[trigger] (front + ".internal"@)
        },
{
    lemma_ends_in(ns, ".impl"@);
    lemma_ends_in(ns, ".internal"@);
}

}
