//! The documentation that ClojureDocs exports, one entry to a var.

use vstd::prelude::*;
use crate::collect::{
    copy_opt, dict_get, dict_put, law_dict_get_after_put, push_str, strs, Dict,
};
use crate::index::extractor::qualify;
use crate::json::{convert, field, field_of, json_of, text_field, text_in, Json, JsonView};
use crate::text::{concat2, concat3, starts_with_char};
use crate::words::{trim, trimmed};

verus! {

/// The site that the entries' pages stand on.
pub const SITE: &'static str = "https://clojuredocs.org";

/// The entry of one var.
#[derive(Clone, Debug, PartialEq, Eq)]
pub struct Entry {
    pub ns: String,
    pub name: String,
    pub doc: Option<String>,
    /// Each argument list in brackets, which the export leaves out.
    pub arglists: Vec<String>,
    /// The version of Clojure that the var appeared in, where it is known.
    pub added: Option<String>,
    /// The bodies of the examples, in the export's order.
    pub examples: Vec<String>,
    /// Related vars as `ns/name`.
    pub see_alsos: Vec<String>,
    /// The var's page.
    pub url: String,
}

/// What an [`Entry`] says.
pub ghost struct EntryView {
    pub ns: Seq<char>,
    pub name: Seq<char>,
    pub doc: Option<Seq<char>>,
    pub arglists: Seq<Seq<char>>,
    pub added: Option<Seq<char>>,
    pub examples: Seq<Seq<char>>,
    pub see_alsos: Seq<Seq<char>>,
    pub url: Seq<char>,
}

impl DeepView for Entry {
    type V = EntryView;

    open spec fn deep_view(&self) -> EntryView {
        EntryView {
            ns: self.ns@,
            name: self.name@,
            doc: self.doc.deep_view(),
            arglists: strs(self.arglists@),
            added: self.added.deep_view(),
            examples: strs(self.examples@),
            see_alsos: strs(self.see_alsos@),
            url: self.url@,
        }
    }
}

/// A var of the export as it stands there; every field may be missing.
#[derive(Clone, Debug)]
pub struct RawVar {
    pub ns: Option<String>,
    pub name: Option<String>,
    pub doc: Option<String>,
    pub arglists: Vec<String>,
    pub added: Option<String>,
    /// The path of the var's page. It spells some names otherwise than the var does
    /// (`ends-with?` as `ends-with_q`).
    pub href: Option<String>,
    /// The bodies of the examples.
    pub examples: Vec<Option<String>>,
    /// The namespace and the name of each related var, where it names one.
    pub see_alsos: Vec<Option<RawRef>>,
}

/// A reference of the export to another var.
#[derive(Clone, Debug)]
pub struct RawRef {
    pub ns: Option<String>,
    pub name: Option<String>,
}

/// What a [`RawRef`] says.
pub ghost struct RefView {
    pub ns: Option<Seq<char>>,
    pub name: Option<Seq<char>>,
}

/// What a [`RawVar`] says.
pub ghost struct RawView {
    pub ns: Option<Seq<char>>,
    pub name: Option<Seq<char>>,
    pub doc: Option<Seq<char>>,
    pub arglists: Seq<Seq<char>>,
    pub added: Option<Seq<char>>,
    pub href: Option<Seq<char>>,
    pub examples: Seq<Option<Seq<char>>>,
    pub see_alsos: Seq<Option<RefView>>,
}

impl DeepView for RawRef {
    type V = RefView;

    open spec fn deep_view(&self) -> RefView {
        RefView { ns: self.ns.deep_view(), name: self.name.deep_view() }
    }
}

impl DeepView for RawVar {
    type V = RawView;

    open spec fn deep_view(&self) -> RawView {
        RawView {
            ns: self.ns.deep_view(),
            name: self.name.deep_view(),
            doc: self.doc.deep_view(),
            arglists: strs(self.arglists@),
            added: self.added.deep_view(),
            href: self.href.deep_view(),
            examples: self.examples.deep_view(),
            see_alsos: self.see_alsos.deep_view(),
        }
    }
}

/// An argument list in brackets; one that has them stays as it is.
pub open spec fn bracketed(arglist: Seq<char>) -> Seq<char> {
    let a = trimmed(arglist);
    if a.len() > 0 && a[0] == '[' {
        a
    } else {
        "["@ + a + "]"@
    }
}

/// An argument list in brackets.
pub fn bracket(arglist: &str) -> (r: String)
    ensures
        r@ == bracketed(arglist@),
{
    let a = trim(arglist);
    if starts_with_char(a.as_str(), '[') {
        a
    } else {
        concat3("[", a.as_str(), "]")
    }
}

/// The texts among the first `n` that are there.
pub open spec fn present(list: Seq<Option<Seq<char>>>, n: nat) -> Seq<Seq<char>>
    decreases n,
{
    if n == 0 {
        seq![]
    } else {
        match list[n - 1] {
            Some(text) => present(list, (n - 1) as nat).push(text),
            None => present(list, (n - 1) as nat),
        }
    }
}

/// The vars that the first `n` references name.
pub open spec fn related(list: Seq<Option<RefView>>, n: nat) -> Seq<Seq<char>>
    decreases n,
{
    if n == 0 {
        seq![]
    } else {
        let before = related(list, (n - 1) as nat);
        match list[n - 1] {
            Some(RefView { ns: Some(ns), name: Some(name) }) => before.push(qualify(ns, name)),
            _ => before,
        }
    }
}

/// The entry of a var; `None` of one that has no name or no namespace.
pub open spec fn entry_of_var(v: RawView) -> Option<EntryView> {
    match (v.ns, v.name) {
        (Some(ns), Some(name)) => if ns.len() == 0 || name.len() == 0 {
            None
        } else {
            Some(
                EntryView {
                    ns,
                    name,
                    doc: v.doc,
                    arglists: v.arglists.map_values(|a: Seq<char>| bracketed(a)),
                    added: v.added,
                    examples: present(v.examples, v.examples.len()),
                    see_alsos: related(v.see_alsos, v.see_alsos.len()),
                    url: SITE@ + (match v.href {
                        Some(href) => href,
                        None => "/"@ + ns + "/"@ + name,
                    }),
                },
            )
        },
        _ => None,
    }
}

fn bracket_all(list: &Vec<String>) -> (r: Vec<String>)
    ensures
        strs(r@) == strs(list@).map_values(|a: Seq<char>| bracketed(a)),
{
    let mut out: Vec<String> = Vec::new();
    let ghost all = strs(list@).map_values(|a: Seq<char>| bracketed(a));
    let mut i: usize = 0;
    while i < list.len()
        invariant
            i <= list@.len(),
            all == strs(list@).map_values(|a: Seq<char>| bracketed(a)),
            strs(out@) =~= all.take(i as int),
        decreases list@.len() - i,
    {
        push_str(&mut out, bracket(list[i].as_str()));
        i += 1;
    }
    assert(strs(out@) =~= all);
    out
}

fn keep_present(list: &Vec<Option<String>>) -> (r: Vec<String>)
    ensures
        strs(r@) == present(list.deep_view(), list@.len()),
{
    let ghost all = list.deep_view();
    let mut out: Vec<String> = Vec::new();
    assert(strs(out@) =~= seq![]);
    let mut i: usize = 0;
    while i < list.len()
        invariant
            i <= list@.len(),
            all == list.deep_view(),
            strs(out@) == present(all, i as nat),
        decreases list@.len() - i,
    {
        assert(all[i as int] == list@[i as int].deep_view());
        if let Some(text) = &list[i] {
            push_str(&mut out, text.clone());
        }
        i += 1;
    }
    out
}

fn name_related(list: &Vec<Option<RawRef>>) -> (r: Vec<String>)
    ensures
        strs(r@) == related(list.deep_view(), list@.len()),
{
    let ghost all = list.deep_view();
    let mut out: Vec<String> = Vec::new();
    assert(strs(out@) =~= seq![]);
    let mut i: usize = 0;
    while i < list.len()
        invariant
            i <= list@.len(),
            all == list.deep_view(),
            strs(out@) == related(all, i as nat),
        decreases list@.len() - i,
    {
        assert(all[i as int] == list@[i as int].deep_view());
        if let Some(to) = &list[i] {
            if let Some(ns) = &to.ns {
                if let Some(name) = &to.name {
                    push_str(&mut out, concat3(ns.as_str(), "/", name.as_str()));
                }
            }
        }
        i += 1;
    }
    out
}

/// The entry of a var.
pub fn normalize(var: &RawVar) -> (r: Option<Entry>)
    ensures
        r.deep_view() == entry_of_var(var.deep_view()),
{
    let ns = match &var.ns {
        Some(ns) => ns,
        None => return None,
    };
    let name = match &var.name {
        Some(name) => name,
        None => return None,
    };
    if ns.as_str().is_empty() || name.as_str().is_empty() {
        return None;
    }
    let href = match &var.href {
        Some(href) => href.clone(),
        None => {
            let front = concat3("/", ns.as_str(), "/");
            concat2(front.as_str(), name.as_str())
        },
    };
    Some(
        Entry {
            ns: ns.clone(),
            name: name.clone(),
            doc: copy_opt(&var.doc),
            arglists: bracket_all(&var.arglists),
            added: copy_opt(&var.added),
            examples: keep_present(&var.examples),
            see_alsos: name_related(&var.see_alsos),
            url: concat2(SITE, href.as_str()),
        },
    )
}

/// The entries of the export, each under `ns/name`.
#[derive(Debug)]
pub struct ClojureDocs {
    entries: Dict<Entry>,
}

impl View for ClojureDocs {
    type V = Seq<(Seq<char>, EntryView)>;

    closed spec fn view(&self) -> Seq<(Seq<char>, EntryView)> {
        self.entries.deep_view()
    }
}

/// The entries of the first `n` vars. A later var replaces an earlier one of its name.
pub open spec fn entries_of(vars: Seq<RawView>, n: nat) -> Seq<(Seq<char>, EntryView)>
    decreases n,
{
    if n == 0 {
        seq![]
    } else {
        let before = entries_of(vars, (n - 1) as nat);
        match entry_of_var(vars[n - 1]) {
            Some(e) => dict_put(before, qualify(e.ns, e.name), e),
            None => before,
        }
    }
}

impl ClojureDocs {
    /// No entries.
    pub fn new() -> (r: Self)
        ensures
            r@ == Seq::<(Seq<char>, EntryView)>::empty(),
    {
        ClojureDocs { entries: Dict::new() }
    }

    /// The entries of the vars of an export.
    pub fn from_vars(vars: &Vec<RawVar>) -> (r: Self)
        ensures
            r@ == entries_of(vars.deep_view(), vars@.len()),
    {
        let ghost all = vars.deep_view();
        let mut entries: Dict<Entry> = Dict::new();
        let mut i: usize = 0;
        while i < vars.len()
            invariant
                i <= vars@.len(),
                all == vars.deep_view(),
                entries.deep_view() == entries_of(all, i as nat),
            decreases vars@.len() - i,
        {
            assert(all[i as int] == vars@[i as int].deep_view());
            if let Some(e) = normalize(&vars[i]) {
                let key = concat3(e.ns.as_str(), "/", e.name.as_str());
                entries.insert(key, e);
            }
            i += 1;
        }
        ClojureDocs { entries }
    }

    /// The entry of a var.
    pub fn get(&self, fqn: &str) -> (r: Option<&Entry>)
        ensures
            match r {
                Some(e) => dict_get(self@, fqn@) == Some(e.deep_view()),
                None => dict_get(self@, fqn@) is None,
            },
    {
        self.entries.get(fqn)
    }

    /// How many vars have an entry.
    pub fn len(&self) -> (r: usize)
        ensures
            r == self@.len(),
    {
        self.entries.entries.len()
    }

    /// Whether no var has an entry.
    pub fn is_empty(&self) -> (r: bool)
        ensures
            r == (self@.len() == 0),
    {
        self.entries.entries.len() == 0
    }
}

impl Default for ClojureDocs {
    fn default() -> (r: Self)
        ensures
            r@ == Seq::<(Seq<char>, EntryView)>::empty(),
    {
        ClojureDocs::new()
    }
}

/// Every entry is found under its own namespace and name.
pub proof fn law_entries_stand_under_their_names(vars: Seq<RawView>, n: nat, fqn: Seq<char>)
    requires
        n <= vars.len(),
    ensures
        dict_get(entries_of(vars, n), fqn) matches Some(e) ==> qualify(e.ns, e.name) == fqn,
    decreases n,
{
    if n > 0 {
        law_entries_stand_under_their_names(vars, (n - 1) as nat, fqn);
        match entry_of_var(vars[n - 1]) {
            Some(e) => {
                crate::collect::law_dict_get_after_put(
                    entries_of(vars, (n - 1) as nat),
                    qualify(e.ns, e.name),
                    e,
                    fqn,
                );
            },
            None => {},
        }
    }
}

/// Whether an entry has a name and a namespace, brackets at its argument lists, and a page
/// on the site.
pub open spec fn is_entry(e: EntryView) -> bool {
    &&& e.ns.len() > 0
    &&& e.name.len() > 0
    &&& forall|i: int|
        0 <= i < e.arglists.len() ==> (#[trigger] e.arglists[i]).len() > 0 && e.arglists[i][0]
            == '['
    &&& SITE@.is_prefix_of(e.url)
}

/// Every entry has a name and a namespace, brackets at its argument lists, and a page on
/// the site.
pub proof fn law_entries_are_whole(vars: Seq<RawView>, n: nat, fqn: Seq<char>)
    requires
        n <= vars.len(),
    ensures
        dict_get(entries_of(vars, n), fqn) matches Some(e) ==> {
            &&& is_entry(e)
            &&& fqn == e.ns + "/"@ + e.name
            &&& entries_of(vars, n).len() > 0
        },
    decreases n,
{
    law_entries_stand_under_their_names(vars, n, fqn);
    if n > 0 {
        law_entries_are_whole(vars, (n - 1) as nat, fqn);
        match entry_of_var(vars[n - 1]) {
            Some(e) => {
                crate::collect::law_dict_get_after_put(
                    entries_of(vars, (n - 1) as nat),
                    qualify(e.ns, e.name),
                    e,
                    fqn,
                );
                lemma_var_is_whole(vars[n - 1]);
            },
            None => {},
        }
    }
}

proof fn lemma_var_is_whole(v: RawView)
    ensures
        entry_of_var(v) matches Some(e) ==> is_entry(e),
{
    reveal_strlit("[");
    if let Some(e) = entry_of_var(v) {
        assert forall|i: int| 0 <= i < e.arglists.len() implies (#[trigger] e.arglists[i]).len()
            > 0 && e.arglists[i][0] == '[' by {
            assert(e.arglists[i] == bracketed(v.arglists[i]));
        }
        assert(SITE@.is_prefix_of(e.url)) by {
            assert(e.url.take(SITE@.len() as int) =~= SITE@);
        }
    }
}

/// The export's path in the options of an editor: `clojuredocs.path`.
pub open spec fn path_in(options: JsonView) -> Option<Seq<char>> {
    match field_of(options, "clojuredocs"@) {
        Some(docs) => text_in(docs, "path"@),
        None => None,
    }
}

/// The export's path in the options of an editor.
pub fn path_in_options(options: &Json) -> (r: Option<String>)
    ensures
        r.deep_view() == path_in(options@),
{
    match field(options, "clojuredocs") {
        Some(docs) => text_field(docs, "path"),
        None => None,
    }
}

/// The export's path in the options that an editor sent.
pub fn path_from_init_options(options: &serde_json::Value) -> (r: Option<String>)
    ensures
        r.deep_view() == path_in(json_of(*options)),
{
    path_in_options(&convert(options))
}

/// Every entry of the export can be looked up by its name: the last of that name counts.
pub proof fn law_every_entry_can_be_looked_up(vars: Seq<RawView>, n: nat, k: int, e: EntryView)
    requires
        n <= vars.len(),
        0 <= k < n,
        entry_of_var(vars[k]) == Some(e),
        forall|j: int| k < j < n ==> (entry_of_var(#[trigger] vars[j]) matches Some(other) ==> qualify(
            other.ns,
            other.name,
        ) != qualify(e.ns, e.name)),
    ensures
        dict_get(entries_of(vars, n), qualify(e.ns, e.name)) == Some(e),
    decreases n,
{
    let before = entries_of(vars, (n - 1) as nat);
    if let Some(last) = entry_of_var(vars[n - 1]) {
        law_dict_get_after_put(before, qualify(last.ns, last.name), last, qualify(e.ns, e.name));
    }
    if k < n - 1 {
        law_every_entry_can_be_looked_up(vars, (n - 1) as nat, k, e);
    }
}

proof fn lemma_present(list: Seq<Option<Seq<char>>>, n: nat, text: Seq<char>)
    requires
        n <= list.len(),
    ensures
        present(list, n).contains(text) <==> exists|k: int|
            0 <= k < n && #[trigger] list[k] == Some(text),
    decreases n,
{
    if n > 0 {
        lemma_present(list, (n - 1) as nat, text);
        let before = present(list, (n - 1) as nat);
        if let Some(last) = list[n - 1] {
            crate::sort::lemma_push_contains(before, last, text);
        }
    } else {
        assert(present(list, n) =~= seq![]);
    }
}

proof fn lemma_related(list: Seq<Option<RefView>>, n: nat, fqn: Seq<char>)
    requires
        n <= list.len(),
    ensures
        related(list, n).contains(fqn) <==> exists|k: int|
            0 <= k < n && refers_to(#[trigger] list[k], fqn),
    decreases n,
{
    if n > 0 {
        lemma_related(list, (n - 1) as nat, fqn);
        let before = related(list, (n - 1) as nat);
        if let Some(RefView { ns: Some(ns), name: Some(name) }) = list[n - 1] {
            crate::sort::lemma_push_contains(before, qualify(ns, name), fqn);
        }
    } else {
        assert(related(list, n) =~= seq![]);
    }
}

/// Whether a reference names the var by both its namespace and its name.
pub open spec fn refers_to(r: Option<RefView>, fqn: Seq<char>) -> bool {
    r matches Some(to) && to.ns matches Some(ns) && to.name matches Some(name) && fqn == ns + "/"@
        + name
}

/// An entry holds what the export says of the var: all its examples, all the vars that it refers to,
/// and the page that it names, or the usual page where it names none.
pub proof fn law_entry_is_what_the_export_says(v: RawView, text: Seq<char>, fqn: Seq<char>)
    ensures
        entry_of_var(v) is Some <==> (v.ns matches Some(ns) && ns.len() > 0) && (v.name matches Some(
            name,
        ) && name.len() > 0),
        entry_of_var(v) matches Some(e) ==> {
            &&& Some(e.ns) == v.ns && Some(e.name) == v.name && e.doc == v.doc && e.added == v.added
            &&& e.arglists.len() == v.arglists.len()
            &&& e.examples.contains(text) <==> exists|k: int|
                0 <= k < v.examples.len() && #[trigger] v.examples[k] == Some(text)
            &&& e.see_alsos.contains(fqn) <==> exists|k: int|
                0 <= k < v.see_alsos.len() && refers_to(#[trigger] v.see_alsos[k], fqn)
            &&& v.href matches Some(href) ==> e.url == "https://clojuredocs.org"@ + href
            &&& v.href is None ==> e.url == "https://clojuredocs.org"@ + ("/"@ + e.ns + "/"@ + e.name)
        },
{
    lemma_present(v.examples, v.examples.len(), text);
    lemma_related(v.see_alsos, v.see_alsos.len(), fqn);
}

}
