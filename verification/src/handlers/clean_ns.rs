//! Which requires of a file nothing uses, and the edits that clean them up.

use vstd::prelude::*;
use crate::chars::{is_whitespace, white_space};
use crate::collect::{contains_str, join_by, joined_by, push_item, push_str, strs};
use crate::handlers::code_action::{find_ns, is_require_clause, ns_index, require_clause};
use crate::handlers::references::lemma_concat_contains;
use crate::index::extractor::{
    qualified, qualified_usages_in, sym_name, sym_name_range, sym_range, sym_text,
};
use crate::index::model::{NsMeta, NsMetaView};
use crate::index::namespaces::{extract_ns, ns_form};
use crate::lsp::{Range, TextEdit, TextEditView};
use crate::syntax::{lemma_children, parse_source, syntax_of, text_at, Form, FormView, Kind};
use crate::text::{chars_of, concat2, get_slice, str_eq, string_of};

verus! {

broadcast use lemma_children;

/// The namespace that a keyword or a namespaced map names.
pub open spec fn own_prefix(f: FormView) -> Option<Seq<char>> {
    if f.kind == Kind::KwdLit {
        match f.namespace {
            Some(p) => Some(p.text),
            None => None,
        }
    } else if f.kind == Kind::NsMapLit {
        match f.prefix {
            Some(p) => if p.kind == Kind::KwdLit {
                match p.name {
                    Some(name) => Some(name.text),
                    None => None,
                }
            } else {
                None
            },
            None => None,
        }
    } else {
        None
    }
}

/// The namespaces that the keywords and namespaced maps in a form name.
pub open spec fn keyword_prefixes(f: FormView) -> Seq<Seq<char>>
    decreases f, f.children.len() + 1,
{
    (match own_prefix(f) {
        Some(p) => seq![p],
        None => seq![],
    }) + keyword_prefixes_in(f, f.children.len())
}

/// The namespaces that the keywords in the first `n` children of a form name.
pub open spec fn keyword_prefixes_in(f: FormView, n: nat) -> Seq<Seq<char>>
    decreases f, n,
{
    if n == 0 || n > f.children.len() {
        seq![]
    } else {
        keyword_prefixes_in(f, (n - 1) as nat) + keyword_prefixes(f.children[n - 1])
    }
}

fn prefix_of(f: &Form) -> (r: Option<String>)
    ensures
        r.deep_view() == own_prefix(f@),
{
    if f.kind == Kind::KwdLit {
        match &f.namespace {
            Some(p) => Some(p.text.clone()),
            None => None,
        }
    } else if f.kind == Kind::NsMapLit {
        match &f.prefix {
            Some(p) => if p.kind == Kind::KwdLit {
                match &p.name {
                    Some(name) => Some(name.text.clone()),
                    None => None,
                }
            } else {
                None
            },
            None => None,
        }
    } else {
        None
    }
}

fn collect_keyword_prefixes(f: &Form, out: &mut Vec<String>)
    ensures
        strs(final(out)@) == strs(old(out)@) + keyword_prefixes(f@),
    decreases f@,
{
    let ghost start = strs(out@);
    if let Some(p) = prefix_of(f) {
        push_str(out, p);
    }
    let ghost before = strs(out@);
    let mut i: usize = 0;
    assert(before + keyword_prefixes_in(f@, 0) =~= before);
    while i < f.children.len()
        invariant
            i <= f.children@.len(),
            strs(out@) == before + keyword_prefixes_in(f@, i as nat),
        decreases f.children@.len() - i,
    {
        assert(decreases_to!(f@ => f@.children[i as int]));
        collect_keyword_prefixes(&f.children[i], out);
        assert(strs(out@) =~= before + keyword_prefixes_in(f@, (i + 1) as nat));
        i += 1;
    }
    assert(strs(out@) =~= start + keyword_prefixes(f@));
}

/// The bare name that a symbol form spells; `None` for a qualified symbol.
pub open spec fn own_bare(f: FormView) -> Option<Seq<char>> {
    if f.kind == Kind::SymLit && f.namespace is None && sym_name(f).len() > 0 {
        Some(sym_name(f))
    } else {
        None
    }
}

/// The bare names in a form.
pub open spec fn bare_names(f: FormView) -> Seq<Seq<char>>
    decreases f, f.children.len() + 1,
{
    (match own_bare(f) {
        Some(name) => seq![name],
        None => seq![],
    }) + bare_names_in(f, f.children.len())
}

/// The bare names in the first `n` children of a form.
pub open spec fn bare_names_in(f: FormView, n: nat) -> Seq<Seq<char>>
    decreases f, n,
{
    if n == 0 || n > f.children.len() {
        seq![]
    } else {
        bare_names_in(f, (n - 1) as nat) + bare_names(f.children[n - 1])
    }
}

/// The bare names in the first `n` top-level forms, but for the form `skip`.
pub open spec fn bare_names_but(root: FormView, skip: nat, n: nat) -> Seq<Seq<char>>
    decreases n,
{
    if n == 0 {
        seq![]
    } else {
        let before = bare_names_but(root, skip, (n - 1) as nat);
        if n - 1 == skip {
            before
        } else {
            before + bare_names(root.children[n - 1])
        }
    }
}

fn collect_bare(f: &Form, out: &mut Vec<String>)
    ensures
        strs(final(out)@) == strs(old(out)@) + bare_names(f@),
    decreases f@,
{
    let ghost start = strs(out@);
    if f.kind == Kind::SymLit && f.namespace.is_none() && !sym_text(f).is_empty() {
        push_str(out, sym_text(f).to_owned());
    }
    let ghost before = strs(out@);
    let mut i: usize = 0;
    assert(before + bare_names_in(f@, 0) =~= before);
    while i < f.children.len()
        invariant
            i <= f.children@.len(),
            strs(out@) == before + bare_names_in(f@, i as nat),
        decreases f.children@.len() - i,
    {
        assert(decreases_to!(f@ => f@.children[i as int]));
        collect_bare(&f.children[i], out);
        assert(strs(out@) =~= before + bare_names_in(f@, (i + 1) as nat));
        i += 1;
    }
    assert(strs(out@) =~= start + bare_names(f@));
}

/// What a file uses: the namespaces and aliases before a slash, and the bare names
/// outside its `ns` form.
pub struct Used {
    pub prefixes: Vec<String>,
    pub bare: Vec<String>,
}

/// What a [`Used`] says.
pub ghost struct UsedView {
    pub prefixes: Seq<Seq<char>>,
    pub bare: Seq<Seq<char>>,
}

impl DeepView for Used {
    type V = UsedView;

    open spec fn deep_view(&self) -> UsedView {
        UsedView { prefixes: strs(self.prefixes@), bare: strs(self.bare@) }
    }
}

/// What a file uses; its `ns` form is the top-level form `k`.
pub open spec fn used_in(root: FormView, k: nat) -> UsedView {
    let usages = qualified(root);
    UsedView {
        prefixes: Seq::new(usages.len(), |i: int| usages[i].prefix) + keyword_prefixes(root),
        bare: bare_names_but(root, k, root.children.len()),
    }
}

/// What a file uses; its `ns` form is the top-level form `k`.
pub fn collect_used(root: &Form, k: usize) -> (r: Used)
    ensures
        r.deep_view() == used_in(root@, k as nat),
{
    let usages = qualified_usages_in(root);
    let ghost uv = usages.deep_view();
    let mut prefixes: Vec<String> = Vec::new();
    let mut i: usize = 0;
    while i < usages.len()
        invariant
            i <= usages@.len(),
            uv == usages.deep_view(),
            strs(prefixes@) =~= Seq::new(i as nat, |j: int| uv[j].prefix),
        decreases usages@.len() - i,
    {
        assert(uv[i as int] == usages@[i as int].deep_view());
        push_str(&mut prefixes, usages[i].prefix.clone());
        i += 1;
    }
    collect_keyword_prefixes(root, &mut prefixes);
    let mut bare: Vec<String> = Vec::new();
    assert(strs(bare@) =~= seq![]);
    let mut j: usize = 0;
    while j < root.children.len()
        invariant
            j <= root.children@.len(),
            strs(bare@) == bare_names_but(root@, k as nat, j as nat),
        decreases root.children@.len() - j,
    {
        if j != k {
            collect_bare(&root.children[j], &mut bare);
        }
        j += 1;
    }
    Used { prefixes, bare }
}

/// What becomes of one spec of a `:require` clause.
#[derive(Clone, Debug)]
pub enum Plan {
    /// It is dropped: nothing uses it, or it stands there twice.
    Remove,
    /// It stays, with this text.
    Keep(String),
}

/// What a [`Plan`] says.
pub ghost enum PlanView {
    Remove,
    Keep(Seq<char>),
}

impl DeepView for Plan {
    type V = PlanView;

    open spec fn deep_view(&self) -> PlanView {
        match self {
            Plan::Remove => PlanView::Remove,
            Plan::Keep(text) => PlanView::Keep(text@),
        }
    }
}

/// What the options of a `[ns …]` spec say: the alias, where `:refer` with a vector
/// stands, and whether everything is referred to.
pub ghost struct Options {
    pub alias: Option<Seq<char>>,
    pub refer: Option<nat>,
    pub refer_all: bool,
}

/// The options from item `i` on, over those before it.
pub open spec fn options_from(spec: FormView, i: nat, o: Options) -> Options
    decreases spec.children.len() + 1 - i,
{
    let items = spec.children;
    if i >= items.len() {
        o
    } else if items[i as int].kind == Kind::KwdLit && items[i as int].text == ":as"@ && i + 1
        < items.len() && items[i as int + 1].kind == Kind::SymLit {
        options_from(spec, i + 2, Options { alias: Some(items[i as int + 1].text), ..o })
    } else if items[i as int].kind == Kind::KwdLit && items[i as int].text == ":refer"@ && i + 1
        < items.len() {
        options_from(
            spec,
            i + 2,
            if items[i as int + 1].kind == Kind::VecLit {
                Options { refer: Some(i), ..o }
            } else if items[i as int + 1].kind == Kind::KwdLit && items[i as int + 1].text
                == ":all"@ {
                Options { refer_all: true, ..o }
            } else {
                o
            },
        )
    } else {
        options_from(spec, i + 1, o)
    }
}

/// The options of a `[ns …]` spec.
pub open spec fn options_of(spec: FormView) -> Options {
    options_from(spec, 1, Options { alias: None, refer: None, refer_all: false })
}

/// Whether the spec has an option whose names are not known here.
pub open spec fn has_unknown_option(spec: FormView) -> bool {
    exists|i: int|
        0 <= i < spec.children.len() && (#[trigger] spec.children[i]).kind == Kind::KwdLit
            && spec.children[i].text != ":as"@ && spec.children[i].text != ":refer"@
            && spec.children[i].text != ":all"@
}

/// The names among the first `n` that a `:refer` vector lists.
pub open spec fn referred_names(vec: FormView, n: nat) -> Seq<Seq<char>>
    decreases n,
{
    if n == 0 {
        seq![]
    } else {
        let before = referred_names(vec, (n - 1) as nat);
        if vec.children[n - 1].kind == Kind::SymLit {
            before.push(vec.children[n - 1].text)
        } else {
            before
        }
    }
}

/// Those of the first `n` names that are used.
pub open spec fn used_names(names: Seq<Seq<char>>, used: Seq<Seq<char>>, n: nat) -> Seq<Seq<char>>
    decreases n,
{
    if n == 0 {
        seq![]
    } else {
        let before = used_names(names, used, (n - 1) as nat);
        if used.contains(names[n - 1]) {
            before.push(names[n - 1])
        } else {
            before
        }
    }
}

/// The names that the spec refers to by name.
pub open spec fn spec_refers(spec: FormView) -> Seq<Seq<char>> {
    match options_of(spec).refer {
        Some(i) => {
            let vec = spec.children[i as int + 1];
            referred_names(vec, vec.children.len())
        },
        None => seq![],
    }
}

/// Where the ASCII white space that ends with the character `i` starts.
pub open spec fn blank_start(cs: Seq<char>, i: nat) -> nat
    decreases i,
{
    if 0 < i <= cs.len() && ascii_blank(cs[i - 1]) {
        blank_start(cs, (i - 1) as nat)
    } else {
        i
    }
}

/// Whether `c` is ASCII white space.
pub open spec fn ascii_blank(c: char) -> bool {
    c == ' ' || c == '\t' || c == '\n' || c == '\u{c}' || c == '\r'
}

/// `cs` without the ASCII white space at its end.
pub open spec fn without_trailing_blanks(cs: Seq<char>) -> Seq<char> {
    cs.take(blank_start(cs, cs.len()) as int)
}

/// Whether the spec has to be kept as it is: it is no `[ns …]`, has options that are not
/// known here, or names nothing, so that it is loaded for its effect.
pub open spec fn untouchable(spec: FormView) -> bool {
    ||| spec.children.len() == 0
    ||| spec.children[0].kind != Kind::SymLit
    ||| has_unknown_option(spec)
    ||| ({
        let o = options_of(spec);
        o.alias is None && o.refer is None && !o.refer_all
    })
}

/// Whether anything that the spec names is used.
pub open spec fn spec_used(spec: FormView, used: UsedView) -> bool {
    let o = options_of(spec);
    let refers = spec_refers(spec);
    ||| used.prefixes.contains(spec.children[0].text)
    ||| (o.alias matches Some(alias) && used.prefixes.contains(alias))
    ||| o.refer_all
    ||| used_names(refers, used.bare, refers.len()).len() > 0
}

/// The text of the spec without the names of its `:refer` vector that are not used.
pub open spec fn pruned(spec: FormView, source: Seq<char>, used: UsedView) -> Seq<char> {
    let refers = spec_refers(spec);
    let kept = used_names(refers, used.bare, refers.len());
    match options_of(spec).refer {
        Some(i) => if kept.len() == refers.len() {
            spec.text
        } else {
            let kwd = spec.children[i as int];
            let vec = spec.children[i as int + 1];
            if kept.len() == 0 {
                without_trailing_blanks(text_at(source, spec.start, kwd.start)) + text_at(
                    source,
                    vec.end,
                    spec.end,
                )
            } else {
                text_at(source, spec.start, vec.start) + "["@ + joined_by(
                    kept,
                    " "@,
                    kept.len(),
                ) + "]"@ + text_at(source, vec.end, spec.end)
            }
        },
        None => spec.text,
    }
}

/// What becomes of a `[ns …]` spec.
pub open spec fn libspec_plan(spec: FormView, source: Seq<char>, used: UsedView) -> PlanView {
    if untouchable(spec) {
        PlanView::Keep(spec.text)
    } else if !spec_used(spec, used) {
        PlanView::Remove
    } else {
        PlanView::Keep(pruned(spec, source, used))
    }
}

struct FoundOptions {
    alias: Option<String>,
    refer: Option<usize>,
    refer_all: bool,
}

fn find_options(spec: &Form) -> (r: FoundOptions)
    ensures
        ({
            let o = options_of(spec@);
            &&& r.alias.deep_view() == o.alias
            &&& r.refer_all == o.refer_all
            &&& match r.refer {
                Some(i) => o.refer == Some(i as nat) && i + 1 < spec@.children.len(),
                None => o.refer is None,
            }
        }),
{
    let mut alias: Option<String> = None;
    let mut refer: Option<usize> = None;
    let mut refer_all = false;
    let len: usize = spec.children.len();
    let mut i: usize = 1;
    if len == 0 {
        return FoundOptions { alias, refer, refer_all };
    }
    while i < len
        invariant
            1 <= i <= len == spec.children@.len(),
            match refer {
                Some(j) => j + 1 < len,
                None => true,
            },
            options_of(spec@) == options_from(
                spec@,
                i as nat,
                Options {
                    alias: alias.deep_view(),
                    refer: match refer {
                        Some(j) => Some(j as nat),
                        None => None,
                    },
                    refer_all,
                },
            ),
        decreases len - i,
    {
        let item = &spec.children[i];
        assert(spec@.children[i as int] == item@);
        if item.kind == Kind::KwdLit && i + 1 < len {
            let next = &spec.children[i + 1];
            assert(spec@.children[i as int + 1] == next@);
            if str_eq(item.text.as_str(), ":as") && next.kind == Kind::SymLit {
                alias = Some(next.text.clone());
                i += 2;
            } else if str_eq(item.text.as_str(), ":refer") {
                if next.kind == Kind::VecLit {
                    refer = Some(i);
                } else if next.kind == Kind::KwdLit && str_eq(next.text.as_str(), ":all") {
                    refer_all = true;
                }
                i += 2;
            } else {
                i += 1;
            }
        } else {
            i += 1;
        }
    }
    FoundOptions { alias, refer, refer_all }
}

fn unknown_option(spec: &Form) -> (r: bool)
    ensures
        r == has_unknown_option(spec@),
{
    let mut i: usize = 0;
    while i < spec.children.len()
        invariant
            i <= spec.children@.len(),
            forall|j: int|
                0 <= j < i ==> !((#[trigger] spec@.children[j]).kind == Kind::KwdLit
                    && spec@.children[j].text != ":as"@ && spec@.children[j].text != ":refer"@
                    && spec@.children[j].text != ":all"@),
        decreases spec.children@.len() - i,
    {
        let item = &spec.children[i];
        assert(spec@.children[i as int] == item@);
        if item.kind == Kind::KwdLit && !str_eq(item.text.as_str(), ":as") && !str_eq(
            item.text.as_str(),
            ":refer",
        ) && !str_eq(item.text.as_str(), ":all") {
            return true;
        }
        i += 1;
    }
    false
}

fn names_in_vector(vec: &Form) -> (r: Vec<String>)
    ensures
        strs(r@) == referred_names(vec@, vec@.children.len()),
{
    let mut out: Vec<String> = Vec::new();
    assert(strs(out@) =~= seq![]);
    let mut i: usize = 0;
    while i < vec.children.len()
        invariant
            i <= vec.children@.len(),
            strs(out@) == referred_names(vec@, i as nat),
        decreases vec.children@.len() - i,
    {
        assert(vec@.children[i as int] == vec.children@[i as int]@);
        if vec.children[i].kind == Kind::SymLit {
            push_str(&mut out, vec.children[i].text.clone());
        }
        i += 1;
    }
    out
}

fn keep_used(names: &Vec<String>, used: &Vec<String>) -> (r: Vec<String>)
    ensures
        strs(r@) == used_names(strs(names@), strs(used@), names@.len()),
{
    let ghost all = strs(names@);
    let mut out: Vec<String> = Vec::new();
    assert(strs(out@) =~= seq![]);
    let mut i: usize = 0;
    while i < names.len()
        invariant
            i <= names@.len(),
            all == strs(names@),
            strs(out@) == used_names(all, strs(used@), i as nat),
        decreases names@.len() - i,
    {
        assert(all[i as int] == names@[i as int]@);
        if contains_str(used, names[i].as_str()) {
            push_str(&mut out, names[i].clone());
        }
        i += 1;
    }
    out
}

fn source_part(source: &str, from: usize, to: usize) -> (r: String)
    ensures
        r@ == text_at(source@, from, to),
{
    match get_slice(source, from, to) {
        Some(part) => part.to_owned(),
        None => {
            let out = String::new();
            assert(out@ =~= Seq::empty());
            out
        },
    }
}

fn trim_blanks(s: &str) -> (r: String)
    ensures
        r@ == without_trailing_blanks(s@),
{
    let chars = chars_of(s);
    let len: usize = chars.len();
    let mut n: usize = len;
    while n > 0 && (chars[n - 1] == ' ' || chars[n - 1] == '\t' || chars[n - 1] == '\n'
        || chars[n - 1] == '\u{c}' || chars[n - 1] == '\r')
        invariant
            n <= len == chars@.len(),
            chars@ == s@,
            blank_start(s@, s@.len()) == blank_start(s@, n as nat),
        decreases n,
    {
        n -= 1;
    }
    let out = string_of(&chars, 0, n);
    assert(out@ =~= s@.take(n as int));
    out
}

fn prune(spec: &Form, source: &str, refer: Option<usize>, refers: &Vec<String>, kept: &Vec<String>) -> (r:
    String)
    requires
        match refer {
            Some(i) => options_of(spec@).refer == Some(i as nat) && i + 1 < spec@.children.len(),
            None => options_of(spec@).refer is None,
        },
        strs(refers@) == spec_refers(spec@),
    ensures
        forall|used: UsedView|
            strs(kept@) == used_names(strs(refers@), used.bare, refers@.len()) ==> r@
                == #[trigger] pruned(spec@, source@, used),
{
    match refer {
        Some(i) => {
            if kept.len() == refers.len() {
                return spec.text.clone();
            }
            let len: usize = spec.children.len();
            assert(i + 1 < len);
            let kwd = &spec.children[i];
            let vec = &spec.children[i + 1];
            assert(spec@.children[i as int] == kwd@);
            assert(spec@.children[i as int + 1] == vec@);
            let tail = source_part(source, vec.end, spec.end);
            if kept.len() == 0 {
                let head = trim_blanks(source_part(source, spec.start, kwd.start).as_str());
                concat2(head.as_str(), tail.as_str())
            } else {
                let mut out = source_part(source, spec.start, vec.start);
                out.append("[");
                out.append(join_by(kept, " ").as_str());
                out.append("]");
                out.append(tail.as_str());
                out
            }
        },
        None => spec.text.clone(),
    }
}

/// What becomes of a `[ns …]` spec.
pub fn plan_libspec(spec: &Form, source: &str, used: &Used) -> (r: Plan)
    ensures
        r.deep_view() == libspec_plan(spec@, source@, used.deep_view()),
{
    let ghost uv = used.deep_view();
    if spec.children.len() == 0 {
        return Plan::Keep(spec.text.clone());
    }
    assert(spec@.children[0] == spec.children@[0]@);
    if spec.children[0].kind != Kind::SymLit || unknown_option(spec) {
        return Plan::Keep(spec.text.clone());
    }
    let o = find_options(spec);
    if o.alias.is_none() && o.refer.is_none() && !o.refer_all {
        return Plan::Keep(spec.text.clone());
    }
    let refers = match o.refer {
        Some(i) => {
            assert(spec@.children[i as int + 1] == spec.children@[i as int + 1]@);
            names_in_vector(&spec.children[i + 1])
        },
        None => Vec::new(),
    };
    assert(strs(refers@) =~= spec_refers(spec@));
    let kept = keep_used(&refers, &used.bare);
    let alias_used = match &o.alias {
        Some(alias) => contains_str(&used.prefixes, alias.as_str()),
        None => false,
    };
    if !contains_str(&used.prefixes, spec.children[0].text.as_str()) && !alias_used
        && !o.refer_all && kept.len() == 0 {
        return Plan::Remove;
    }
    Plan::Keep(prune(spec, source, o.refer, &refers, &kept))
}

/// The words among the first `n` characters that have ended, and the one that goes on.
pub open spec fn word_scan(cs: Seq<char>, n: nat) -> (Seq<Seq<char>>, Seq<char>)
    decreases n,
{
    if n == 0 {
        (seq![], seq![])
    } else {
        let (words, current) = word_scan(cs, (n - 1) as nat);
        if white_space(cs[n - 1]) {
            if current.len() > 0 {
                (words.push(current), seq![])
            } else {
                (words, current)
            }
        } else {
            (words, current.push(cs[n - 1]))
        }
    }
}

/// The words of `cs`.
pub open spec fn words_of(cs: Seq<char>) -> Seq<Seq<char>> {
    let (words, current) = word_scan(cs, cs.len());
    if current.len() > 0 {
        words.push(current)
    } else {
        words
    }
}

/// `cs` with one blank in place of each run of white space.
pub open spec fn respaced(cs: Seq<char>) -> Seq<char> {
    joined_by(words_of(cs), " "@, words_of(cs).len())
}

/// `s` with one blank in place of each run of white space.
pub fn normalize_ws(s: &str) -> (r: String)
    ensures
        r@ == respaced(s@),
{
    let chars = chars_of(s);
    let mut words: Vec<String> = Vec::new();
    let mut current = String::new();
    assert(strs(words@) =~= seq![]);
    assert(current@ =~= seq![]);
    let mut i: usize = 0;
    while i < chars.len()
        invariant
            i <= chars@.len(),
            chars@ == s@,
            (strs(words@), current@) == word_scan(s@, i as nat),
        decreases chars@.len() - i,
    {
        let c = chars[i];
        if is_whitespace(c) {
            if !current.as_str().is_empty() {
                push_str(&mut words, current);
                current = String::new();
                assert(current@ =~= seq![]);
            }
        } else {
            current.push(c);
        }
        i += 1;
    }
    if !current.as_str().is_empty() {
        push_str(&mut words, current);
    }
    join_by(&words, " ")
}

/// What becomes of a spec, and the specs seen with it. A `[ns …]` or a bare namespace
/// that stands there already is dropped; everything else is kept as it is.
pub open spec fn spec_plan(
    spec: FormView,
    source: Seq<char>,
    used: UsedView,
    seen: Seq<Seq<char>>,
) -> (PlanView, Seq<Seq<char>>) {
    let plan = if spec.kind == Kind::VecLit {
        libspec_plan(spec, source, used)
    } else {
        PlanView::Keep(spec.text)
    };
    match plan {
        PlanView::Keep(text) => if spec.kind == Kind::VecLit || spec.kind == Kind::SymLit {
            if seen.contains(respaced(text)) {
                (PlanView::Remove, seen)
            } else {
                (plan, seen.push(respaced(text)))
            }
        } else {
            (plan, seen)
        },
        PlanView::Remove => (plan, seen),
    }
}

/// What becomes of a spec; the specs seen are added to `seen`.
pub fn plan_spec(spec: &Form, source: &str, used: &Used, seen: &mut Vec<String>) -> (r: Plan)
    ensures
        (r.deep_view(), strs(final(seen)@)) == spec_plan(
            spec@,
            source@,
            used.deep_view(),
            strs(old(seen)@),
        ),
{
    let plan = if spec.kind == Kind::VecLit {
        plan_libspec(spec, source, used)
    } else {
        Plan::Keep(spec.text.clone())
    };
    if spec.kind == Kind::VecLit || spec.kind == Kind::SymLit {
        if let Plan::Keep(text) = &plan {
            let key = normalize_ws(text.as_str());
            if contains_str(seen, key.as_str()) {
                return Plan::Remove;
            }
            push_str(seen, key);
        }
    }
    plan
}

/// What becomes of the first `n` specs of a clause, and the specs seen with them. The
/// spec `j` is the child after child `j`.
pub open spec fn clause_plans(
    clause: FormView,
    source: Seq<char>,
    used: UsedView,
    seen: Seq<Seq<char>>,
    n: nat,
) -> (Seq<PlanView>, Seq<Seq<char>>)
    decreases n,
{
    if n == 0 {
        (seq![], seen)
    } else {
        let (plans, now) = clause_plans(clause, source, used, seen, (n - 1) as nat);
        let (plan, after) = spec_plan(clause.children[n as int], source, used, now);
        (plans.push(plan), after)
    }
}

/// Whether the plans change anything.
pub open spec fn changes(clause: FormView, plans: Seq<PlanView>) -> bool {
    exists|j: int|
        0 <= j < plans.len() && #[trigger] plans[j] != PlanView::Keep(clause.children[j + 1].text)
}

/// Whether the plans keep anything.
pub open spec fn keeps(plans: Seq<PlanView>) -> bool {
    exists|j: int| 0 <= j < plans.len() && #[trigger] plans[j] is Keep
}

/// The first `n` specs of the clause as planned, each with what stood before it.
pub open spec fn rebuilt(clause: FormView, source: Seq<char>, plans: Seq<PlanView>, n: nat) -> Seq<
    char,
>
    decreases n,
{
    if n == 0 {
        seq![]
    } else {
        let before = rebuilt(clause, source, plans, (n - 1) as nat);
        match plans[n - 1] {
            PlanView::Keep(text) => before + text_at(
                source,
                clause.children[n - 1].end,
                clause.children[n as int].start,
            ) + text,
            PlanView::Remove => before,
        }
    }
}

/// The edit of the clause `ns.children[k]`, and the specs seen with it. A clause that
/// nothing is left of goes as a whole.
pub open spec fn clause_edit(
    ns: FormView,
    k: nat,
    source: Seq<char>,
    used: UsedView,
    seen: Seq<Seq<char>>,
) -> (Option<TextEditView>, Seq<Seq<char>>) {
    let clause = ns.children[k as int];
    if clause.children.len() < 2 {
        (None, seen)
    } else {
        let n = (clause.children.len() - 1) as nat;
        let (plans, after) = clause_plans(clause, source, used, seen, n);
        (
            if !changes(clause, plans) {
                None
            } else if keeps(plans) {
                Some(
                    TextEditView {
                        range: Range {
                            start: clause.children[0].range.end,
                            end: clause.children.last().range.end,
                        },
                        new_text: rebuilt(clause, source, plans, n),
                    },
                )
            } else if k == 0 {
                None
            } else {
                Some(
                    TextEditView {
                        range: Range {
                            start: ns.children[k - 1].range.end,
                            end: clause.range.end,
                        },
                        new_text: seq![],
                    },
                )
            },
            after,
        )
    }
}

/// The edit of the clause `ns.children[k]`; the specs seen are added to `seen`.
pub fn clean_one_clause(ns: &Form, k: usize, source: &str, used: &Used, seen: &mut Vec<String>) -> (r:
    Option<TextEdit>)
    requires
        k < ns@.children.len(),
    ensures
        (r.deep_view(), strs(final(seen)@)) == clause_edit(
            ns@,
            k as nat,
            source@,
            used.deep_view(),
            strs(old(seen)@),
        ),
{
    let clause = &ns.children[k];
    assert(ns@.children[k as int] == clause@);
    let ghost uv = used.deep_view();
    let ghost before = strs(seen@);
    let len: usize = clause.children.len();
    if len < 2 {
        return None;
    }
    let mut plans: Vec<Plan> = Vec::new();
    assert(plans.deep_view() =~= seq![]);
    let mut changed = false;
    let mut kept = false;
    let mut replacement = String::new();
    assert(replacement@ =~= seq![]);
    let mut j: usize = 0;
    while j + 1 < len
        invariant
            len == clause.children@.len(),
            j + 1 <= len,
            uv == used.deep_view(),
            plans@.len() == j,
            (plans.deep_view(), strs(seen@)) == clause_plans(
                clause@,
                source@,
                uv,
                before,
                j as nat,
            ),
            changed == changes(clause@, plans.deep_view()),
            kept == keeps(plans.deep_view()),
            replacement@ == rebuilt(clause@, source@, plans.deep_view(), j as nat),
        decreases len - j,
    {
        let ghost old_plans = plans.deep_view();
        let prev = &clause.children[j];
        let spec = &clause.children[j + 1];
        assert(clause@.children[j as int] == prev@);
        assert(clause@.children[j as int + 1] == spec@);
        let plan = plan_spec(spec, source, used, seen);
        let ghost pv = plan.deep_view();
        proof {
            lemma_one_more(clause@, source@, old_plans, pv);
        }
        match &plan {
            Plan::Remove => {
                changed = true;
            },
            Plan::Keep(text) => {
                kept = true;
                if !str_eq(text.as_str(), spec.text.as_str()) {
                    changed = true;
                }
                replacement.append(source_part(source, prev.end, spec.start).as_str());
                replacement.append(text.as_str());
            },
        }
        push_item(&mut plans, plan);
        assert(plans.deep_view() == old_plans.push(pv));
        j += 1;
    }
    if !changed {
        return None;
    }
    if !kept {
        if k == 0 {
            return None;
        }
        let prev = &ns.children[k - 1];
        assert(ns@.children[k - 1] == prev@);
        let empty = String::new();
        assert(empty@ =~= seq![]);
        return Some(
            TextEdit { range: Range::new(prev.range.end, clause.range.end), new_text: empty },
        );
    }
    assert(clause@.children[0] == clause.children@[0]@);
    assert(clause@.children[len - 1] == clause.children@[len - 1]@);
    Some(
        TextEdit {
            range: Range::new(
                clause.children[0].range.end,
                clause.children[len - 1].range.end,
            ),
            new_text: replacement,
        },
    )
}

proof fn lemma_same_plans(clause: FormView, source: Seq<char>, a: Seq<PlanView>, b: Seq<PlanView>, n: nat)
    requires
        n <= a.len(),
        n <= b.len(),
        forall|j: int| 0 <= j < n ==> a[j] == b[j],
    ensures
        rebuilt(clause, source, a, n) == rebuilt(clause, source, b, n),
    decreases n,
{
    if n > 0 {
        lemma_same_plans(clause, source, a, b, (n - 1) as nat);
    }
}

proof fn lemma_one_more(clause: FormView, source: Seq<char>, plans: Seq<PlanView>, plan: PlanView)
    ensures
        ({
            let more = plans.push(plan);
            let n = plans.len();
            &&& changes(clause, more) == (changes(clause, plans) || plan != PlanView::Keep(
                clause.children[n as int + 1].text,
            ))
            &&& keeps(more) == (keeps(plans) || plan is Keep)
            &&& rebuilt(clause, source, more, n) == rebuilt(clause, source, plans, n)
        }),
{
    let more = plans.push(plan);
    let n = plans.len();
    lemma_same_plans(clause, source, more, plans, n);
    if changes(clause, plans) {
        let j = choose|j: int|
            0 <= j < plans.len() && #[trigger] plans[j] != PlanView::Keep(
                clause.children[j + 1].text,
            );
        assert(more[j] == plans[j]);
    }
    if keeps(plans) {
        let j = choose|j: int| 0 <= j < plans.len() && #[trigger] plans[j] is Keep;
        assert(more[j] == plans[j]);
    }
    assert(more[n as int] == plan);
    if changes(clause, more) {
        let j = choose|j: int|
            0 <= j < more.len() && #[trigger] more[j] != PlanView::Keep(
                clause.children[j + 1].text,
            );
        if j < n {
            assert(plans[j] == more[j]);
        }
    }
    if keeps(more) {
        let j = choose|j: int| 0 <= j < more.len() && #[trigger] more[j] is Keep;
        if j < n {
            assert(plans[j] == more[j]);
        }
    }
}

/// The edits of the `:require` clauses among the first `n` children of the `ns` form, and
/// the specs seen in them.
pub open spec fn ns_edits(ns: FormView, source: Seq<char>, used: UsedView, n: nat) -> (
    Seq<TextEditView>,
    Seq<Seq<char>>,
)
    decreases n,
{
    if n == 0 {
        (seq![], seq![])
    } else {
        let (edits, seen) = ns_edits(ns, source, used, (n - 1) as nat);
        if require_clause(ns.children[n - 1]) {
            let (edit, after) = clause_edit(ns, (n - 1) as nat, source, used, seen);
            (
                match edit {
                    Some(edit) => edits.push(edit),
                    None => edits,
                },
                after,
            )
        } else {
            (edits, seen)
        }
    }
}

/// The edits that clean the requires of a file; none where it has no `ns` form.
pub open spec fn clean_edits(source: Seq<char>) -> Seq<TextEditView> {
    match syntax_of(source) {
        Some(root) => match ns_index(root, 0) {
            Some(k) => {
                let ns = root.children[k as int];
                ns_edits(ns, source, used_in(root, k), ns.children.len()).0
            },
            None => seq![],
        },
        None => seq![],
    }
}

/// The edits that clean the requires of a file: unused specs and duplicates go, and so
/// do unused names of `:refer`. `None` where nothing changes.
pub fn clean_ns_edits(source: &str) -> (r: Option<Vec<TextEdit>>)
    ensures
        match r {
            Some(edits) => edits.deep_view() == clean_edits(source@) && edits@.len() > 0,
            None => clean_edits(source@).len() == 0,
        },
{
    let root = match parse_source(source) {
        Some(root) => root,
        None => return None,
    };
    let k: usize = match find_ns(&root) {
        Some(k) => k,
        None => return None,
    };
    let ns = &root.children[k];
    assert(root@.children[k as int] == ns@);
    let used = collect_used(&root, k);
    let ghost uv = used.deep_view();
    let mut seen: Vec<String> = Vec::new();
    let mut edits: Vec<TextEdit> = Vec::new();
    assert(strs(seen@) =~= seq![]);
    assert(edits.deep_view() =~= seq![]);
    let mut i: usize = 0;
    while i < ns.children.len()
        invariant
            i <= ns.children@.len(),
            uv == used.deep_view(),
            (edits.deep_view(), strs(seen@)) == ns_edits(ns@, source@, uv, i as nat),
        decreases ns.children@.len() - i,
    {
        assert(ns@.children[i as int] == ns.children@[i as int]@);
        if is_require_clause(&ns.children[i]) {
            if let Some(edit) = clean_one_clause(ns, i, source, &used, &mut seen) {
                push_item(&mut edits, edit);
            }
        }
        i += 1;
    }
    if edits.len() == 0 {
        None
    } else {
        Some(edits)
    }
}

/// A require that a lint reports: the namespace, and where its name stands.
#[derive(Clone, Debug)]
pub struct RequireSite {
    pub namespace: String,
    pub range: Range,
}

/// What a [`RequireSite`] says.
pub ghost struct RequireView {
    pub namespace: Seq<char>,
    pub range: Range,
}

impl DeepView for RequireSite {
    type V = RequireView;

    open spec fn deep_view(&self) -> RequireView {
        RequireView { namespace: self.namespace@, range: self.range }
    }
}

/// The unused specs among the first `n` children of a clause. The file's own namespace is
/// never one.
pub open spec fn unused_in_clause(
    clause: FormView,
    own: Seq<char>,
    source: Seq<char>,
    used: UsedView,
    n: nat,
) -> Seq<RequireView>
    decreases n,
{
    if n == 0 {
        seq![]
    } else {
        let before = unused_in_clause(clause, own, source, used, (n - 1) as nat);
        let spec = clause.children[n - 1];
        if spec.kind == Kind::VecLit && libspec_plan(spec, source, used) is Remove && sym_name(
            spec.children[0],
        ) != own {
            before.push(
                RequireView {
                    namespace: sym_name(spec.children[0]),
                    range: sym_range(spec.children[0]),
                },
            )
        } else {
            before
        }
    }
}

/// The unused specs in the `:require` clauses among the first `n` children of the `ns`
/// form.
pub open spec fn unused_in_ns(
    ns: FormView,
    own: Seq<char>,
    source: Seq<char>,
    used: UsedView,
    n: nat,
) -> Seq<RequireView>
    decreases n,
{
    if n == 0 {
        seq![]
    } else {
        let before = unused_in_ns(ns, own, source, used, (n - 1) as nat);
        let clause = ns.children[n - 1];
        if require_clause(clause) {
            before + unused_in_clause(clause, own, source, used, clause.children.len())
        } else {
            before
        }
    }
}

/// The namespace that an `ns` form declares.
pub open spec fn own_name(ns: FormView) -> Seq<char> {
    ns_form(ns, NsMetaView::blank(""@)).name
}

/// The requires of a file that nothing uses.
pub open spec fn unused_of(source: Seq<char>) -> Seq<RequireView> {
    match syntax_of(source) {
        Some(root) => match ns_index(root, 0) {
            Some(k) => {
                let ns = root.children[k as int];
                unused_in_ns(ns, own_name(ns), source, used_in(root, k), ns.children.len())
            },
            None => seq![],
        },
        None => seq![],
    }
}

fn declared_name(ns: &Form) -> (r: String)
    ensures
        r@ == own_name(ns@),
{
    let mut meta = NsMeta::empty("");
    extract_ns(ns, &mut meta);
    meta.name
}

fn add_unused(out: &mut Vec<RequireSite>, clause: &Form, own: &str, source: &str, used: &Used)
    ensures
        final(out).deep_view() == old(out).deep_view() + unused_in_clause(
            clause@,
            own@,
            source@,
            used.deep_view(),
            clause@.children.len(),
        ),
{
    let ghost before = out.deep_view();
    let ghost uv = used.deep_view();
    let mut i: usize = 0;
    assert(before + seq![] =~= before);
    while i < clause.children.len()
        invariant
            i <= clause.children@.len(),
            uv == used.deep_view(),
            out.deep_view() == before + unused_in_clause(clause@, own@, source@, uv, i as nat),
        decreases clause.children@.len() - i,
    {
        let spec = &clause.children[i];
        assert(clause@.children[i as int] == spec@);
        let ghost done = unused_in_clause(clause@, own@, source@, uv, i as nat);
        if spec.kind == Kind::VecLit {
            if let Plan::Remove = plan_libspec(spec, source, used) {
                assert(spec@.children[0] == spec.children@[0]@);
                let first = &spec.children[0];
                if !str_eq(sym_text(first), own) {
                    push_item(
                        out,
                        RequireSite {
                            namespace: sym_text(first).to_owned(),
                            range: sym_name_range(first),
                        },
                    );
                    let ghost x = out.deep_view().last();
                    assert((before + done).push(x) =~= before + done.push(x));
                }
            }
        }
        i += 1;
    }
}

/// The requires of a file that nothing uses.
pub fn unused_requires(source: &str) -> (r: Vec<RequireSite>)
    ensures
        r.deep_view() == unused_of(source@),
{
    let mut out: Vec<RequireSite> = Vec::new();
    assert(out.deep_view() =~= seq![]);
    let root = match parse_source(source) {
        Some(root) => root,
        None => return out,
    };
    let k: usize = match find_ns(&root) {
        Some(k) => k,
        None => return out,
    };
    let ns = &root.children[k];
    assert(root@.children[k as int] == ns@);
    let used = collect_used(&root, k);
    let own = declared_name(ns);
    let ghost uv = used.deep_view();
    let mut i: usize = 0;
    while i < ns.children.len()
        invariant
            i <= ns.children@.len(),
            uv == used.deep_view(),
            out.deep_view() == unused_in_ns(ns@, own@, source@, uv, i as nat),
        decreases ns.children@.len() - i,
    {
        assert(ns@.children[i as int] == ns.children@[i as int]@);
        if is_require_clause(&ns.children[i]) {
            add_unused(&mut out, &ns.children[i], own.as_str(), source, &used);
        }
        i += 1;
    }
    out
}

/// The symbol that names the namespace of a spec. Reader conditionals name none: their
/// branches exclude each other.
pub open spec fn spec_symbol(spec: FormView) -> Option<FormView> {
    if spec.kind == Kind::SymLit {
        Some(spec)
    } else if spec.kind == Kind::VecLit && spec.children.len() > 0 && spec.children[0].kind
        == Kind::SymLit {
        Some(spec.children[0])
    } else {
        None
    }
}

/// The specs among the first `n` children of a clause whose namespace was required
/// before, and the namespaces seen with them.
pub open spec fn repeated_in_clause(clause: FormView, seen: Seq<Seq<char>>, n: nat) -> (
    Seq<RequireView>,
    Seq<Seq<char>>,
)
    decreases n,
{
    if n == 0 {
        (seq![], seen)
    } else {
        let (before, now) = repeated_in_clause(clause, seen, (n - 1) as nat);
        match spec_symbol(clause.children[n - 1]) {
            Some(sym) => if now.contains(sym_name(sym)) {
                (
                    before.push(
                        RequireView { namespace: sym_name(sym), range: sym_range(sym) },
                    ),
                    now,
                )
            } else {
                (before, now.push(sym_name(sym)))
            },
            None => (before, now),
        }
    }
}

/// The repeated requires in the clauses among the first `n` children of the `ns` form,
/// and the namespaces seen in them.
pub open spec fn repeated_in_ns(ns: FormView, n: nat) -> (Seq<RequireView>, Seq<Seq<char>>)
    decreases n,
{
    if n == 0 {
        (seq![], seq![])
    } else {
        let (before, seen) = repeated_in_ns(ns, (n - 1) as nat);
        let clause = ns.children[n - 1];
        if require_clause(clause) {
            let (more, after) = repeated_in_clause(clause, seen, clause.children.len());
            (before + more, after)
        } else {
            (before, seen)
        }
    }
}

/// The requires of a file whose namespace is required before them.
pub open spec fn repeated_of(source: Seq<char>) -> Seq<RequireView> {
    match syntax_of(source) {
        Some(root) => match ns_index(root, 0) {
            Some(k) => {
                let ns = root.children[k as int];
                repeated_in_ns(ns, ns.children.len()).0
            },
            None => seq![],
        },
        None => seq![],
    }
}

fn add_repeated(out: &mut Vec<RequireSite>, clause: &Form, seen: &mut Vec<String>)
    ensures
        ({
            let (more, after) = repeated_in_clause(
                clause@,
                strs(old(seen)@),
                clause@.children.len(),
            );
            final(out).deep_view() == old(out).deep_view() + more && strs(final(seen)@) == after
        }),
{
    let ghost before = out.deep_view();
    let ghost start = strs(seen@);
    let mut i: usize = 0;
    assert(before + seq![] =~= before);
    while i < clause.children.len()
        invariant
            i <= clause.children@.len(),
            out.deep_view() == before + repeated_in_clause(clause@, start, i as nat).0,
            strs(seen@) == repeated_in_clause(clause@, start, i as nat).1,
        decreases clause.children@.len() - i,
    {
        let spec = &clause.children[i];
        assert(clause@.children[i as int] == spec@);
        let ghost done = repeated_in_clause(clause@, start, i as nat).0;
        let found = if spec.kind == Kind::SymLit {
            Some(spec)
        } else if spec.kind == Kind::VecLit && spec.children.len() > 0 && spec.children[0].kind
            == Kind::SymLit {
            assert(spec@.children[0] == spec.children@[0]@);
            Some(&spec.children[0])
        } else {
            None
        };
        if let Some(sym) = found {
            assert(spec_symbol(spec@) == Some(sym@));
            let name = sym_text(sym);
            if contains_str(seen, name) {
                push_item(
                    out,
                    RequireSite { namespace: name.to_owned(), range: sym_name_range(sym) },
                );
                let ghost x = out.deep_view().last();
                assert((before + done).push(x) =~= before + done.push(x));
            } else {
                push_str(seen, name.to_owned());
            }
        }
        i += 1;
    }
}

/// The requires of a file whose namespace is required before them.
pub fn duplicate_requires(source: &str) -> (r: Vec<RequireSite>)
    ensures
        r.deep_view() == repeated_of(source@),
{
    let mut out: Vec<RequireSite> = Vec::new();
    assert(out.deep_view() =~= seq![]);
    let root = match parse_source(source) {
        Some(root) => root,
        None => return out,
    };
    let k: usize = match find_ns(&root) {
        Some(k) => k,
        None => return out,
    };
    let ns = &root.children[k];
    assert(root@.children[k as int] == ns@);
    let mut seen: Vec<String> = Vec::new();
    assert(strs(seen@) =~= seq![]);
    let mut i: usize = 0;
    while i < ns.children.len()
        invariant
            i <= ns.children@.len(),
            out.deep_view() == repeated_in_ns(ns@, i as nat).0,
            strs(seen@) == repeated_in_ns(ns@, i as nat).1,
        decreases ns.children@.len() - i,
    {
        assert(ns@.children[i as int] == ns.children@[i as int]@);
        if is_require_clause(&ns.children[i]) {
            add_repeated(&mut out, &ns.children[i], &mut seen);
        }
        i += 1;
    }
    out
}

proof fn lemma_used_names(names: Seq<Seq<char>>, used: Seq<Seq<char>>, n: nat)
    requires
        n <= names.len(),
    ensures
        forall|i: int|
            0 <= i < n && used.contains(#[trigger] names[i]) ==> used_names(
                names,
                used,
                n,
            ).len() > 0,
    decreases n,
{
    if n > 0 {
        lemma_used_names(names, used, (n - 1) as nat);
    }
}

/// Cleaning drops a spec only where nothing that it names is used: neither its namespace
/// in full, nor its alias, nor a name that it refers to. A spec that is loaded for its
/// effect, or has options that are not known here, stays as it is.
pub proof fn law_only_unused_specs_go(spec: FormView, source: Seq<char>, used: UsedView)
    requires
        libspec_plan(spec, source, used) is Remove,
    ensures
        !has_unknown_option(spec),
        options_of(spec).alias is Some || options_of(spec).refer is Some,
        !used.prefixes.contains(spec.children[0].text),
        options_of(spec).alias matches Some(alias) ==> !used.prefixes.contains(alias),
        !options_of(spec).refer_all,
        forall|i: int|
            0 <= i < spec_refers(spec).len() ==> !used.bare.contains(
                #[trigger] spec_refers(spec)[i],
            ),
{
    let refers = spec_refers(spec);
    lemma_used_names(refers, used.bare, refers.len());
}

/// A spec that names something used is not dropped for want of use.
pub proof fn law_used_specs_stay(spec: FormView, source: Seq<char>, used: UsedView)
    requires
        spec_used(spec, used),
    ensures
        libspec_plan(spec, source, used) is Keep,
{
}

/// A spec whose names are all used stays as it is written.
pub proof fn law_fully_used_specs_stay_verbatim(spec: FormView, source: Seq<char>, used: UsedView)
    requires
        spec_used(spec, used),
        forall|i: int|
            0 <= i < spec_refers(spec).len() ==> used.bare.contains(
                #[trigger] spec_refers(spec)[i],
            ),
    ensures
        libspec_plan(spec, source, used) == PlanView::Keep(spec.text),
{
    let refers = spec_refers(spec);
    lemma_all_used(refers, used.bare, refers.len());
}

proof fn lemma_all_used(names: Seq<Seq<char>>, used: Seq<Seq<char>>, n: nat)
    requires
        n <= names.len(),
        forall|i: int| 0 <= i < names.len() ==> used.contains(#[trigger] names[i]),
    ensures
        used_names(names, used, n).len() == n,
    decreases n,
{
    if n > 0 {
        lemma_all_used(names, used, (n - 1) as nat);
        assert(used.contains(names[n - 1]));
    }
}

/// The lint and the action agree: what is reported as unused is what cleaning would drop.
pub proof fn law_reported_requires_would_be_dropped(
    clause: FormView,
    own: Seq<char>,
    source: Seq<char>,
    used: UsedView,
    n: nat,
    i: int,
)
    requires
        n <= clause.children.len(),
        0 <= i < unused_in_clause(clause, own, source, used, n).len(),
    ensures
        exists|j: int|
            0 <= j < n && (#[trigger] clause.children[j]).kind == Kind::VecLit && libspec_plan(
                clause.children[j],
                source,
                used,
            ) is Remove && sym_name(clause.children[j].children[0]) == unused_in_clause(
                clause,
                own,
                source,
                used,
                n,
            )[i].namespace,
        unused_in_clause(clause, own, source, used, n)[i].namespace != own,
    decreases n,
{
    let before = unused_in_clause(clause, own, source, used, (n - 1) as nat);
    let after = unused_in_clause(clause, own, source, used, n);
    if i < before.len() {
        law_reported_requires_would_be_dropped(clause, own, source, used, (n - 1) as nat, i);
        assert(after[i] == before[i]);
        let j = choose|j: int|
            0 <= j < n - 1 && (#[trigger] clause.children[j]).kind == Kind::VecLit
                && libspec_plan(clause.children[j], source, used) is Remove && sym_name(
                clause.children[j].children[0],
            ) == before[i].namespace;
        assert(clause.children[j].kind == Kind::VecLit);
    } else {
        assert(clause.children[n - 1].kind == Kind::VecLit);
    }
}

/// The specs of the `:require` clauses among the first `n` children of the `ns` form.
pub open spec fn specs_in(ns: FormView, n: nat) -> Seq<FormView>
    decreases n,
{
    if n == 0 {
        seq![]
    } else {
        let before = specs_in(ns, (n - 1) as nat);
        let clause = ns.children[n - 1];
        if require_clause(clause) && clause.children.len() >= 2 {
            before + clause.children.skip(1)
        } else {
            before
        }
    }
}

/// The text that is planned for a spec, before duplicates are dropped.
pub open spec fn planned(spec: FormView, source: Seq<char>, used: UsedView) -> PlanView {
    if spec.kind == Kind::VecLit {
        libspec_plan(spec, source, used)
    } else {
        PlanView::Keep(spec.text)
    }
}

/// Whether a second spec of the same text is dropped.
pub open spec fn is_keyed(spec: FormView) -> bool {
    spec.kind == Kind::VecLit || spec.kind == Kind::SymLit
}

/// Those of the first `n` specs that stay, and the specs seen with them.
pub open spec fn kept_of(specs: Seq<FormView>, source: Seq<char>, used: UsedView, n: nat) -> (
    Seq<FormView>,
    Seq<Seq<char>>,
)
    decreases n,
{
    if n == 0 {
        (seq![], seq![])
    } else {
        let (kept, seen) = kept_of(specs, source, used, (n - 1) as nat);
        let (plan, after) = spec_plan(specs[n - 1], source, used, seen);
        (
            if plan is Keep {
                kept.push(specs[n - 1])
            } else {
                kept
            },
            after,
        )
    }
}

/// Whether `after` reads as the text that is planned for `spec`: it has that text, and
/// names what `spec` names, but for the unused names of `:refer`. A spec that has to be
/// kept as it is still has to be.
pub open spec fn reads_as_planned(
    spec: FormView,
    source: Seq<char>,
    used: UsedView,
    after: FormView,
) -> bool {
    &&& after.kind == spec.kind
    &&& planned(spec, source, used) == PlanView::Keep(after.text)
    &&& spec.kind == Kind::VecLit ==> if untouchable(spec) {
        untouchable(after)
    } else {
        let refers = spec_refers(spec);
        &&& after.children.len() > 0
        &&& after.children[0].text == spec.children[0].text
        &&& options_of(after).alias == options_of(spec).alias
        &&& options_of(after).refer_all == options_of(spec).refer_all
        &&& spec_refers(after) == used_names(refers, used.bare, refers.len())
    }
}

/// Whether the specs of the `ns` form `after` read as what is kept of those of `ns`.
pub open spec fn reads_as_cleaned(
    ns: FormView,
    source: Seq<char>,
    used: UsedView,
    after: FormView,
) -> bool {
    let specs = specs_in(ns, ns.children.len());
    let kept = kept_of(specs, source, used, specs.len()).0;
    let now = specs_in(after, after.children.len());
    &&& now.len() == kept.len()
    &&& forall|j: int|
        0 <= j < now.len() ==> reads_as_planned(kept[j], source, used, #[trigger] now[j])
}

/// One pass leaves nothing to clean: where the specs of the `ns` form read as what was
/// kept of them, and the file uses what it used, no edit is left.
pub proof fn law_one_pass_cleans(
    ns: FormView,
    source: Seq<char>,
    used: UsedView,
    after: FormView,
    new_source: Seq<char>,
)
    requires
        reads_as_cleaned(ns, source, used, after),
    ensures
        ns_edits(after, new_source, used, after.children.len()).0.len() == 0,
{
    let specs = specs_in(ns, ns.children.len());
    let kept = kept_of(specs, source, used, specs.len()).0;
    let now = specs_in(after, after.children.len());
    lemma_kept_differ(specs, source, used, specs.len());
    assert forall|j: int| 0 <= j < now.len() implies planned(
        #[trigger] now[j],
        new_source,
        used,
    ) == PlanView::Keep(now[j].text) by {
        lemma_planned_stays(kept[j], source, used, now[j], new_source);
    }
    assert forall|i: int, j: int|
        0 <= i < j < now.len() && is_keyed(#[trigger] now[i]) && is_keyed(
            #[trigger] now[j],
        ) implies respaced(now[i].text) != respaced(now[j].text) by {
        assert(reads_as_planned(kept[i], source, used, now[i]));
        assert(reads_as_planned(kept[j], source, used, now[j]));
    }
    lemma_nothing_to_clean(after, new_source, used, after.children.len());
}

/// The edits go by the same pass: it takes the specs of all clauses in order.
pub proof fn law_pass_takes_specs_in_order(
    ns: FormView,
    source: Seq<char>,
    used: UsedView,
    n: nat,
)
    requires
        n <= ns.children.len(),
    ensures
        ns_edits(ns, source, used, n).1 == kept_of(
            specs_in(ns, n),
            source,
            used,
            specs_in(ns, n).len(),
        ).1,
    decreases n,
{
    if n > 0 {
        law_pass_takes_specs_in_order(ns, source, used, (n - 1) as nat);
        let clause = ns.children[n - 1];
        let before = specs_in(ns, (n - 1) as nat);
        let all = specs_in(ns, n);
        if require_clause(clause) && clause.children.len() >= 2 {
            let m = (clause.children.len() - 1) as nat;
            lemma_same_kept(before, all, source, used, before.len());
            lemma_clause_kept(clause, all, source, used, before.len(), m);
            assert(all.len() == before.len() + m);
        }
    }
}

proof fn lemma_same_kept(
    a: Seq<FormView>,
    b: Seq<FormView>,
    source: Seq<char>,
    used: UsedView,
    n: nat,
)
    requires
        n <= a.len(),
        n <= b.len(),
        forall|k: int| 0 <= k < n ==> a[k] == b[k],
    ensures
        kept_of(a, source, used, n) == kept_of(b, source, used, n),
    decreases n,
{
    if n > 0 {
        lemma_same_kept(a, b, source, used, (n - 1) as nat);
    }
}

proof fn lemma_clause_kept(
    clause: FormView,
    all: Seq<FormView>,
    source: Seq<char>,
    used: UsedView,
    from: nat,
    m: nat,
)
    requires
        m < clause.children.len(),
        from + m <= all.len(),
        forall|k: int| 0 <= k < m ==> all[from + k] == #[trigger] clause.children[k + 1],
    ensures
        clause_plans(clause, source, used, kept_of(all, source, used, from).1, m).1 == kept_of(
            all,
            source,
            used,
            from + m,
        ).1,
    decreases m,
{
    if m > 0 {
        lemma_clause_kept(clause, all, source, used, from, (m - 1) as nat);
        assert(all[from + m - 1] == clause.children[(m - 1) as int + 1]);
    }
}

proof fn lemma_used_names_stay(names: Seq<Seq<char>>, used: Seq<Seq<char>>, n: nat)
    requires
        n <= names.len(),
    ensures
        used_names(names, used, n).len() <= n,
        forall|k: int|
            0 <= k < used_names(names, used, n).len() ==> used.contains(
                #[trigger] used_names(names, used, n)[k],
            ),
    decreases n,
{
    if n > 0 {
        lemma_used_names_stay(names, used, (n - 1) as nat);
    }
}

proof fn lemma_planned_stays(
    spec: FormView,
    source: Seq<char>,
    used: UsedView,
    after: FormView,
    new_source: Seq<char>,
)
    requires
        reads_as_planned(spec, source, used, after),
    ensures
        planned(after, new_source, used) == PlanView::Keep(after.text),
{
    if spec.kind == Kind::VecLit && !untouchable(spec) {
        let refers = spec_refers(spec);
        let left = spec_refers(after);
        lemma_used_names_stay(refers, used.bare, refers.len());
        lemma_all_used(left, used.bare, left.len());
    }
}

proof fn lemma_kept_differ(specs: Seq<FormView>, source: Seq<char>, used: UsedView, n: nat)
    requires
        n <= specs.len(),
    ensures
        forall|i: int|
            0 <= i < kept_of(specs, source, used, n).0.len() && is_keyed(
                #[trigger] kept_of(specs, source, used, n).0[i],
            ) ==> kept_of(specs, source, used, n).1.contains(
                respaced(planned(kept_of(specs, source, used, n).0[i], source, used)->Keep_0),
            ),
        forall|i: int, j: int|
            0 <= i < j < kept_of(specs, source, used, n).0.len() && is_keyed(
                #[trigger] kept_of(specs, source, used, n).0[i],
            ) && is_keyed(#[trigger] kept_of(specs, source, used, n).0[j]) ==> respaced(
                planned(kept_of(specs, source, used, n).0[i], source, used)->Keep_0,
            ) != respaced(planned(kept_of(specs, source, used, n).0[j], source, used)->Keep_0),
    decreases n,
{
    if n > 0 {
        lemma_kept_differ(specs, source, used, (n - 1) as nat);
        let (kept, seen) = kept_of(specs, source, used, (n - 1) as nat);
        let (now, after) = kept_of(specs, source, used, n);
        let last = specs[n - 1];
        let (plan, _) = spec_plan(last, source, used, seen);
        let key = respaced(planned(last, source, used)->Keep_0);
        assert forall|i: int| 0 <= i < now.len() && is_keyed(#[trigger] now[i]) implies after.contains(
            respaced(planned(now[i], source, used)->Keep_0),
        ) by {
            let x = respaced(planned(now[i], source, used)->Keep_0);
            crate::sort::lemma_push_contains(seen, key, x);
            if i < kept.len() {
                assert(now[i] == kept[i]);
            }
        }
        assert forall|i: int, j: int|
            0 <= i < j < now.len() && is_keyed(#[trigger] now[i]) && is_keyed(
                #[trigger] now[j],
            ) implies respaced(planned(now[i], source, used)->Keep_0) != respaced(
            planned(now[j], source, used)->Keep_0,
        ) by {
            assert(now[i] == kept[i]);
            if j < kept.len() {
                assert(now[j] == kept[j]);
            }
        }
    }
}

/// The texts of the first `n` specs that a second spec may not repeat.
pub open spec fn keys_of(specs: Seq<FormView>, n: nat) -> Seq<Seq<char>>
    decreases n,
{
    if n == 0 {
        seq![]
    } else {
        let before = keys_of(specs, (n - 1) as nat);
        if is_keyed(specs[n - 1]) {
            before.push(respaced(specs[n - 1].text))
        } else {
            before
        }
    }
}

/// Whether each spec is planned as it is, and none repeats another.
pub open spec fn all_stay(specs: Seq<FormView>, source: Seq<char>, used: UsedView) -> bool {
    &&& forall|j: int|
        0 <= j < specs.len() ==> planned(#[trigger] specs[j], source, used) == PlanView::Keep(
            specs[j].text,
        )
    &&& forall|i: int, j: int|
        0 <= i < j < specs.len() && is_keyed(#[trigger] specs[i]) && is_keyed(#[trigger] specs[j])
            ==> respaced(specs[i].text) != respaced(specs[j].text)
}

proof fn lemma_key_is_new(specs: Seq<FormView>, n: nat, j: int)
    requires
        n <= j < specs.len(),
        is_keyed(specs[j]),
        forall|a: int, b: int|
            0 <= a < b < specs.len() && is_keyed(#[trigger] specs[a]) && is_keyed(
                #[trigger] specs[b],
            ) ==> respaced(specs[a].text) != respaced(specs[b].text),
    ensures
        !keys_of(specs, n).contains(respaced(specs[j].text)),
    decreases n,
{
    if n > 0 {
        lemma_key_is_new(specs, (n - 1) as nat, j);
        crate::sort::lemma_push_contains(
            keys_of(specs, (n - 1) as nat),
            respaced(specs[n - 1].text),
            respaced(specs[j].text),
        );
    }
}

proof fn lemma_clause_stays(
    clause: FormView,
    all: Seq<FormView>,
    source: Seq<char>,
    used: UsedView,
    from: nat,
    m: nat,
)
    requires
        m < clause.children.len(),
        from + m <= all.len(),
        forall|k: int| 0 <= k < m ==> all[from + k] == #[trigger] clause.children[k + 1],
        all_stay(all, source, used),
    ensures
        ({
            let (plans, seen) = clause_plans(clause, source, used, keys_of(all, from), m);
            &&& seen == keys_of(all, from + m)
            &&& plans.len() == m
            &&& !changes(clause, plans)
        }),
    decreases m,
{
    if m > 0 {
        lemma_clause_stays(clause, all, source, used, from, (m - 1) as nat);
        let (before, seen) = clause_plans(
            clause,
            source,
            used,
            keys_of(all, from),
            (m - 1) as nat,
        );
        let (plans, after) = clause_plans(clause, source, used, keys_of(all, from), m);
        let spec = clause.children[(m - 1) as int + 1];
        assert(all[from + m - 1] == spec);
        assert(planned(all[from + m - 1], source, used) == PlanView::Keep(spec.text));
        if is_keyed(spec) {
            lemma_key_is_new(all, (from + m - 1) as nat, from + m - 1);
        }
        let plan = PlanView::Keep(spec.text);
        assert(plans == before.push(plan));
        lemma_one_more(clause, source, before, plan);
    }
}

proof fn lemma_nothing_to_clean(ns: FormView, source: Seq<char>, used: UsedView, n: nat)
    requires
        n <= ns.children.len(),
        all_stay(specs_in(ns, ns.children.len()), source, used),
    ensures
        ns_edits(ns, source, used, n).0.len() == 0,
        ns_edits(ns, source, used, n).1 == keys_of(
            specs_in(ns, ns.children.len()),
            specs_in(ns, n).len(),
        ),
    decreases n,
{
    if n > 0 {
        lemma_nothing_to_clean(ns, source, used, (n - 1) as nat);
        let clause = ns.children[n - 1];
        let all = specs_in(ns, ns.children.len());
        let before = specs_in(ns, (n - 1) as nat);
        lemma_specs_are_prefix(ns, n, ns.children.len());
        if require_clause(clause) && clause.children.len() >= 2 {
            let m = (clause.children.len() - 1) as nat;
            assert forall|k: int| 0 <= k < m implies all[before.len() + k]
                == #[trigger] clause.children[k + 1] by {
                assert(specs_in(ns, n)[before.len() + k] == clause.children.skip(1)[k]);
            }
            lemma_clause_stays(clause, all, source, used, before.len(), m);
        }
    } else {
        assert(keys_of(specs_in(ns, ns.children.len()), 0) =~= seq![]);
    }
}

proof fn lemma_specs_are_prefix(ns: FormView, n: nat, total: nat)
    requires
        n <= total <= ns.children.len(),
    ensures
        specs_in(ns, n).len() <= specs_in(ns, total).len(),
        forall|k: int| 0 <= k < specs_in(ns, n).len() ==> specs_in(ns, total)[k] == specs_in(ns, n)[k],
    decreases total,
{
    if n < total {
        lemma_specs_are_prefix(ns, n, (total - 1) as nat);
    }
}

/// Whether the form that the path leads to is a keyword of that namespace, or a map whose keys
/// are given it.
pub open spec fn prefix_stands(f: FormView, path: Seq<int>, name: Seq<char>) -> bool
    decreases path.len(),
{
    if path.len() == 0 {
        own_prefix(f) == Some(name)
    } else {
        0 <= path[0] < f.children.len() && prefix_stands(
            f.children[path[0]],
            path.drop_first(),
            name,
        )
    }
}

proof fn lemma_keyword_prefixes_stand(f: FormView, name: Seq<char>) -> (path: Seq<int>)
    requires
        keyword_prefixes(f).contains(name),
    ensures
        prefix_stands(f, path, name),
    decreases f, f.children.len() + 1,
{
    if own_prefix(f) == Some(name) {
        Seq::empty()
    } else {
        let mine = match own_prefix(f) {
            Some(p) => seq![p],
            None => seq![],
        };
        lemma_concat_contains(mine, keyword_prefixes_in(f, f.children.len()), name);
        lemma_keyword_prefixes_in_stand(f, f.children.len(), name)
    }
}

proof fn lemma_keyword_prefixes_in_stand(f: FormView, n: nat, name: Seq<char>) -> (path: Seq<int>)
    requires
        keyword_prefixes_in(f, n).contains(name),
    ensures
        prefix_stands(f, path, name),
    decreases f, n,
{
    let before = keyword_prefixes_in(f, (n - 1) as nat);
    lemma_concat_contains(before, keyword_prefixes(f.children[n - 1]), name);
    if before.contains(name) {
        lemma_keyword_prefixes_in_stand(f, (n - 1) as nat, name)
    } else {
        let rest = lemma_keyword_prefixes_stand(f.children[n - 1], name);
        assert((seq![n - 1] + rest).drop_first() =~= rest);
        seq![n - 1] + rest
    }
}

proof fn lemma_keyword_prefixes_hold(f: FormView, path: Seq<int>, name: Seq<char>)
    requires
        prefix_stands(f, path, name),
    ensures
        keyword_prefixes(f).contains(name),
    decreases path.len(),
{
    let mine = match own_prefix(f) {
        Some(p) => seq![p],
        None => seq![],
    };
    lemma_concat_contains(mine, keyword_prefixes_in(f, f.children.len()), name);
    if path.len() == 0 {
        assert(mine[0] == name);
    } else {
        lemma_keyword_prefixes_hold(f.children[path[0]], path.drop_first(), name);
        lemma_keyword_prefixes_in_hold(f, f.children.len(), path[0], name);
    }
}

proof fn lemma_keyword_prefixes_in_hold(f: FormView, n: nat, i: int, name: Seq<char>)
    requires
        0 <= i < n <= f.children.len(),
        keyword_prefixes(f.children[i]).contains(name),
    ensures
        keyword_prefixes_in(f, n).contains(name),
    decreases n,
{
    let before = keyword_prefixes_in(f, (n - 1) as nat);
    lemma_concat_contains(before, keyword_prefixes(f.children[n - 1]), name);
    if i < n - 1 {
        lemma_keyword_prefixes_in_hold(f, (n - 1) as nat, i, name);
    }
}

/// Whether the form that the path leads to is the unqualified symbol of that name.
pub open spec fn bare_stands(f: FormView, path: Seq<int>, name: Seq<char>) -> bool
    decreases path.len(),
{
    if path.len() == 0 {
        own_bare(f) == Some(name)
    } else {
        0 <= path[0] < f.children.len() && bare_stands(
            f.children[path[0]],
            path.drop_first(),
            name,
        )
    }
}

proof fn lemma_bare_names_stand(f: FormView, name: Seq<char>) -> (path: Seq<int>)
    requires
        bare_names(f).contains(name),
    ensures
        bare_stands(f, path, name),
    decreases f, f.children.len() + 1,
{
    if own_bare(f) == Some(name) {
        Seq::empty()
    } else {
        let mine = match own_bare(f) {
            Some(p) => seq![p],
            None => seq![],
        };
        lemma_concat_contains(mine, bare_names_in(f, f.children.len()), name);
        lemma_bare_names_in_stand(f, f.children.len(), name)
    }
}

proof fn lemma_bare_names_in_stand(f: FormView, n: nat, name: Seq<char>) -> (path: Seq<int>)
    requires
        bare_names_in(f, n).contains(name),
    ensures
        bare_stands(f, path, name),
    decreases f, n,
{
    let before = bare_names_in(f, (n - 1) as nat);
    lemma_concat_contains(before, bare_names(f.children[n - 1]), name);
    if before.contains(name) {
        lemma_bare_names_in_stand(f, (n - 1) as nat, name)
    } else {
        let rest = lemma_bare_names_stand(f.children[n - 1], name);
        assert((seq![n - 1] + rest).drop_first() =~= rest);
        seq![n - 1] + rest
    }
}

proof fn lemma_bare_names_hold(f: FormView, path: Seq<int>, name: Seq<char>)
    requires
        bare_stands(f, path, name),
    ensures
        bare_names(f).contains(name),
    decreases path.len(),
{
    let mine = match own_bare(f) {
        Some(p) => seq![p],
        None => seq![],
    };
    lemma_concat_contains(mine, bare_names_in(f, f.children.len()), name);
    if path.len() == 0 {
        assert(mine[0] == name);
    } else {
        lemma_bare_names_hold(f.children[path[0]], path.drop_first(), name);
        lemma_bare_names_in_hold(f, f.children.len(), path[0], name);
    }
}

proof fn lemma_bare_names_in_hold(f: FormView, n: nat, i: int, name: Seq<char>)
    requires
        0 <= i < n <= f.children.len(),
        bare_names(f.children[i]).contains(name),
    ensures
        bare_names_in(f, n).contains(name),
    decreases n,
{
    let before = bare_names_in(f, (n - 1) as nat);
    lemma_concat_contains(before, bare_names(f.children[n - 1]), name);
    if i < n - 1 {
        lemma_bare_names_in_hold(f, (n - 1) as nat, i, name);
    }
}

proof fn lemma_bare_names_but(root: FormView, skip: nat, n: nat, name: Seq<char>)
    requires
        n <= root.children.len(),
    ensures
        bare_names_but(root, skip, n).contains(name) <==> exists|i: int|
            0 <= i < n && i != skip && (#[trigger] bare_names(root.children[i])).contains(name),
    decreases n,
{
    if n > 0 {
        let before = bare_names_but(root, skip, (n - 1) as nat);
        lemma_bare_names_but(root, skip, (n - 1) as nat, name);
        lemma_concat_contains(before, bare_names(root.children[n - 1]), name);
        if exists|i: int|
            0 <= i < n - 1 && i != skip && (#[trigger] bare_names(root.children[i])).contains(name) {
            let i = choose|i: int|
                0 <= i < n - 1 && i != skip && (#[trigger] bare_names(root.children[i])).contains(
                    name,
                );
            assert(bare_names(root.children[i]).contains(name));
        }
        if exists|i: int|
            0 <= i < n && i != skip && (#[trigger] bare_names(root.children[i])).contains(name) {
            let i = choose|i: int|
                0 <= i < n && i != skip && (#[trigger] bare_names(root.children[i])).contains(name);
            if i < n - 1 {
                assert(bare_names(root.children[i]).contains(name));
            }
        }
        assert(bare_names(root.children[n - 1]).contains(name) ==> true);
    } else {
        assert(bare_names_but(root, skip, n) =~= seq![]);
    }
}

/// What a file uses: a namespace or alias, where a qualified symbol or keyword anywhere in it
/// has it in front; a bare name, where a symbol of that name stands anywhere outside the
/// `ns` form.
pub proof fn law_used_is_what_stands_in_the_file(root: FormView, k: nat, name: Seq<char>)
    ensures
        used_in(root, k).prefixes.contains(name) <==> {
            ||| exists|i: int|
                0 <= i < qualified(root).len() && (#[trigger] qualified(root)[i]).prefix == name
            ||| exists|path: Seq<int>| #[trigger] prefix_stands(root, path, name)
        },
        used_in(root, k).bare.contains(name) <==> exists|i: int, path: Seq<int>|
            0 <= i < root.children.len() && i != k && #[trigger] bare_stands(
                root.children[i],
                path,
                name,
            ),
{
    let usages = qualified(root);
    let first = Seq::new(usages.len(), |i: int| usages[i].prefix);
    lemma_concat_contains(first, keyword_prefixes(root), name);
    if first.contains(name) {
        assert(usages[first.index_of(name)].prefix == name);
    }
    if exists|i: int| 0 <= i < usages.len() && (#[trigger] usages[i]).prefix == name {
        let i = choose|i: int| 0 <= i < usages.len() && (#[trigger] usages[i]).prefix == name;
        assert(first[i] == name);
    }
    if keyword_prefixes(root).contains(name) {
        let path = lemma_keyword_prefixes_stand(root, name);
        assert(prefix_stands(root, path, name));
    }
    if exists|path: Seq<int>| #[trigger] prefix_stands(root, path, name) {
        let path = choose|path: Seq<int>| #[trigger] prefix_stands(root, path, name);
        lemma_keyword_prefixes_hold(root, path, name);
    }
    lemma_bare_names_but(root, k, root.children.len(), name);
    if used_in(root, k).bare.contains(name) {
        let i = choose|i: int|
            0 <= i < root.children.len() && i != k && (#[trigger] bare_names(
                root.children[i],
            )).contains(name);
        let path = lemma_bare_names_stand(root.children[i], name);
        assert(bare_stands(root.children[i], path, name));
    }
    if exists|i: int, path: Seq<int>|
        0 <= i < root.children.len() && i != k && #[trigger] bare_stands(
            root.children[i],
            path,
            name,
        ) {
        let (i, path) = choose|i: int, path: Seq<int>|
            0 <= i < root.children.len() && i != k && #[trigger] bare_stands(
                root.children[i],
                path,
                name,
            );
        lemma_bare_names_hold(root.children[i], path, name);
        assert(bare_names(root.children[i]).contains(name));
    }
}

/// The names that stay of those that are referred to are exactly the ones that are used.
pub proof fn law_used_names_stay(names: Seq<Seq<char>>, used: Seq<Seq<char>>, n: nat, name: Seq<char>)
    requires
        n <= names.len(),
    ensures
        used_names(names, used, n).contains(name) <==> used.contains(name) && exists|i: int|
            0 <= i < n && #[trigger] names[i] == name,
    decreases n,
{
    if n > 0 {
        let before = used_names(names, used, (n - 1) as nat);
        law_used_names_stay(names, used, (n - 1) as nat, name);
        crate::sort::lemma_push_contains(before, names[n - 1], name);
        if exists|i: int| 0 <= i < n - 1 && #[trigger] names[i] == name {
            let i = choose|i: int| 0 <= i < n - 1 && #[trigger] names[i] == name;
            assert(names[i] == name);
        }
        assert(names[n - 1] == names[n - 1]);
    } else {
        assert(used_names(names, used, n) =~= seq![]);
    }
}

/// Whether nothing in the file uses the spec: neither its namespace nor its alias nor a name
/// that it refers to, and it does not refer to all.
pub open spec fn nothing_uses(spec: FormView, used: UsedView) -> bool {
    &&& !used.prefixes.contains(spec.children[0].text)
    &&& options_of(spec).alias matches Some(alias) ==> !used.prefixes.contains(alias)
    &&& !options_of(spec).refer_all
    &&& forall|i: int|
        0 <= i < spec_refers(spec).len() ==> !used.bare.contains(#[trigger] spec_refers(spec)[i])
}

/// A spec goes exactly where nothing uses it, it gives the namespace an alias or refers to
/// names of it, and it has no other option: a spec that only loads a namespace stays.
pub proof fn law_specs_go_when_nothing_uses_them(spec: FormView, source: Seq<char>, used: UsedView)
    ensures
        libspec_plan(spec, source, used) is Remove <==> {
            &&& spec.children.len() > 0
            &&& spec.children[0].kind == Kind::SymLit
            &&& forall|i: int|
                0 <= i < spec.children.len() && (#[trigger] spec.children[i]).kind == Kind::KwdLit
                    ==> spec.children[i].text == ":as"@ || spec.children[i].text == ":refer"@
                    || spec.children[i].text == ":all"@
            &&& options_of(spec).alias is Some || options_of(spec).refer is Some
            &&& nothing_uses(spec, used)
        },
{
    let refers = spec_refers(spec);
    let kept = used_names(refers, used.bare, refers.len());
    if kept.len() > 0 {
        law_used_names_stay(refers, used.bare, refers.len(), kept[0]);
        assert(kept.contains(kept[0]));
        let i = choose|i: int| 0 <= i < refers.len() && #[trigger] refers[i] == kept[0];
        assert(used.bare.contains(refers[i]));
    } else {
        assert forall|i: int| 0 <= i < refers.len() implies !used.bare.contains(
            #[trigger] refers[i],
        ) by {
            law_used_names_stay(refers, used.bare, refers.len(), refers[i]);
            if used.bare.contains(refers[i]) {
                assert(kept.contains(refers[i]));
            }
        }
    }
}

/// What a spec says: `:as` gives the alias that follows it, `:refer` the names of the vector that
/// follows it, or all.
pub proof fn law_options_are_read(spec: FormView)
    ensures
        spec.children.len() == 3 && spec.children[1].kind == Kind::KwdLit && spec.children[1].text
            == ":as"@ && spec.children[2].kind == Kind::SymLit ==> options_of(spec) == (Options {
            alias: Some(spec.children[2].text),
            refer: None,
            refer_all: false,
        }),
        spec.children.len() == 3 && spec.children[1].kind == Kind::KwdLit && spec.children[1].text
            == ":refer"@ && spec.children[2].kind == Kind::VecLit ==> options_of(spec) == (Options {
            alias: None,
            refer: Some(1),
            refer_all: false,
        }) && spec_refers(spec) == referred_names(
            spec.children[2],
            spec.children[2].children.len(),
        ),
        spec.children.len() == 5 && spec.children[1].kind == Kind::KwdLit && spec.children[1].text
            == ":as"@ && spec.children[2].kind == Kind::SymLit && spec.children[3].kind
            == Kind::KwdLit && spec.children[3].text == ":refer"@ && spec.children[4].kind
            == Kind::VecLit ==> options_of(spec) == (Options {
            alias: Some(spec.children[2].text),
            refer: Some(3),
            refer_all: false,
        }),
        spec.children.len() == 3 && spec.children[1].kind == Kind::KwdLit && spec.children[1].text
            == ":refer"@ && spec.children[2].kind == Kind::KwdLit && spec.children[2].text
            == ":all"@ ==> options_of(spec).refer_all,
{
    reveal_strlit(":as");
    reveal_strlit(":refer");
    assert(":as"@[1] != ":refer"@[1]);
    reveal_with_fuel(options_from, 4);
}

/// Whether a site is that of the spec at `j` of the clause at `c`, which is an unused spec of a
/// `:require` clause and not of the file's own namespace.
pub open spec fn is_unused_spec(
    ns: FormView,
    own: Seq<char>,
    source: Seq<char>,
    used: UsedView,
    c: int,
    j: int,
    site: RequireView,
) -> bool {
    &&& 0 <= c < ns.children.len()
    &&& require_clause(ns.children[c])
    &&& 0 <= j < ns.children[c].children.len()
    &&& ns.children[c].children[j].kind == Kind::VecLit
    &&& libspec_plan(ns.children[c].children[j], source, used) is Remove
    &&& site.namespace == sym_name(ns.children[c].children[j].children[0])
    &&& site.range == sym_range(ns.children[c].children[j].children[0])
    &&& site.namespace != own
}

proof fn lemma_unused_in_clause(
    ns: FormView,
    own: Seq<char>,
    source: Seq<char>,
    used: UsedView,
    c: int,
    n: nat,
    site: RequireView,
)
    requires
        0 <= c < ns.children.len(),
        require_clause(ns.children[c]),
        n <= ns.children[c].children.len(),
    ensures
        unused_in_clause(ns.children[c], own, source, used, n).contains(site) <==> exists|j: int|
            j < n && #[trigger] is_unused_spec(ns, own, source, used, c, j, site),
    decreases n,
{
    let clause = ns.children[c];
    if n > 0 {
        let before = unused_in_clause(clause, own, source, used, (n - 1) as nat);
        let after = unused_in_clause(clause, own, source, used, n);
        lemma_unused_in_clause(ns, own, source, used, c, (n - 1) as nat, site);
        if after.len() > before.len() {
            crate::sort::lemma_push_contains(before, after.last(), site);
        }
        assert(is_unused_spec(ns, own, source, used, c, n - 1, site) <==> after.len()
            > before.len() && site == after.last());
        if exists|j: int| j < n && #[trigger] is_unused_spec(ns, own, source, used, c, j, site) {
            let j = choose|j: int|
                j < n && #[trigger] is_unused_spec(ns, own, source, used, c, j, site);
            if j < n - 1 {
                assert(before.contains(site));
            }
        }
    } else {
        assert(unused_in_clause(clause, own, source, used, n) =~= seq![]);
    }
}

proof fn lemma_unused_in_ns(
    ns: FormView,
    own: Seq<char>,
    source: Seq<char>,
    used: UsedView,
    n: nat,
    site: RequireView,
)
    requires
        n <= ns.children.len(),
    ensures
        unused_in_ns(ns, own, source, used, n).contains(site) <==> exists|c: int, j: int|
            c < n && #[trigger] is_unused_spec(ns, own, source, used, c, j, site),
    decreases n,
{
    if n > 0 {
        let before = unused_in_ns(ns, own, source, used, (n - 1) as nat);
        let clause = ns.children[n - 1];
        lemma_unused_in_ns(ns, own, source, used, (n - 1) as nat, site);
        if require_clause(clause) {
            let last = unused_in_clause(clause, own, source, used, clause.children.len());
            lemma_concat_contains(before, last, site);
            lemma_unused_in_clause(ns, own, source, used, n - 1, clause.children.len(), site);
            if last.contains(site) {
                let j = choose|j: int|
                    j < clause.children.len() && #[trigger] is_unused_spec(
                        ns,
                        own,
                        source,
                        used,
                        n - 1,
                        j,
                        site,
                    );
                assert(is_unused_spec(ns, own, source, used, n - 1, j, site));
            }
        }
        if exists|c: int, j: int|
            c < n && #[trigger] is_unused_spec(ns, own, source, used, c, j, site) {
            let (c, j) = choose|c: int, j: int|
                c < n && #[trigger] is_unused_spec(ns, own, source, used, c, j, site);
            if c < n - 1 {
                assert(before.contains(site));
            }
        }
    } else {
        assert(unused_in_ns(ns, own, source, used, n) =~= seq![]);
    }
}

/// The requires that are reported as unused are the specs of all `:require` clauses that nothing
/// uses, but for one of the file's own namespace.
pub proof fn law_unused_requires_are_all_reported(
    source: Seq<char>,
    root: FormView,
    k: nat,
    site: RequireView,
)
    requires
        syntax_of(source) == Some(root),
        ns_index(root, 0) == Some(k),
    ensures
        unused_of(source).contains(site) <==> exists|c: int, j: int| #[trigger]
            is_unused_spec(
                root.children[k as int],
                own_name(root.children[k as int]),
                source,
                used_in(root, k),
                c,
                j,
                site,
            ),
{
    let ns = root.children[k as int];
    lemma_unused_in_ns(ns, own_name(ns), source, used_in(root, k), ns.children.len(), site);
}

/// Whether the spec at `j` of the clause at `c` requires the namespace.
pub open spec fn requires_at(ns: FormView, c: int, j: int, name: Seq<char>) -> bool {
    &&& 0 <= c < ns.children.len()
    &&& require_clause(ns.children[c])
    &&& 0 <= j < ns.children[c].children.len()
    &&& spec_symbol(ns.children[c].children[j]) matches Some(sym) && sym_name(sym) == name
}

/// Whether a spec that comes before the one at `j` of the clause at `c` requires the namespace.
pub open spec fn required_before(ns: FormView, c: int, j: int, name: Seq<char>) -> bool {
    exists|d: int, i: int|
        (d < c || (d == c && i < j)) && #[trigger] requires_at(ns, d, i, name)
}

/// Whether a site is that of a spec whose namespace was required before.
pub open spec fn is_repeated_spec(ns: FormView, c: int, j: int, site: RequireView) -> bool {
    &&& requires_at(ns, c, j, site.namespace)
    &&& required_before(ns, c, j, site.namespace)
    &&& site.range == sym_range(spec_symbol(ns.children[c].children[j])->0)
}

proof fn lemma_repeated_in_clause(
    ns: FormView,
    c: int,
    seen: Seq<Seq<char>>,
    n: nat,
)
    requires
        0 <= c < ns.children.len(),
        require_clause(ns.children[c]),
        n <= ns.children[c].children.len(),
        forall|name: Seq<char>| #[trigger] seen.contains(name) <==> required_before(ns, c, 0, name),
    ensures
        forall|name: Seq<char>| #[trigger]
            repeated_in_clause(ns.children[c], seen, n).1.contains(name) <==> required_before(
                ns,
                c,
                n as int,
                name,
            ),
        forall|site: RequireView| #[trigger]
            repeated_in_clause(ns.children[c], seen, n).0.contains(site) <==> exists|j: int|
                j < n && #[trigger] is_repeated_spec(ns, c, j, site),
    decreases n,
{
    let clause = ns.children[c];
    let (sites, after) = repeated_in_clause(clause, seen, n);
    if n > 0 {
        let (before, now) = repeated_in_clause(clause, seen, (n - 1) as nat);
        lemma_repeated_in_clause(ns, c, seen, (n - 1) as nat);
        assert forall|name: Seq<char>| #[trigger] after.contains(name) <==> required_before(
            ns,
            c,
            n as int,
            name,
        ) by {
            if let Some(sym) = spec_symbol(clause.children[n - 1]) {
                crate::sort::lemma_push_contains(now, sym_name(sym), name);
            }
            assert(now.contains(name) <==> required_before(ns, c, n - 1, name));
            if required_before(ns, c, n as int, name) {
                let (d, i) = choose|d: int, i: int|
                    (d < c || (d == c && i < n)) && #[trigger] requires_at(ns, d, i, name);
                if !(d == c && i == n - 1) {
                    assert(requires_at(ns, d, i, name));
                    assert(required_before(ns, c, n - 1, name));
                }
            }
            if required_before(ns, c, n - 1, name) {
                let (d, i) = choose|d: int, i: int|
                    (d < c || (d == c && i < n - 1)) && #[trigger] requires_at(ns, d, i, name);
                assert(requires_at(ns, d, i, name));
            }
            if requires_at(ns, c, n - 1, name) {
                assert(required_before(ns, c, n as int, name));
            }
        }
        assert forall|site: RequireView| #[trigger] sites.contains(site) <==> exists|j: int|
            j < n && #[trigger] is_repeated_spec(ns, c, j, site) by {
            assert(now.contains(site.namespace) <==> required_before(ns, c, n - 1, site.namespace));
            if let Some(sym) = spec_symbol(clause.children[n - 1]) {
                crate::sort::lemma_push_contains(
                    before,
                    RequireView { namespace: sym_name(sym), range: sym_range(sym) },
                    site,
                );
            }
            assert(before.contains(site) <==> exists|j: int|
                j < n - 1 && #[trigger] is_repeated_spec(ns, c, j, site));
            if exists|j: int| j < n && #[trigger] is_repeated_spec(ns, c, j, site) {
                let j = choose|j: int| j < n && #[trigger] is_repeated_spec(ns, c, j, site);
                if j < n - 1 {
                    assert(before.contains(site));
                }
            }
            if sites.contains(site) && !before.contains(site) {
                assert(is_repeated_spec(ns, c, n - 1, site));
            }
        }
    } else {
        assert(sites =~= seq![]);
        assert forall|site: RequireView, j: int|
            #[trigger] is_repeated_spec(ns, c, j, site) implies j >= 0 by {
        }
    }
}

proof fn lemma_repeated_in_ns(ns: FormView, n: nat)
    requires
        n <= ns.children.len(),
    ensures
        forall|name: Seq<char>| #[trigger]
            repeated_in_ns(ns, n).1.contains(name) <==> required_before(ns, n as int, 0, name),
        forall|site: RequireView| #[trigger]
            repeated_in_ns(ns, n).0.contains(site) <==> exists|c: int, j: int|
                c < n && #[trigger] is_repeated_spec(ns, c, j, site),
    decreases n,
{
    let (sites, after) = repeated_in_ns(ns, n);
    if n > 0 {
        let (before, seen) = repeated_in_ns(ns, (n - 1) as nat);
        let clause = ns.children[n - 1];
        lemma_repeated_in_ns(ns, (n - 1) as nat);
        if require_clause(clause) {
            let len = clause.children.len();
            lemma_repeated_in_clause(ns, n - 1, seen, len);
            let (more, now) = repeated_in_clause(clause, seen, len);
            assert forall|name: Seq<char>| #[trigger] after.contains(name) <==> required_before(
                ns,
                n as int,
                0,
                name,
            ) by {
                assert(now.contains(name) <==> required_before(ns, n - 1, len as int, name));
                if required_before(ns, n as int, 0, name) {
                    let (d, i) = choose|d: int, i: int|
                        (d < n || (d == n && i < 0)) && #[trigger] requires_at(ns, d, i, name);
                    assert(requires_at(ns, d, i, name));
                    assert(required_before(ns, n - 1, len as int, name));
                }
                if required_before(ns, n - 1, len as int, name) {
                    let (d, i) = choose|d: int, i: int|
                        (d < n - 1 || (d == n - 1 && i < len)) && #[trigger] requires_at(
                            ns,
                            d,
                            i,
                            name,
                        );
                    assert(requires_at(ns, d, i, name));
                }
            }
            assert forall|site: RequireView| #[trigger] sites.contains(site) <==> exists|
                c: int,
                j: int,
            |
                c < n && #[trigger] is_repeated_spec(ns, c, j, site) by {
                lemma_concat_contains(before, more, site);
                assert(more.contains(site) <==> exists|j: int|
                    j < len && #[trigger] is_repeated_spec(ns, n - 1, j, site));
                assert(before.contains(site) <==> exists|c: int, j: int|
                    c < n - 1 && #[trigger] is_repeated_spec(ns, c, j, site));
                if exists|c: int, j: int|
                    c < n && #[trigger] is_repeated_spec(ns, c, j, site) {
                    let (c, j) = choose|c: int, j: int|
                        c < n && #[trigger] is_repeated_spec(ns, c, j, site);
                    if c < n - 1 {
                        assert(before.contains(site));
                    } else {
                        assert(more.contains(site));
                    }
                }
            }
        } else {
            assert forall|name: Seq<char>| #[trigger] after.contains(name) <==> required_before(
                ns,
                n as int,
                0,
                name,
            ) by {
                assert(seen.contains(name) <==> required_before(ns, n - 1, 0, name));
                if required_before(ns, n as int, 0, name) {
                    let (d, i) = choose|d: int, i: int|
                        (d < n || (d == n && i < 0)) && #[trigger] requires_at(ns, d, i, name);
                    assert(requires_at(ns, d, i, name));
                    assert(required_before(ns, n - 1, 0, name));
                }
                if required_before(ns, n - 1, 0, name) {
                    let (d, i) = choose|d: int, i: int|
                        (d < n - 1 || (d == n - 1 && i < 0)) && #[trigger] requires_at(
                            ns,
                            d,
                            i,
                            name,
                        );
                    assert(requires_at(ns, d, i, name));
                }
            }
            assert forall|site: RequireView| #[trigger] sites.contains(site) <==> exists|
                c: int,
                j: int,
            |
                c < n && #[trigger] is_repeated_spec(ns, c, j, site) by {
                assert(before.contains(site) <==> exists|c: int, j: int|
                    c < n - 1 && #[trigger] is_repeated_spec(ns, c, j, site));
                if exists|c: int, j: int|
                    c < n && #[trigger] is_repeated_spec(ns, c, j, site) {
                    let (c, j) = choose|c: int, j: int|
                        c < n && #[trigger] is_repeated_spec(ns, c, j, site);
                    assert(c < n - 1);
                }
            }
        }
    } else {
        assert(sites =~= seq![] && after =~= seq![]);
        assert forall|name: Seq<char>, d: int, i: int|
            #[trigger] requires_at(ns, d, i, name) implies d >= 0 && i >= 0 by {
        }
        assert forall|site: RequireView, c: int, j: int|
            #[trigger] is_repeated_spec(ns, c, j, site) implies c >= 0 by {
        }
    }
}

/// The requires that are reported as repeated are the specs of all `:require` clauses whose
/// namespace a spec before them requires already.
pub proof fn law_repeated_requires_are_all_reported(
    source: Seq<char>,
    root: FormView,
    k: nat,
    site: RequireView,
)
    requires
        syntax_of(source) == Some(root),
        ns_index(root, 0) == Some(k),
    ensures
        repeated_of(source).contains(site) <==> exists|c: int, j: int| #[trigger]
            is_repeated_spec(root.children[k as int], c, j, site),
{
    let ns = root.children[k as int];
    lemma_repeated_in_ns(ns, ns.children.len());
    if exists|c: int, j: int| #[trigger] is_repeated_spec(ns, c, j, site) {
        let (c, j) = choose|c: int, j: int| #[trigger] is_repeated_spec(ns, c, j, site);
        assert(c < ns.children.len());
    }
}

/// What a form on its own uses: a keyword its namespace, a map with a namespace that namespace, and
/// a symbol without a namespace its name; nothing else uses anything.
pub proof fn law_forms_use_what_they_name(f: FormView)
    ensures
        f.kind == Kind::KwdLit ==> (own_prefix(f) is Some <==> f.namespace is Some) && (
        f.namespace matches Some(p) ==> own_prefix(f) == Some(p.text)),
        f.kind == Kind::NsMapLit ==> (f.prefix matches Some(p) ==> p.kind == Kind::KwdLit ==> (
        p.name matches Some(name) ==> own_prefix(f) == Some(name.text))),
        f.kind != Kind::KwdLit && f.kind != Kind::NsMapLit ==> own_prefix(f) is None,
        own_bare(f) is Some <==> f.kind == Kind::SymLit && f.namespace is None && sym_name(f).len()
            > 0,
        f.kind == Kind::SymLit && f.namespace is None && sym_name(f).len() > 0 ==> own_bare(f)
            == Some(sym_name(f)),
{
}

/// The names that a spec refers to are the symbols of its vector.
pub proof fn law_referred_names_are_the_symbols(vec: FormView, n: nat, name: Seq<char>)
    requires
        n <= vec.children.len(),
    ensures
        referred_names(vec, n).contains(name) <==> exists|k: int|
            0 <= k < n && (#[trigger] vec.children[k]).kind == Kind::SymLit && vec.children[k].text
                == name,
    decreases n,
{
    if n > 0 {
        law_referred_names_are_the_symbols(vec, (n - 1) as nat, name);
        let before = referred_names(vec, (n - 1) as nat);
        crate::sort::lemma_push_contains(before, vec.children[n - 1].text, name);
    } else {
        assert(referred_names(vec, n) =~= seq![]);
    }
}

/// The rebuilt specs of a clause are its kept specs, each with what stood before it, one behind the
/// other: the text of each kept one stands in it, and what comes behind a spec comes behind its text.
pub proof fn law_kept_specs_stand_in_the_clause(
    clause: FormView,
    source: Seq<char>,
    plans: Seq<PlanView>,
    n: nat,
    j: int,
    text: Seq<char>,
)
    requires
        n <= plans.len(),
        0 <= j < n,
        plans[j] == PlanView::Keep(text),
    ensures
        ({
            let front = rebuilt(clause, source, plans, j as nat) + text_at(
                source,
                clause.children[j].end,
                clause.children[j + 1].start,
            ) + text;
            front.is_prefix_of(rebuilt(clause, source, plans, n))
        }),
        (forall|k: int| j < k < n ==> (#[trigger] plans[k]) is Remove) ==> rebuilt(
            clause,
            source,
            plans,
            n,
        ) == rebuilt(clause, source, plans, j as nat) + text_at(
            source,
            clause.children[j].end,
            clause.children[j + 1].start,
        ) + text,
    decreases n,
{
    if j < n - 1 {
        law_kept_specs_stand_in_the_clause(clause, source, plans, (n - 1) as nat, j, text);
    }
}

/// Where nothing of a clause is kept its rebuilt specs are empty.
pub proof fn law_removed_specs_leave_nothing(
    clause: FormView,
    source: Seq<char>,
    plans: Seq<PlanView>,
    n: nat,
)
    requires
        n <= plans.len(),
        forall|k: int| 0 <= k < n ==> (#[trigger] plans[k]) is Remove,
    ensures
        rebuilt(clause, source, plans, n) == Seq::<char>::empty(),
    decreases n,
{
    if n > 0 {
        law_removed_specs_leave_nothing(clause, source, plans, (n - 1) as nat);
        assert(plans[n - 1] is Remove);
    }
}

/// The edit of a clause touches its specs alone where some are kept, from behind its keyword to the
/// last of them; where none is kept it takes the whole clause with what stands before it.
pub proof fn law_clause_edit_stays_in_the_clause(
    ns: FormView,
    k: nat,
    source: Seq<char>,
    used: UsedView,
    seen: Seq<Seq<char>>,
)
    requires
        0 < k < ns.children.len(),
        ns.children[k as int].children.len() >= 2,
    ensures
        ({
            let clause = ns.children[k as int];
            let n = (clause.children.len() - 1) as nat;
            let plans = clause_plans(clause, source, used, seen, n).0;
            let edit = clause_edit(ns, k, source, used, seen).0;
            &&& (forall|j: int|
                0 <= j < plans.len() ==> #[trigger] plans[j] == PlanView::Keep(
                    clause.children[j + 1].text,
                )) ==> edit is None
            &&& edit matches Some(e) ==> e.range.end == clause.range.end || e.range.end
                == clause.children.last().range.end
            &&& (exists|j: int|
                0 <= j < plans.len() && #[trigger] plans[j] is Remove) && (exists|j: int|
                0 <= j < plans.len() && #[trigger] plans[j] is Keep) ==> (edit matches Some(e)
                && e.range.start == clause.children[0].range.end && e.range.end
                == clause.children.last().range.end && e.new_text == rebuilt(clause, source, plans, n))
            &&& plans.len() > 0 && (forall|j: int|
                0 <= j < plans.len() ==> #[trigger] plans[j] is Remove) ==> (edit matches Some(e)
                && e.range.start == ns.children[k - 1].range.end && e.range.end == clause.range.end
                && e.new_text == Seq::<char>::empty())
        }),
{
    let clause = ns.children[k as int];
    let n = (clause.children.len() - 1) as nat;
    let plans = clause_plans(clause, source, used, seen, n).0;
    if exists|j: int| 0 <= j < plans.len() && #[trigger] plans[j] is Remove {
        let j = choose|j: int| 0 <= j < plans.len() && #[trigger] plans[j] is Remove;
        assert(plans[j] != PlanView::Keep(clause.children[j + 1].text));
    }
    if plans.len() > 0 && (forall|j: int| 0 <= j < plans.len() ==> #[trigger] plans[j] is Remove) {
        assert(plans[0] is Remove);
        assert(plans[0] != PlanView::Keep(clause.children[1].text));
    }
}

}
