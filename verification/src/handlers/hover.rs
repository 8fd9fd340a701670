//! What the editor shows of the word under the cursor, in Markdown.

use vstd::prelude::*;
use crate::collect::{join_by, joined_by};
use crate::document::{DocumentStore, StoreView};
use crate::handlers::builtins::{SpecialForm, SpecialFormView};
use crate::handlers::completion::ns_of;
use crate::handlers::java::{java_target, resolve_java_word, JavaTargetKind, TargetView};
use crate::handlers::resolve::{resolve_symbol, resolved, ResolvedSymbol, ResolvedView};
use crate::index::jdk::{
    class_named, simple_name, simple_name_of, ClassView, CtorView, JavaClassInfo, JavaCtor, JavaMember,
    MemberView,
};
use crate::index::model::{CoreSymbol, CoreSymbolView, DefKind, Symbol, SymbolView};
use crate::index::symbols::{Index, IndexView};
use crate::lsp::Position;
use crate::text::{concat2, concat3, str_eq};
use crate::words::{trim, trimmed};

verus! {

/// A block of code, a label in italics, and the documentation below, if there is any.
pub open spec fn entry(
    language: Seq<char>,
    code: Seq<char>,
    label: Seq<char>,
    doc: Option<Seq<char>>,
) -> Seq<char> {
    let head = "```"@ + language + "\n"@ + code + "\n```\n*"@ + label + "*\n"@;
    match doc {
        Some(doc) => head + "\n"@ + doc,
        None => head,
    }
}

fn entry_of(language: &str, code: &str, label: &str, doc: Option<&str>) -> (r: String)
    ensures
        r@ == entry(
            language@,
            code@,
            label@,
            match doc {
                Some(doc) => Some(doc@),
                None => None,
            },
        ),
{
    let opened = concat3("```", language, "\n");
    let coded = concat3(opened.as_str(), code, "\n```\n*");
    let head = concat3(coded.as_str(), label, "*\n");
    match doc {
        Some(doc) => concat3(head.as_str(), "\n", doc),
        None => head,
    }
}

/// `text`, where it says anything.
pub open spec fn unless_empty(text: Seq<char>) -> Option<Seq<char>> {
    if text.len() == 0 {
        None
    } else {
        Some(text)
    }
}

/// The parameters behind the name in a call.
pub open spec fn after_name(params: Seq<char>) -> Seq<char> {
    if params.len() == 0 {
        ""@
    } else {
        " "@ + params
    }
}

fn behind_name(params: &str) -> (r: String)
    ensures
        r@ == after_name(params@),
{
    if params.is_empty() {
        "".to_owned()
    } else {
        concat2(" ", params)
    }
}

/// What is shown of a built-in, under a label.
pub open spec fn builtin_entry(c: CoreSymbolView, label: Seq<char>) -> Seq<char> {
    entry("clojure"@, "("@ + c.name + after_name(c.params) + ")"@, label, unless_empty(c.doc))
}

fn builtin_md(c: &CoreSymbol, label: &str) -> (r: String)
    ensures
        r@ == builtin_entry(c.deep_view(), label@),
{
    let params = behind_name(c.params.as_str());
    let called = concat3("(", c.name.as_str(), params.as_str());
    let code = concat2(called.as_str(), ")");
    let doc = if c.doc.as_str().is_empty() {
        None
    } else {
        Some(c.doc.as_str())
    };
    entry_of("clojure", code.as_str(), label, doc)
}

/// What is shown of a function of `clojure.core`.
pub fn format_for_core(sym: &CoreSymbol) -> (r: String)
    ensures
        r@ == builtin_entry(sym.deep_view(), "clojure.core"@),
{
    builtin_md(sym, "clojure.core")
}

/// What is shown of a native function of let-go's core.
pub fn format_for_letgo_native(sym: &CoreSymbol) -> (r: String)
    ensures
        r@ == builtin_entry(sym.deep_view(), "let-go core (native)"@),
{
    builtin_md(sym, "let-go core (native)")
}

/// What is shown of a special form.
pub open spec fn special_form_entry(sf: SpecialFormView) -> Seq<char> {
    entry("clojure"@, sf.usage, "special form"@, unless_empty(sf.doc))
}

/// What is shown of a special form.
pub fn format_for_special_form(sf: &SpecialForm) -> (r: String)
    ensures
        r@ == special_form_entry(sf.deep_view()),
{
    let doc = if sf.doc.is_empty() {
        None
    } else {
        Some(sf.doc)
    };
    entry_of("clojure", sf.usage, "special form", doc)
}

/// The form that makes a definition of a kind.
pub open spec fn kind_name(kind: DefKind) -> Seq<char> {
    match kind {
        DefKind::Def => "def"@,
        DefKind::Defonce => "defonce"@,
        DefKind::Defn => "defn"@,
        DefKind::DefnPrivate => "defn-"@,
        DefKind::Defmacro => "defmacro"@,
        DefKind::Defmulti => "defmulti"@,
        DefKind::Defmethod => "defmethod"@,
        DefKind::Defprotocol => "defprotocol"@,
        DefKind::Defrecord => "defrecord"@,
        DefKind::Deftype => "deftype"@,
        DefKind::Deftest => "deftest"@,
        DefKind::Declare => "declare"@,
        DefKind::IntegrantKey => "defmethod"@,
    }
}

/// The form that makes a definition of a kind.
pub fn defkind_str(kind: DefKind) -> (r: &'static str)
    ensures
        r@ == kind_name(kind),
{
    match kind {
        DefKind::Def => "def",
        DefKind::Defonce => "defonce",
        DefKind::Defn => "defn",
        DefKind::DefnPrivate => "defn-",
        DefKind::Defmacro => "defmacro",
        DefKind::Defmulti => "defmulti",
        DefKind::Defmethod => "defmethod",
        DefKind::Defprotocol => "defprotocol",
        DefKind::Defrecord => "defrecord",
        DefKind::Deftype => "deftype",
        DefKind::Deftest => "deftest",
        DefKind::Declare => "declare",
        DefKind::IntegrantKey => "defmethod",
    }
}

/// The parameters of a definition behind its name.
pub open spec fn params_after_name(params: Seq<Seq<char>>) -> Seq<char> {
    if params.len() == 0 {
        ""@
    } else {
        " "@ + joined_by(params, " "@, params.len())
    }
}

/// What is shown of a definition: its form, its namespace, its documentation.
pub open spec fn symbol_entry(s: SymbolView) -> Seq<char> {
    entry(
        "clojure"@,
        "("@ + kind_name(s.kind) + " "@ + s.name + params_after_name(s.params) + ")"@,
        s.ns,
        s.doc,
    )
}

/// What is shown of a definition.
pub fn format_for_symbol(sym: &Symbol) -> (r: String)
    ensures
        r@ == symbol_entry(sym.deep_view()),
{
    let params = if sym.params.len() == 0 {
        "".to_owned()
    } else {
        concat2(" ", join_by(&sym.params, " ").as_str())
    };
    let opened = concat3("(", defkind_str(sym.kind), " ");
    let named = concat3(opened.as_str(), sym.name.as_str(), params.as_str());
    let code = concat2(named.as_str(), ")");
    let doc = match &sym.doc {
        Some(doc) => Some(doc.as_str()),
        None => None,
    };
    entry_of("clojure", code.as_str(), sym.ns.as_str(), doc)
}

/// The declaration of a class.
pub open spec fn class_signature(c: ClassView) -> Seq<char> {
    "class "@ + c.fqn + (match c.extends {
        Some(sup) => " extends "@ + sup,
        None => ""@,
    }) + (if c.implements.len() == 0 {
        ""@
    } else {
        " implements "@ + joined_by(c.implements, ", "@, c.implements.len())
    })
}

/// What is shown of a class.
pub open spec fn class_entry(c: ClassView) -> Seq<char> {
    entry("java"@, class_signature(c), "java class"@, c.javadoc)
}

fn opt_str<'a>(s: &'a Option<String>) -> (r: Option<&'a str>)
    ensures
        match (r, s.deep_view()) {
            (Some(a), Some(b)) => a@ == b,
            (None, None) => true,
            _ => false,
        },
{
    match s {
        Some(s) => Some(s.as_str()),
        None => None,
    }
}

fn format_java_class(info: &JavaClassInfo) -> (r: String)
    ensures
        r@ == class_entry(info.deep_view()),
{
    let extends = match &info.extends {
        Some(sup) => concat2(" extends ", sup.as_str()),
        None => "".to_owned(),
    };
    let implements = if info.implements.len() == 0 {
        "".to_owned()
    } else {
        concat2(" implements ", join_by(&info.implements, ", ").as_str())
    };
    let named = concat2("class ", info.fqn.as_str());
    let signature = concat3(named.as_str(), extends.as_str(), implements.as_str());
    entry_of("java", signature.as_str(), "java class", opt_str(&info.javadoc))
}

/// The word before a static member.
pub open spec fn static_word(is_static: bool) -> Seq<char> {
    if is_static {
        "static "@
    } else {
        ""@
    }
}

/// `text`, or what stands in its place.
pub open spec fn or_else(text: Option<Seq<char>>, other: Seq<char>) -> Seq<char> {
    match text {
        Some(text) => text,
        None => other,
    }
}

/// What is shown of a method.
pub open spec fn method_entry(class_fqn: Seq<char>, m: MemberView) -> Seq<char> {
    entry(
        "java"@,
        static_word(m.is_static) + or_else(m.return_type, "void"@) + " "@ + m.name + "("@
            + joined_by(m.params, ", "@, m.params.len()) + ")"@,
        class_fqn,
        m.javadoc,
    )
}

/// A member with its type in front.
fn typed_name(m: &JavaMember, untyped: &str) -> (r: String)
    ensures
        r@ == static_word(m.is_static) + or_else(m.return_type.deep_view(), untyped@) + " "@
            + m.name@,
{
    let stat = if m.is_static {
        "static "
    } else {
        ""
    };
    let of_type = match &m.return_type {
        Some(t) => t.as_str(),
        None => untyped,
    };
    let typed = concat2(stat, of_type);
    concat3(typed.as_str(), " ", m.name.as_str())
}

fn format_java_method(class_fqn: &str, m: &JavaMember) -> (r: String)
    ensures
        r@ == method_entry(class_fqn@, m.deep_view()),
{
    let named = typed_name(m, "void");
    let called = concat3(named.as_str(), "(", join_by(&m.params, ", ").as_str());
    let signature = concat2(called.as_str(), ")");
    entry_of("java", signature.as_str(), class_fqn, opt_str(&m.javadoc))
}

/// What is shown of a field.
pub open spec fn field_entry(class_fqn: Seq<char>, f: MemberView) -> Seq<char> {
    entry(
        "java"@,
        trimmed(static_word(f.is_static) + or_else(f.return_type, ""@) + " "@ + f.name),
        class_fqn,
        f.javadoc,
    )
}

fn format_java_field(class_fqn: &str, f: &JavaMember) -> (r: String)
    ensures
        r@ == field_entry(class_fqn@, f.deep_view()),
{
    let named = typed_name(f, "");
    let signature = trim(named.as_str());
    entry_of("java", signature.as_str(), class_fqn, opt_str(&f.javadoc))
}

/// What is shown of a constructor.
pub open spec fn ctor_entry(class_fqn: Seq<char>, c: CtorView) -> Seq<char> {
    entry(
        "java"@,
        simple_name_of(class_fqn) + "("@ + joined_by(c.params, ", "@, c.params.len()) + ")"@,
        class_fqn,
        c.javadoc,
    )
}

fn format_java_ctor(class_fqn: &str, c: &JavaCtor) -> (r: String)
    ensures
        r@ == ctor_entry(class_fqn@, c.deep_view()),
{
    let simple = simple_name(class_fqn);
    let called = concat3(simple.as_str(), "(", join_by(&c.params, ", ").as_str());
    let signature = concat2(called.as_str(), ")");
    entry_of("java", signature.as_str(), class_fqn, opt_str(&c.javadoc))
}

/// The first member from `i` on of that name.
pub open spec fn member_named(members: Seq<MemberView>, name: Seq<char>, i: nat) -> Option<MemberView>
    decreases members.len() - i,
{
    if i >= members.len() {
        None
    } else if members[i as int].name == name {
        Some(members[i as int])
    } else {
        member_named(members, name, i + 1)
    }
}

/// The first member of that name.
pub fn find_member<'a>(members: &'a Vec<JavaMember>, name: &str) -> (r: Option<&'a JavaMember>)
    ensures
        match r {
            Some(m) => member_named(members.deep_view(), name@, 0) == Some(m.deep_view()),
            None => member_named(members.deep_view(), name@, 0) is None,
        },
{
    let ghost all = members.deep_view();
    let mut i: usize = 0;
    while i < members.len()
        invariant
            i <= members@.len(),
            all == members.deep_view(),
            member_named(all, name@, 0) == member_named(all, name@, i as nat),
        decreases members@.len() - i,
    {
        assert(all[i as int] == members@[i as int].deep_view());
        if str_eq(members[i].name.as_str(), name) {
            return Some(&members[i]);
        }
        i += 1;
    }
    None
}

/// What is shown of an interop target: of a member that the class does not declare, and
/// of a constructor that it leaves to the compiler, the class.
pub open spec fn target_entry(c: ClassView, target: TargetView) -> Seq<char> {
    match target.kind {
        JavaTargetKind::StaticMember => {
            let name = or_else(target.member, ""@);
            match member_named(c.methods, name, 0) {
                Some(m) => method_entry(c.fqn, m),
                None => match member_named(c.fields, name, 0) {
                    Some(f) => field_entry(c.fqn, f),
                    None => class_entry(c),
                },
            }
        },
        JavaTargetKind::Ctor => if c.ctors.len() > 0 {
            ctor_entry(c.fqn, c.ctors[0])
        } else {
            class_entry(c)
        },
        JavaTargetKind::Class => class_entry(c),
    }
}

/// What is shown of an interop word.
pub open spec fn java_entry(v: IndexView, word: Seq<char>, ns: Seq<char>) -> Option<Seq<char>> {
    match (java_target(v, word, ns), v.jdk) {
        (Some(target), Some(jdk)) => match class_named(jdk.classes, target.class_fqn, 0) {
            Some(c) => Some(target_entry(c, target)),
            None => None,
        },
        _ => None,
    }
}

fn format_for_java(index: &Index, word: &str, current_ns: &str) -> (r: Option<String>)
    ensures
        r.deep_view() == java_entry(index@, word@, current_ns@),
{
    let target = match resolve_java_word(index, word, current_ns) {
        Some(target) => target,
        None => return None,
    };
    let jdk = match index.jdk() {
        Some(jdk) => jdk,
        None => return None,
    };
    let info = match jdk.class(target.class_fqn.as_str()) {
        Some(info) => info,
        None => return None,
    };
    let md = match target.kind {
        JavaTargetKind::StaticMember => {
            let member = match &target.member {
                Some(member) => member.as_str(),
                None => "",
            };
            match find_member(&info.methods, member) {
                Some(m) => format_java_method(info.fqn.as_str(), m),
                None => match find_member(&info.fields, member) {
                    Some(f) => format_java_field(info.fqn.as_str(), f),
                    None => format_java_class(info),
                },
            }
        },
        JavaTargetKind::Ctor => if info.ctors.len() > 0 {
            assert(info.deep_view().ctors[0] == info.ctors@[0].deep_view());
            format_java_ctor(info.fqn.as_str(), &info.ctors[0])
        } else {
            format_java_class(info)
        },
        JavaTargetKind::Class => format_java_class(info),
    };
    Some(md)
}

/// What is shown of what a word stands for.
pub open spec fn resolved_entry(found: ResolvedView) -> Seq<char> {
    match found {
        ResolvedView::Project(s) => symbol_entry(s),
        ResolvedView::Core(c) => builtin_entry(c, "clojure.core"@),
        ResolvedView::SpecialForm(f) => special_form_entry(f),
        ResolvedView::LetgoNative(c) => builtin_entry(c, "let-go core (native)"@),
    }
}

/// What is shown of a word in a namespace: of what it stands for in Clojure, else in Java.
pub open spec fn word_entry(v: IndexView, word: Seq<char>, ns: Seq<char>) -> Option<Seq<char>> {
    match resolved(v, word, ns) {
        Some(found) => Some(resolved_entry(found)),
        None => java_entry(v, word, ns),
    }
}

/// What is shown of a word in a namespace.
pub fn resolve_and_format(index: &Index, word: &str, current_ns: &str) -> (r: Option<String>)
    ensures
        r.deep_view() == word_entry(index@, word@, current_ns@),
{
    match resolve_symbol(index, word, current_ns) {
        Some(ResolvedSymbol::Project(sym)) => Some(format_for_symbol(&sym)),
        Some(ResolvedSymbol::Core(c)) => Some(format_for_core(&c)),
        Some(ResolvedSymbol::SpecialForm(sf)) => Some(format_for_special_form(&sf)),
        Some(ResolvedSymbol::LetgoNative(c)) => Some(format_for_letgo_native(&c)),
        None => format_for_java(index, word, current_ns),
    }
}

/// What is shown at a position of the open document `uri`, the file `path`.
pub open spec fn hover_at(
    v: IndexView,
    store: StoreView,
    uri: Seq<char>,
    path: Seq<char>,
    pos: Position,
) -> Option<Seq<char>> {
    match store.word(uri, pos) {
        Some(word) => word_entry(v, word, ns_of(v, path)),
        None => None,
    }
}

/// What is shown at a position of the open document `uri`, the file `path`.
pub fn handle(
    index: &Index,
    documents: &DocumentStore,
    uri: &str,
    path: &str,
    pos: Position,
) -> (r: Option<String>)
    ensures
        r.deep_view() == hover_at(index@, documents@, uri@, path@, pos),
{
    let word = match documents.word_at(uri, pos) {
        Some(word) => word,
        None => return None,
    };
    let current_ns = match index.file_ns(path) {
        Some(ns) => ns,
        None => String::new(),
    };
    assert(current_ns@ =~= ns_of(index@, path@));
    resolve_and_format(index, word.as_str(), current_ns.as_str())
}

/// Whatever a word stands for in Clojure is shown; Java is asked only where nothing is.
pub proof fn law_clojure_before_java(v: IndexView, word: Seq<char>, ns: Seq<char>)
    ensures
        resolved(v, word, ns) is Some ==> word_entry(v, word, ns) == Some(
            resolved_entry(resolved(v, word, ns)->0),
        ),
        resolved(v, word, ns) is None ==> word_entry(v, word, ns) == java_entry(v, word, ns),
{
}

/// Hovering a word shows what it resolves to in the namespace of the file: of a definition
/// its kind, name and arguments as code, its namespace, and its documentation at the end.
pub proof fn law_hover_shows_the_definition(
    v: IndexView,
    store: StoreView,
    uri: Seq<char>,
    path: Seq<char>,
    pos: Position,
    word: Seq<char>,
    ns: Seq<char>,
    sym: SymbolView,
)
    requires
        store.word(uri, pos) == Some(word),
        v.file_to_ns.dom().contains(path),
        v.file_to_ns[path] == ns,
        resolved(v, word, ns) == Some(ResolvedView::Project(sym)),
    ensures
        hover_at(v, store, uri, path, pos) matches Some(text) && {
            let args = if sym.params.len() == 0 {
                seq![]
            } else {
                " "@ + joined_by(sym.params, " "@, sym.params.len())
            };
            let head = "```"@ + "clojure"@ + "\n"@ + ("("@ + kind_name(sym.kind) + " "@ + sym.name
                + args + ")"@) + "\n```\n*"@ + sym.ns + "*\n"@;
            match sym.doc {
                Some(doc) => text == head + "\n"@ + doc,
                None => text == head,
            }
        },
{
    reveal_strlit("");
    assert(""@ =~= seq![]);
}

/// Hovering a word that names nothing shows nothing: neither where there is no word, nor where it
/// resolves to nothing and is no class of the platform.
pub proof fn law_hover_shows_nothing_for_nothing(
    v: IndexView,
    store: StoreView,
    uri: Seq<char>,
    path: Seq<char>,
    pos: Position,
)
    ensures
        store.word(uri, pos) is None ==> hover_at(v, store, uri, path, pos) is None,
        store.word(uri, pos) matches Some(word) && resolved(v, word, ns_of(v, path)) is None
            && java_target(v, word, ns_of(v, path)) is None ==> hover_at(v, store, uri, path, pos)
            is None,
        store.word(uri, pos) matches Some(word) && resolved(v, word, ns_of(v, path)) is Some
            ==> hover_at(v, store, uri, path, pos) is Some,
{
}

proof fn lemma_member_named(members: Seq<MemberView>, name: Seq<char>, i: nat)
    ensures
        match member_named(members, name, i) {
            Some(m) => exists|k: int|
                i <= k < members.len() && #[trigger] members[k] == m && m.name == name && forall|j: int|
                    i <= j < k ==> (#[trigger] members[j]).name != name,
            None => forall|j: int| i <= j < members.len() ==> (#[trigger] members[j]).name != name,
        },
    decreases members.len() - i,
{
    if i < members.len() {
        if members[i as int].name == name {
            assert(members[i as int] == members[i as int]);
        } else {
            lemma_member_named(members, name, i + 1);
            if let Some(m) = member_named(members, name, i + 1) {
                let k = choose|k: int|
                    i + 1 <= k < members.len() && #[trigger] members[k] == m && m.name == name
                        && forall|j: int| i + 1 <= j < k ==> (#[trigger] members[j]).name != name;
                assert(members[k] == m);
            }
        }
    }
}

/// Hovering `Class/member` shows the first method of that name, else the first field, else
/// the class.
pub proof fn law_hover_shows_the_member(c: ClassView, name: Seq<char>, k: int)
    ensures
        ({
            let target = TargetView {
                class_fqn: c.fqn,
                member: Some(name),
                kind: JavaTargetKind::StaticMember,
            };
            &&& 0 <= k < c.methods.len() && c.methods[k].name == name && (forall|j: int|
                0 <= j < k ==> (#[trigger] c.methods[j]).name != name) ==> target_entry(c, target)
                == method_entry(c.fqn, c.methods[k])
            &&& (forall|j: int| 0 <= j < c.methods.len() ==> (#[trigger] c.methods[j]).name != name)
                && 0 <= k < c.fields.len() && c.fields[k].name == name && (forall|j: int|
                0 <= j < k ==> (#[trigger] c.fields[j]).name != name) ==> target_entry(c, target)
                == field_entry(c.fqn, c.fields[k])
            &&& (forall|j: int| 0 <= j < c.methods.len() ==> (#[trigger] c.methods[j]).name != name)
                && (forall|j: int| 0 <= j < c.fields.len() ==> (#[trigger] c.fields[j]).name != name)
                ==> target_entry(c, target) == class_entry(c)
        }),
{
    lemma_member_named(c.methods, name, 0);
    lemma_member_named(c.fields, name, 0);
    if 0 <= k < c.methods.len() && c.methods[k].name == name && (forall|j: int|
        0 <= j < k ==> (#[trigger] c.methods[j]).name != name) {
        let m = member_named(c.methods, name, 0)->0;
        let q = choose|q: int|
            0 <= q < c.methods.len() && #[trigger] c.methods[q] == m && m.name == name && forall|j: int|
                0 <= j < q ==> (#[trigger] c.methods[j]).name != name;
        if q < k {
            assert(c.methods[q].name != name);
        }
        if k < q {
            assert(c.methods[k].name != name);
        }
    }
    if 0 <= k < c.fields.len() && c.fields[k].name == name && (forall|j: int|
        0 <= j < k ==> (#[trigger] c.fields[j]).name != name) {
        let m = member_named(c.fields, name, 0)->0;
        let q = choose|q: int|
            0 <= q < c.fields.len() && #[trigger] c.fields[q] == m && m.name == name && forall|j: int|
                0 <= j < q ==> (#[trigger] c.fields[j]).name != name;
        if q < k {
            assert(c.fields[q].name != name);
        }
        if k < q {
            assert(c.fields[k].name != name);
        }
    }
}

}
