//! Language built-ins that have no source to go to: special forms, of Clojure and of
//! let-go, and the functions that let-go implements natively.

use vstd::prelude::*;
use crate::collect::{contains_str, push_item, push_str, strs};
use crate::text::str_eq;

verus! {

/// A special form. It is no var, so it carries its own description.
#[derive(Clone, Copy, Debug)]
pub struct SpecialForm {
    pub name: &'static str,
    pub usage: &'static str,
    pub doc: &'static str,
}

/// What a [`SpecialForm`] says.
pub ghost struct SpecialFormView {
    pub name: Seq<char>,
    pub usage: Seq<char>,
    pub doc: Seq<char>,
}

impl DeepView for SpecialForm {
    type V = SpecialFormView;

    open spec fn deep_view(&self) -> SpecialFormView {
        view_of(self.name, self.usage, self.doc)
    }
}

/// A special form as its texts say it.
pub open spec fn view_of(name: &str, usage: &str, doc: &str) -> SpecialFormView {
    SpecialFormView { name: name@, usage: usage@, doc: doc@ }
}

/// The special forms that Clojure and let-go share.
pub open spec fn common_forms() -> Seq<SpecialFormView> {
    seq![
        view_of(
            "if",
            "(if test then else?)",
            "Evaluates `test`. If it is logical true (not nil or false), evaluates and yields `then`, otherwise `else` (or nil when omitted).",
        ),
        view_of(
            "do",
            "(do exprs*)",
            "Evaluates the expressions in order and yields the value of the last; nil when there are none.",
        ),
        view_of(
            "def",
            "(def symbol doc-string? init?)",
            "Interns a global var named `symbol` in the current namespace, optionally setting its root value to `init`.",
        ),
        view_of(
            "set!",
            "(set! place expr)",
            "Assigns the value of `expr` to a settable place (a mutable field or a thread-local dynamic var).",
        ),
        view_of(
            "fn*",
            "(fn* [params*] exprs*)",
            "Primitive function literal. Prefer the `fn` macro, which expands to `fn*`.",
        ),
        view_of(
            "quote",
            "(quote form)",
            "Yields `form` unevaluated. Reader shorthand: `'form`.",
        ),
        view_of(
            "var",
            "(var symbol)",
            "Yields the Var object (not its value) named by `symbol`. Reader shorthand: `#'symbol`.",
        ),
        view_of(
            "let*",
            "(let* [bindings*] exprs*)",
            "Primitive sequential binding form. Prefer the `let` macro, which expands to `let*`.",
        ),
        view_of(
            "loop*",
            "(loop* [bindings*] exprs*)",
            "Primitive `recur` target with initial bindings. Prefer the `loop` macro, which expands to `loop*`.",
        ),
        view_of(
            "recur",
            "(recur exprs*)",
            "Rebinds the bindings of the nearest enclosing `fn`/`loop` and jumps back to its start. Tail position only.",
        ),
        view_of(
            "try",
            "(try body* (catch sym handler*)? (finally cleanup*)?)",
            "Evaluates `body`; if a value is thrown, binds it to `sym` and runs the matching `catch`. A `finally` clause always runs.",
        ),
        view_of(
            "catch",
            "(catch binding-sym body*)",
            "Clause of `try`: binds a thrown value to `binding-sym` and handles it.",
        ),
        view_of(
            "finally",
            "(finally body*)",
            "Clause of `try`: its body always runs, whether or not the `try` body threw.",
        ),
        view_of(
            "throw",
            "(throw expr)",
            "Throws `expr` (e.g. an exception or `ex-info` map), unwinding to the nearest enclosing `try`/`catch`.",
        ),
    ]
}

/// The special forms that only let-go has.
pub open spec fn letgo_extra() -> Seq<SpecialFormView> {
    seq![
        view_of(
            "trace",
            "(trace exprs*)",
            "Evaluates the body with let-go VM instruction tracing enabled (a let-go extension).",
        ),
    ]
}

/// The special forms that only Clojure has.
pub open spec fn clojure_extra() -> Seq<SpecialFormView> {
    seq![
        view_of(
            ".",
            "(. instance-or-Class member args*)",
            "Java interop member access: calls a method or reads a field on an instance or class.",
        ),
        view_of(
            "new",
            "(new Class args*)",
            "Constructs a new Java object. Reader form: `(Class. args*)`.",
        ),
        view_of(
            "monitor-enter",
            "(monitor-enter x)",
            "Acquires the monitor lock on `x`. Low-level; prefer the `locking` macro.",
        ),
        view_of(
            "monitor-exit",
            "(monitor-exit x)",
            "Releases the monitor lock on `x`. Low-level; prefer the `locking` macro.",
        ),
    ]
}

/// The special forms of a dialect.
pub open spec fn forms_of(letgo: bool) -> Seq<SpecialFormView> {
    common_forms() + (if letgo {
        letgo_extra()
    } else {
        clojure_extra()
    })
}

/// The first of `forms`, from `i` on, that has the name.
pub open spec fn form_named(forms: Seq<SpecialFormView>, name: Seq<char>, i: nat) -> Option<
    SpecialFormView,
>
    decreases forms.len() - i,
{
    if i >= forms.len() {
        None
    } else if forms[i as int].name == name {
        Some(forms[i as int])
    } else {
        form_named(forms, name, i + 1)
    }
}

fn common() -> (r: Vec<SpecialForm>)
    ensures
        r.deep_view() == common_forms(),
{
    let mut out: Vec<SpecialForm> = Vec::new();
    push_item(
        &mut out,
        SpecialForm {
            name: "if",
            usage: "(if test then else?)",
            doc: "Evaluates `test`. If it is logical true (not nil or false), evaluates and yields `then`, otherwise `else` (or nil when omitted).",
        },
    );
    push_item(
        &mut out,
        SpecialForm {
            name: "do",
            usage: "(do exprs*)",
            doc: "Evaluates the expressions in order and yields the value of the last; nil when there are none.",
        },
    );
    push_item(
        &mut out,
        SpecialForm {
            name: "def",
            usage: "(def symbol doc-string? init?)",
            doc: "Interns a global var named `symbol` in the current namespace, optionally setting its root value to `init`.",
        },
    );
    push_item(
        &mut out,
        SpecialForm {
            name: "set!",
            usage: "(set! place expr)",
            doc: "Assigns the value of `expr` to a settable place (a mutable field or a thread-local dynamic var).",
        },
    );
    push_item(
        &mut out,
        SpecialForm {
            name: "fn*",
            usage: "(fn* [params*] exprs*)",
            doc: "Primitive function literal. Prefer the `fn` macro, which expands to `fn*`.",
        },
    );
    push_item(
        &mut out,
        SpecialForm {
            name: "quote",
            usage: "(quote form)",
            doc: "Yields `form` unevaluated. Reader shorthand: `'form`.",
        },
    );
    push_item(
        &mut out,
        SpecialForm {
            name: "var",
            usage: "(var symbol)",
            doc: "Yields the Var object (not its value) named by `symbol`. Reader shorthand: `#'symbol`.",
        },
    );
    push_item(
        &mut out,
        SpecialForm {
            name: "let*",
            usage: "(let* [bindings*] exprs*)",
            doc: "Primitive sequential binding form. Prefer the `let` macro, which expands to `let*`.",
        },
    );
    push_item(
        &mut out,
        SpecialForm {
            name: "loop*",
            usage: "(loop* [bindings*] exprs*)",
            doc: "Primitive `recur` target with initial bindings. Prefer the `loop` macro, which expands to `loop*`.",
        },
    );
    push_item(
        &mut out,
        SpecialForm {
            name: "recur",
            usage: "(recur exprs*)",
            doc: "Rebinds the bindings of the nearest enclosing `fn`/`loop` and jumps back to its start. Tail position only.",
        },
    );
    push_item(
        &mut out,
        SpecialForm {
            name: "try",
            usage: "(try body* (catch sym handler*)? (finally cleanup*)?)",
            doc: "Evaluates `body`; if a value is thrown, binds it to `sym` and runs the matching `catch`. A `finally` clause always runs.",
        },
    );
    push_item(
        &mut out,
        SpecialForm {
            name: "catch",
            usage: "(catch binding-sym body*)",
            doc: "Clause of `try`: binds a thrown value to `binding-sym` and handles it.",
        },
    );
    push_item(
        &mut out,
        SpecialForm {
            name: "finally",
            usage: "(finally body*)",
            doc: "Clause of `try`: its body always runs, whether or not the `try` body threw.",
        },
    );
    push_item(
        &mut out,
        SpecialForm {
            name: "throw",
            usage: "(throw expr)",
            doc: "Throws `expr` (e.g. an exception or `ex-info` map), unwinding to the nearest enclosing `try`/`catch`.",
        },
    );
    assert(out.deep_view() =~= common_forms());
    out
}

fn only_letgo() -> (r: Vec<SpecialForm>)
    ensures
        r.deep_view() == letgo_extra(),
{
    let mut out: Vec<SpecialForm> = Vec::new();
    push_item(
        &mut out,
        SpecialForm {
            name: "trace",
            usage: "(trace exprs*)",
            doc: "Evaluates the body with let-go VM instruction tracing enabled (a let-go extension).",
        },
    );
    assert(out.deep_view() =~= letgo_extra());
    out
}

fn only_clojure() -> (r: Vec<SpecialForm>)
    ensures
        r.deep_view() == clojure_extra(),
{
    let mut out: Vec<SpecialForm> = Vec::new();
    push_item(
        &mut out,
        SpecialForm {
            name: ".",
            usage: "(. instance-or-Class member args*)",
            doc: "Java interop member access: calls a method or reads a field on an instance or class.",
        },
    );
    push_item(
        &mut out,
        SpecialForm {
            name: "new",
            usage: "(new Class args*)",
            doc: "Constructs a new Java object. Reader form: `(Class. args*)`.",
        },
    );
    push_item(
        &mut out,
        SpecialForm {
            name: "monitor-enter",
            usage: "(monitor-enter x)",
            doc: "Acquires the monitor lock on `x`. Low-level; prefer the `locking` macro.",
        },
    );
    push_item(
        &mut out,
        SpecialForm {
            name: "monitor-exit",
            usage: "(monitor-exit x)",
            doc: "Releases the monitor lock on `x`. Low-level; prefer the `locking` macro.",
        },
    );
    assert(out.deep_view() =~= clojure_extra());
    out
}

/// The special forms of a dialect: the shared ones, then its own.
pub fn special_forms(letgo: bool) -> (r: Vec<SpecialForm>)
    ensures
        r.deep_view() == forms_of(letgo),
{
    let mut out = common();
    let extra = if letgo {
        only_letgo()
    } else {
        only_clojure()
    };
    let ghost before = out.deep_view();
    let ghost more = extra.deep_view();
    let mut i: usize = 0;
    assert(before + more.take(0) =~= before);
    while i < extra.len()
        invariant
            i <= extra@.len(),
            more == extra.deep_view(),
            out.deep_view() == before + more.take(i as int),
        decreases extra@.len() - i,
    {
        assert(more[i as int] == extra@[i as int].deep_view());
        push_item(&mut out, extra[i]);
        assert(before + more.take(i as int + 1) =~= (before + more.take(i as int)).push(
            more[i as int],
        ));
        i += 1;
    }
    assert(more.take(more.len() as int) =~= more);
    out
}

/// The first of `forms` that has the name.
pub fn find_form(forms: &Vec<SpecialForm>, name: &str) -> (r: Option<SpecialForm>)
    ensures
        r.deep_view() == form_named(forms.deep_view(), name@, 0),
{
    let ghost all = forms.deep_view();
    let mut i: usize = 0;
    while i < forms.len()
        invariant
            i <= forms@.len(),
            all == forms.deep_view(),
            form_named(all, name@, 0) == form_named(all, name@, i as nat),
        decreases forms@.len() - i,
    {
        assert(all[i as int] == forms@[i as int].deep_view());
        if str_eq(forms[i].name, name) {
            return Some(forms[i]);
        }
        i += 1;
    }
    None
}

/// The special form of a dialect that has the name.
pub fn special_form(name: &str, letgo: bool) -> (r: Option<SpecialForm>)
    ensures
        r.deep_view() == form_named(forms_of(letgo), name@, 0),
{
    find_form(&special_forms(letgo), name)
}

/// What is answered for a name is a listed form of that name; for a name that no listed
/// form has, nothing is.
pub proof fn law_special_form_answers_listed(forms: Seq<SpecialFormView>, name: Seq<char>)
    ensures
        match form_named(forms, name, 0) {
            Some(f) => f.name == name && forms.contains(f),
            None => forall|i: int| 0 <= i < forms.len() ==> (#[trigger] forms[i]).name != name,
        },
{
    lemma_form_named(forms, name, 0);
}

proof fn lemma_form_named(forms: Seq<SpecialFormView>, name: Seq<char>, i: nat)
    ensures
        match form_named(forms, name, i) {
            Some(f) => f.name == name && forms.contains(f),
            None => forall|k: int| i <= k < forms.len() ==> (#[trigger] forms[k]).name != name,
        },
    decreases forms.len() - i,
{
    if i < forms.len() && forms[i as int].name != name {
        lemma_form_named(forms, name, i + 1);
    }
}

/// The shared forms are answered in both dialects, and the forms of one dialect in that
/// dialect alone.
pub proof fn law_special_forms_by_dialect(f: SpecialFormView)
    ensures
        common_forms().contains(f) ==> form_named(forms_of(true), f.name, 0) is Some
            && form_named(forms_of(false), f.name, 0) is Some,
        letgo_extra().contains(f) ==> form_named(forms_of(true), f.name, 0) is Some
            && form_named(forms_of(false), f.name, 0) is None,
        clojure_extra().contains(f) ==> form_named(forms_of(false), f.name, 0) is Some
            && form_named(forms_of(true), f.name, 0) is None,
{
    lemma_form_named(forms_of(true), f.name, 0);
    lemma_form_named(forms_of(false), f.name, 0);
    let (common, letgo, clojure) = (common_forms(), letgo_extra(), clojure_extra());
    if common.contains(f) {
        let i = common.index_of(f);
        assert(forms_of(true)[i] == f && forms_of(false)[i] == f);
    }
    if letgo.contains(f) {
        let i = letgo.index_of(f);
        assert(forms_of(true)[common.len() + i] == f);
        lemma_names_differ();
        assert forall|k: int| 0 <= k < forms_of(false).len() implies (
        #[trigger] forms_of(false)[k]).name != f.name by {
            if k >= common.len() {
                assert(forms_of(false)[k] == clojure[k - common.len()]);
            }
        }
        lemma_unnamed(forms_of(false), f.name, 0);
    }
    if clojure.contains(f) {
        let i = clojure.index_of(f);
        assert(forms_of(false)[common.len() + i] == f);
        lemma_names_differ();
        assert forall|k: int| 0 <= k < forms_of(true).len() implies (
        #[trigger] forms_of(true)[k]).name != f.name by {
            if k >= common.len() {
                assert(forms_of(true)[k] == letgo[k - common.len()]);
            }
        }
        lemma_unnamed(forms_of(true), f.name, 0);
    }
}

/// `trace` is let-go's alone, `new` is Clojure's alone, and `if` is in both.
pub proof fn law_dialect_extras_are_scoped(letgo: bool)
    ensures
        form_named(forms_of(letgo), "trace"@, 0) is Some <==> letgo,
        form_named(forms_of(letgo), "new"@, 0) is Some <==> !letgo,
        form_named(forms_of(letgo), "if"@, 0) is Some,
{
    let (shared, trace, new) = (common_forms()[0], letgo_extra()[0], clojure_extra()[1]);
    assert(common_forms().contains(shared));
    assert(letgo_extra().contains(trace));
    assert(clojure_extra().contains(new));
    law_special_forms_by_dialect(shared);
    law_special_forms_by_dialect(trace);
    law_special_forms_by_dialect(new);
}

proof fn lemma_unnamed(forms: Seq<SpecialFormView>, name: Seq<char>, i: nat)
    requires
        forall|k: int| i <= k < forms.len() ==> (#[trigger] forms[k]).name != name,
    ensures
        form_named(forms, name, i) is None,
    decreases forms.len() - i,
{
    if i < forms.len() {
        lemma_unnamed(forms, name, i + 1);
    }
}

proof fn lemma_names_differ()
    ensures
        forall|i: int, j: int|
            0 <= i < common_forms().len() && 0 <= j < letgo_extra().len()
                ==> (#[trigger] common_forms()[i]).name != (#[trigger] letgo_extra()[j]).name,
        forall|i: int, j: int|
            0 <= i < common_forms().len() && 0 <= j < clojure_extra().len()
                ==> (#[trigger] common_forms()[i]).name != (#[trigger] clojure_extra()[j]).name,
        forall|i: int, j: int|
            0 <= i < letgo_extra().len() && 0 <= j < clojure_extra().len()
                ==> (#[trigger] letgo_extra()[i]).name != (#[trigger] clojure_extra()[j]).name,
{
    reveal_strlit("if");
    reveal_strlit("do");
    reveal_strlit("def");
    reveal_strlit("set!");
    reveal_strlit("fn*");
    reveal_strlit("quote");
    reveal_strlit("var");
    reveal_strlit("let*");
    reveal_strlit("loop*");
    reveal_strlit("recur");
    reveal_strlit("try");
    reveal_strlit("catch");
    reveal_strlit("finally");
    reveal_strlit("throw");
    reveal_strlit("trace");
    reveal_strlit(".");
    reveal_strlit("new");
    reveal_strlit("monitor-enter");
    reveal_strlit("monitor-exit");
    assert("trace"@[0] != "quote"@[0]);
    assert("trace"@[0] != "loop*"@[0]);
    assert("trace"@[0] != "recur"@[0]);
    assert("trace"@[0] != "catch"@[0]);
    assert("trace"@[1] != "throw"@[1]);
    assert("new"@[0] != "def"@[0]);
    assert("new"@[0] != "fn*"@[0]);
    assert("new"@[0] != "var"@[0]);
    assert("new"@[0] != "try"@[0]);
    let (common, letgo, clojure) = (common_forms(), letgo_extra(), clojure_extra());
    assert(common[0].name == "if"@);
    assert(common[1].name == "do"@);
    assert(common[2].name == "def"@);
    assert(common[3].name == "set!"@);
    assert(common[4].name == "fn*"@);
    assert(common[5].name == "quote"@);
    assert(common[6].name == "var"@);
    assert(common[7].name == "let*"@);
    assert(common[8].name == "loop*"@);
    assert(common[9].name == "recur"@);
    assert(common[10].name == "try"@);
    assert(common[11].name == "catch"@);
    assert(common[12].name == "finally"@);
    assert(common[13].name == "throw"@);
    assert(letgo[0].name == "trace"@);
    assert(clojure[0].name == "."@);
    assert(clojure[1].name == "new"@);
    assert(clojure[2].name == "monitor-enter"@);
    assert(clojure[3].name == "monitor-exit"@);
}

/// The core functions that let-go implements natively, in the order of a dictionary. These
/// few stand in for the whole list, which is generated from let-go's sources.
pub open spec fn native_list() -> Seq<Seq<char>> {
    seq!["+"@, "count"@, "str"@, "subs"@, "throw"@]
}

/// The core functions that let-go implements natively.
pub fn native_names() -> (r: Vec<String>)
    ensures
        strs(r@) == native_list(),
{
    let mut out: Vec<String> = Vec::new();
    assert(strs(out@) =~= Seq::empty());
    push_str(&mut out, "+".to_owned());
    push_str(&mut out, "count".to_owned());
    push_str(&mut out, "str".to_owned());
    push_str(&mut out, "subs".to_owned());
    push_str(&mut out, "throw".to_owned());
    assert(strs(out@) =~= native_list());
    out
}

/// Whether let-go implements the core function natively.
pub fn is_native(name: &str) -> (r: bool)
    ensures
        r == native_list().contains(name@),
{
    contains_str(&native_names(), name)
}

}
