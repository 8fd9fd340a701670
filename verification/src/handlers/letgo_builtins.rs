//! let-go's built-ins, as hover and navigation know them.

use vstd::prelude::*;
use crate::collect::push_item;
use crate::handlers::builtins::{
    find_form, form_named, native_list, view_of, SpecialForm, SpecialFormView,
};

verus! {

/// let-go's special forms.
pub open spec fn letgo_forms() -> Seq<SpecialFormView> {
    seq![
        view_of(
            "if",
            "(if test then else?)",
            "Evaluates `test`. If it is logical true (not nil or false), evaluates and yields `then`, otherwise `else` (or nil when omitted).",
        ),
        view_of(
            "do",
            "(do exprs*)",
            "Evaluates the expressions in order and yields the value of the last; nil when there are none.",
        ),
        view_of(
            "def",
            "(def symbol doc-string? init?)",
            "Interns a global var named `symbol` in the current namespace, optionally setting its root value to `init`.",
        ),
        view_of(
            "set!",
            "(set! place expr)",
            "Assigns the value of `expr` to a settable place (a mutable field or a thread-local dynamic var).",
        ),
        view_of(
            "fn*",
            "(fn* [params*] exprs*)",
            "Primitive function literal. Prefer the `fn` macro, which expands to `fn*`.",
        ),
        view_of(
            "quote",
            "(quote form)",
            "Yields `form` unevaluated. Reader shorthand: `'form`.",
        ),
        view_of(
            "var",
            "(var symbol)",
            "Yields the Var object (not its value) named by `symbol`. Reader shorthand: `#'symbol`.",
        ),
        view_of(
            "let*",
            "(let* [bindings*] exprs*)",
            "Primitive sequential binding form. Prefer the `let` macro, which expands to `let*`.",
        ),
        view_of(
            "loop*",
            "(loop* [bindings*] exprs*)",
            "Primitive `recur` target with initial bindings. Prefer the `loop` macro, which expands to `loop*`.",
        ),
        view_of(
            "recur",
            "(recur exprs*)",
            "Rebinds the bindings of the nearest enclosing `fn`/`loop` and jumps back to its start. Tail position only.",
        ),
        view_of(
            "trace",
            "(trace exprs*)",
            "Evaluates the body with let-go VM instruction tracing enabled (a let-go extension).",
        ),
        view_of(
            "try",
            "(try body* (catch sym handler*)? (finally cleanup*)?)",
            "Evaluates `body`; if a value is thrown, binds it to `sym` and runs the matching `catch`. A `finally` clause always runs.",
        ),
        view_of(
            "catch",
            "(catch binding-sym body*)",
            "Clause of `try`: binds a thrown value to `binding-sym` and handles it.",
        ),
        view_of(
            "finally",
            "(finally body*)",
            "Clause of `try`: its body always runs, whether or not the `try` body threw.",
        ),
        view_of(
            "throw",
            "(throw expr)",
            "Throws `expr` (e.g. a string or an `ex-info` map), unwinding to the nearest enclosing `try`/`catch`. (let-go implements `throw` as a native fn; Clojure documents it as a special form.)",
        ),
    ]
}

/// let-go's special forms.
pub fn letgo_special_forms() -> (r: Vec<SpecialForm>)
    ensures
        r.deep_view() == letgo_forms(),
{
    let mut out: Vec<SpecialForm> = Vec::new();
    push_item(
        &mut out,
        SpecialForm {
            name: "if",
            usage: "(if test then else?)",
            doc: "Evaluates `test`. If it is logical true (not nil or false), evaluates and yields `then`, otherwise `else` (or nil when omitted).",
        },
    );
    push_item(
        &mut out,
        SpecialForm {
            name: "do",
            usage: "(do exprs*)",
            doc: "Evaluates the expressions in order and yields the value of the last; nil when there are none.",
        },
    );
    push_item(
        &mut out,
        SpecialForm {
            name: "def",
            usage: "(def symbol doc-string? init?)",
            doc: "Interns a global var named `symbol` in the current namespace, optionally setting its root value to `init`.",
        },
    );
    push_item(
        &mut out,
        SpecialForm {
            name: "set!",
            usage: "(set! place expr)",
            doc: "Assigns the value of `expr` to a settable place (a mutable field or a thread-local dynamic var).",
        },
    );
    push_item(
        &mut out,
        SpecialForm {
            name: "fn*",
            usage: "(fn* [params*] exprs*)",
            doc: "Primitive function literal. Prefer the `fn` macro, which expands to `fn*`.",
        },
    );
    push_item(
        &mut out,
        SpecialForm {
            name: "quote",
            usage: "(quote form)",
            doc: "Yields `form` unevaluated. Reader shorthand: `'form`.",
        },
    );
    push_item(
        &mut out,
        SpecialForm {
            name: "var",
            usage: "(var symbol)",
            doc: "Yields the Var object (not its value) named by `symbol`. Reader shorthand: `#'symbol`.",
        },
    );
    push_item(
        &mut out,
        SpecialForm {
            name: "let*",
            usage: "(let* [bindings*] exprs*)",
            doc: "Primitive sequential binding form. Prefer the `let` macro, which expands to `let*`.",
        },
    );
    push_item(
        &mut out,
        SpecialForm {
            name: "loop*",
            usage: "(loop* [bindings*] exprs*)",
            doc: "Primitive `recur` target with initial bindings. Prefer the `loop` macro, which expands to `loop*`.",
        },
    );
    push_item(
        &mut out,
        SpecialForm {
            name: "recur",
            usage: "(recur exprs*)",
            doc: "Rebinds the bindings of the nearest enclosing `fn`/`loop` and jumps back to its start. Tail position only.",
        },
    );
    push_item(
        &mut out,
        SpecialForm {
            name: "trace",
            usage: "(trace exprs*)",
            doc: "Evaluates the body with let-go VM instruction tracing enabled (a let-go extension).",
        },
    );
    push_item(
        &mut out,
        SpecialForm {
            name: "try",
            usage: "(try body* (catch sym handler*)? (finally cleanup*)?)",
            doc: "Evaluates `body`; if a value is thrown, binds it to `sym` and runs the matching `catch`. A `finally` clause always runs.",
        },
    );
    push_item(
        &mut out,
        SpecialForm {
            name: "catch",
            usage: "(catch binding-sym body*)",
            doc: "Clause of `try`: binds a thrown value to `binding-sym` and handles it.",
        },
    );
    push_item(
        &mut out,
        SpecialForm {
            name: "finally",
            usage: "(finally body*)",
            doc: "Clause of `try`: its body always runs, whether or not the `try` body threw.",
        },
    );
    push_item(
        &mut out,
        SpecialForm {
            name: "throw",
            usage: "(throw expr)",
            doc: "Throws `expr` (e.g. a string or an `ex-info` map), unwinding to the nearest enclosing `try`/`catch`. (let-go implements `throw` as a native fn; Clojure documents it as a special form.)",
        },
    );
    assert(out.deep_view() =~= letgo_forms());
    out
}

/// The special form of let-go that has the name.
pub fn special_form(name: &str) -> (r: Option<SpecialForm>)
    ensures
        r.deep_view() == form_named(letgo_forms(), name@, 0),
{
    find_form(&letgo_special_forms(), name)
}

/// Whether let-go implements the core function natively.
pub fn is_native(name: &str) -> (r: bool)
    ensures
        r == native_list().contains(name@),
{
    crate::handlers::builtins::is_native(name)
}

}
