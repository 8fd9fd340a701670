//! The boundary to clj-kondo: its configuration, and its findings.

use vstd::prelude::*;
use crate::collect::{dict_get, dict_put, law_dict_get_after_put, push_item, Dict};
use crate::edn::{
    entry_views, get, keyword, kw, lemma_edn, parsed_edn, readable, value_at, Edn, EdnView,
};
use crate::handlers::matching::has_prefix;
use crate::index::model::{def_symbol_kind, macro_fqn_kind, DefKind};
use crate::json::{
    field, field_of, item_views, lemma_json, number_field, number_in, parsed_json, text_field, text_in,
    Json, JsonView,
};
use crate::lgx::lib_name;
use crate::lsp::{Diagnostic, DiagnosticView, Position, Range, Severity};
use crate::text::{chars_of, concat3, str_eq, string_of, unprefixed};

verus! {

/// The name of a symbol; what is no symbol has none.
pub open spec fn symbol_name(v: EdnView) -> Option<Seq<char>> {
    match v {
        EdnView::Symbol(n) => Some(lib_name(n)),
        _ => None,
    }
}

/// The name of a symbol.
pub fn sym_to_string(v: &Edn) -> (r: Option<String>)
    ensures
        r.deep_view() == symbol_name(v@),
{
    proof {
        lemma_edn(*v);
    }
    match v {
        Edn::Symbol(n) => Some(
            match &n.namespace {
                Some(ns) => concat3(ns.as_str(), "/", n.name.as_str()),
                None => n.name.clone(),
            },
        ),
        _ => None,
    }
}

/// The pairs of symbols among the first `n` entries.
pub open spec fn symbol_pairs(entries: Seq<(EdnView, EdnView)>, n: nat) -> Seq<(Seq<char>, Seq<char>)>
    decreases n,
{
    if n == 0 {
        seq![]
    } else {
        let before = symbol_pairs(entries, (n - 1) as nat);
        match (symbol_name(entries[n - 1].0), symbol_name(entries[n - 1].1)) {
            (Some(name), Some(target)) => before.push((name, target)),
            _ => before,
        }
    }
}

/// The macros that a configuration lints as others.
pub open spec fn lint_pairs(top: Option<EdnView>) -> Seq<(Seq<char>, Seq<char>)> {
    match top {
        Some(top) => match value_at(top, keyword("lint-as"@)) {
            Some(EdnView::Table(entries)) => symbol_pairs(entries, entries.len()),
            _ => seq![],
        },
        None => seq![],
    }
}

/// The macros that a configuration lints as others.
pub fn lint_as_of(top: &Edn) -> (r: Vec<(String, String)>)
    ensures
        r.deep_view() == lint_pairs(Some(top@)),
{
    let mut out: Vec<(String, String)> = Vec::new();
    assert(out.deep_view() =~= seq![]);
    if let Some(found) = get(top, &kw("lint-as")) {
        proof {
            lemma_edn(*found);
        }
        if let Edn::Table(entries) = found {
            let ghost all = entry_views(entries@);
            let mut i: usize = 0;
            while i < entries.len()
                invariant
                    i <= entries@.len(),
                    all == entry_views(entries@),
                    out.deep_view() == symbol_pairs(all, i as nat),
                decreases entries@.len() - i,
            {
                assert(all[i as int] == (entries@[i as int].0@, entries@[i as int].1@));
                if let Some(name) = sym_to_string(&entries[i].0) {
                    if let Some(target) = sym_to_string(&entries[i].1) {
                        push_item(&mut out, (name, target));
                    }
                }
                i += 1;
            }
        }
    }
    out
}

/// The macros that the text of a configuration lints as others: each with the one that it
/// is like. None where the text is no map, or has no such entry.
pub fn parse_lint_as(edn: &str) -> (r: Vec<(String, String)>)
    requires
        readable(edn@),
    ensures
        r.deep_view() == lint_pairs(parsed_edn(edn@)),
{
    match crate::edn::parse(edn) {
        Some(top) => lint_as_of(&top),
        None => {
            let none: Vec<(String, String)> = Vec::new();
            assert(none.deep_view() =~= seq![]);
            none
        },
    }
}

/// The kind of definition that a macro makes which is linted as `target`.
pub open spec fn target_kind(target: Seq<char>) -> Option<DefKind> {
    match unprefixed(target, "clojure.core/"@) {
        Some(form) => def_symbol_kind(form),
        None => macro_fqn_kind(target),
    }
}

fn kind_of_target(target: &str) -> (r: Option<DefKind>)
    ensures
        r == target_kind(target@),
{
    if has_prefix(target, "clojure.core/") {
        let chars = chars_of(target);
        let cut: usize = "clojure.core/".unicode_len();
        let form = string_of(&chars, cut, chars.len());
        assert(form@ =~= target@.skip(cut as int));
        DefKind::from_def_symbol(form.as_str())
    } else {
        DefKind::from_macro_fqn(target)
    }
}

/// The macros among the first `n` pairs that define names, each with the kind of
/// definition that it makes.
pub open spec fn defining_pairs(pairs: Seq<(Seq<char>, Seq<char>)>, n: nat) -> Seq<
    (Seq<char>, DefKind),
>
    decreases n,
{
    if n == 0 {
        seq![]
    } else {
        let before = defining_pairs(pairs, (n - 1) as nat);
        match target_kind(pairs[n - 1].1) {
            Some(kind) => dict_put(before, pairs[n - 1].0, kind),
            None => before,
        }
    }
}

/// The macros of a configuration that define names, each with the kind of definition that
/// it makes.
pub fn defining_macros(pairs: &Vec<(String, String)>) -> (r: Dict<DefKind>)
    ensures
        r.deep_view() == defining_pairs(pairs.deep_view(), pairs@.len()),
{
    let ghost all = pairs.deep_view();
    let mut out: Dict<DefKind> = Dict::new();
    let mut i: usize = 0;
    while i < pairs.len()
        invariant
            i <= pairs@.len(),
            all == pairs.deep_view(),
            out.deep_view() == defining_pairs(all, i as nat),
        decreases pairs@.len() - i,
    {
        assert(all[i as int] == (pairs@[i as int].0@, pairs@[i as int].1@));
        if let Some(kind) = kind_of_target(pairs[i].1.as_str()) {
            out.insert(pairs[i].0.clone(), kind);
        }
        i += 1;
    }
    out
}

/// The source that every finding of clj-kondo carries.
pub const SOURCE: &'static str = "clj-kondo";

/// A place that is counted from one, as the editor counts it, as far as its numbers go.
pub open spec fn counted_from_zero(n: u64) -> u32 {
    if n == 0 {
        0
    } else if n - 1 > u32::MAX {
        u32::MAX
    } else {
        (n - 1) as u32
    }
}

fn from_zero(n: u64) -> (r: u32)
    ensures
        r == counted_from_zero(n),
{
    if n == 0 {
        0
    } else if n - 1 > 0xffff_ffff {
        0xffff_ffff
    } else {
        (n - 1) as u32
    }
}

/// A place that is counted from one, as the editor counts it.
pub fn position(row: u64, col: u64) -> (r: Position)
    ensures
        r == (Position { line: counted_from_zero(row), character: counted_from_zero(col) }),
{
    Position::new(from_zero(row), from_zero(col))
}

/// The column behind another; the last one is behind itself.
pub open spec fn next_column(c: u32) -> u32 {
    if c == u32::MAX {
        c
    } else {
        (c + 1) as u32
    }
}

/// What a finding covers: up to its end, where it gives one, and else one character.
pub open spec fn range_of(finding: JsonView, row: u64, col: u64) -> Range {
    Range {
        start: Position { line: counted_from_zero(row), character: counted_from_zero(col) },
        end: match (number_in(finding, "end-row"@), number_in(finding, "end-col"@)) {
            (Some(end_row), Some(end_col)) => Position {
                line: counted_from_zero(end_row),
                character: counted_from_zero(end_col),
            },
            _ => Position {
                line: counted_from_zero(row),
                character: next_column(counted_from_zero(col)),
            },
        },
    }
}

/// What a finding covers.
pub fn finding_range(finding: &Json, row: u64, col: u64) -> (r: Range)
    ensures
        r == range_of(finding@, row, col),
{
    let start = position(row, col);
    let end = match (number_field(finding, "end-row"), number_field(finding, "end-col")) {
        (Some(end_row), Some(end_col)) => position(end_row, end_col),
        _ => {
            let character: u32 = if start.character == u32::MAX {
                start.character
            } else {
                start.character + 1
            };
            Position::new(start.line, character)
        },
    };
    Range::new(start, end)
}

/// How bad a finding of a level is. A level that is not known warns.
pub open spec fn severity_of(level: Option<Seq<char>>) -> Severity {
    if level == Some("error"@) {
        Severity::Error
    } else if level == Some("info"@) {
        Severity::Information
    } else {
        Severity::Warning
    }
}

/// How bad a finding of a level is.
pub fn severity(level: &Option<String>) -> (r: Severity)
    ensures
        r == severity_of(level.deep_view()),
{
    match level {
        Some(level) => if str_eq(level.as_str(), "error") {
            Severity::Error
        } else if str_eq(level.as_str(), "info") {
            Severity::Information
        } else {
            Severity::Warning
        },
        None => Severity::Warning,
    }
}

/// The diagnostic of a finding; `None` where it lacks its kind, its message or its place.
pub open spec fn diagnostic_of(finding: JsonView) -> Option<DiagnosticView> {
    match (
        text_in(finding, "type"@),
        text_in(finding, "message"@),
        number_in(finding, "row"@),
        number_in(finding, "col"@),
    ) {
        (Some(code), Some(message), Some(row), Some(col)) => Some(
            DiagnosticView {
                range: range_of(finding, row, col),
                severity: Some(severity_of(text_in(finding, "level"@))),
                code: Some(code),
                source: Some(SOURCE@),
                message,
                unnecessary: "unused-"@.is_prefix_of(code),
                deprecated: !"unused-"@.is_prefix_of(code) && code == "deprecated-var"@,
            },
        ),
        _ => None,
    }
}

/// The diagnostic of a finding.
pub fn finding_to_diagnostic(finding: &Json) -> (r: Option<Diagnostic>)
    ensures
        r.deep_view() == diagnostic_of(finding@),
{
    let code = match text_field(finding, "type") {
        Some(code) => code,
        None => return None,
    };
    let message = match text_field(finding, "message") {
        Some(message) => message,
        None => return None,
    };
    let row: u64 = match number_field(finding, "row") {
        Some(row) => row,
        None => return None,
    };
    let col: u64 = match number_field(finding, "col") {
        Some(col) => col,
        None => return None,
    };
    let unnecessary = has_prefix(code.as_str(), "unused-");
    let deprecated = !unnecessary && str_eq(code.as_str(), "deprecated-var");
    Some(
        Diagnostic {
            range: finding_range(finding, row, col),
            severity: Some(severity(&text_field(finding, "level"))),
            code: Some(code),
            source: Some(SOURCE.to_owned()),
            message,
            unnecessary,
            deprecated,
        },
    )
}

/// The diagnostics of the first `n` findings. One that is malformed is passed over, and
/// does not cost the others.
pub open spec fn diagnostics_of(findings: Seq<JsonView>, n: nat) -> Seq<DiagnosticView>
    decreases n,
{
    if n == 0 {
        seq![]
    } else {
        let before = diagnostics_of(findings, (n - 1) as nat);
        match diagnostic_of(findings[n - 1]) {
            Some(d) => before.push(d),
            None => before,
        }
    }
}

/// The diagnostics of an output; `None` where it is none of clj-kondo's, which is another
/// thing than an output without findings.
pub open spec fn findings_of(output: Option<JsonView>) -> Option<Seq<DiagnosticView>> {
    match output {
        Some(v) => match field_of(v, "findings"@) {
            Some(JsonView::List(findings)) => Some(diagnostics_of(findings, findings.len())),
            _ => None,
        },
        None => None,
    }
}

/// The diagnostics of an output.
pub fn findings_in(output: &Json) -> (r: Option<Vec<Diagnostic>>)
    ensures
        r.deep_view() == findings_of(Some(output@)),
{
    let found = match field(output, "findings") {
        Some(found) => found,
        None => return None,
    };
    proof {
        lemma_json(*found);
    }
    match found {
        Json::List(findings) => {
            let ghost all = item_views(findings@);
            let mut out: Vec<Diagnostic> = Vec::new();
            assert(out.deep_view() =~= seq![]);
            let mut i: usize = 0;
            while i < findings.len()
                invariant
                    i <= findings@.len(),
                    all == item_views(findings@),
                    out.deep_view() == diagnostics_of(all, i as nat),
                decreases findings@.len() - i,
            {
                assert(all[i as int] == findings@[i as int]@);
                if let Some(d) = finding_to_diagnostic(&findings[i]) {
                    push_item(&mut out, d);
                }
                i += 1;
            }
            Some(out)
        },
        _ => None,
    }
}

/// The diagnostics of the text that clj-kondo wrote.
pub fn parse_findings(json: &str) -> (r: Option<Vec<Diagnostic>>)
    ensures
        r.deep_view() == findings_of(parsed_json(json@)),
{
    match crate::json::parse(json) {
        Some(output) => findings_in(&output),
        None => None,
    }
}

/// Every bridged diagnostic says that it comes from clj-kondo.
pub proof fn law_findings_name_their_source(findings: Seq<JsonView>, n: nat, i: int)
    requires
        n <= findings.len(),
        0 <= i < diagnostics_of(findings, n).len(),
    ensures
        diagnostics_of(findings, n)[i].source == Some(SOURCE@),
    decreases n,
{
    if n > 0 {
        let before = diagnostics_of(findings, (n - 1) as nat);
        if i < before.len() {
            law_findings_name_their_source(findings, (n - 1) as nat, i);
        }
    }
}

/// An output of clj-kondo with no findings is a clean run, not a failed one.
pub proof fn law_clean_run_is_a_run(output: JsonView)
    requires
        field_of(output, "findings"@) == Some(JsonView::List(seq![])),
    ensures
        findings_of(Some(output)) == Some(Seq::<DiagnosticView>::empty()),
{
}

/// Every finding that names its type, its message and its place is reported, and nothing else.
pub proof fn law_every_whole_finding_is_reported(findings: Seq<JsonView>, n: nat, d: DiagnosticView)
    requires
        n <= findings.len(),
    ensures
        diagnostics_of(findings, n).contains(d) <==> exists|k: int|
            0 <= k < n && diagnostic_of(#[trigger] findings[k]) == Some(d),
    decreases n,
{
    if n > 0 {
        law_every_whole_finding_is_reported(findings, (n - 1) as nat, d);
        let before = diagnostics_of(findings, (n - 1) as nat);
        if let Some(last) = diagnostic_of(findings[n - 1]) {
            crate::sort::lemma_push_contains(before, last, d);
        }
    } else {
        assert(diagnostics_of(findings, n) =~= seq![]);
    }
}

/// A finding is reported as what it says: its rows and columns, which count from one, become
/// places that count from zero; its level becomes the severity; and only an unused thing is shown
/// as unnecessary.
pub proof fn law_finding_is_reported_as_it_says(
    finding: JsonView,
    code: Seq<char>,
    message: Seq<char>,
    row: u64,
    col: u64,
)
    requires
        text_in(finding, "type"@) == Some(code),
        text_in(finding, "message"@) == Some(message),
        number_in(finding, "row"@) == Some(row),
        number_in(finding, "col"@) == Some(col),
        1 <= row <= u32::MAX,
        1 <= col <= u32::MAX,
    ensures
        diagnostic_of(finding) matches Some(d) && {
            &&& d.code == Some(code) && d.message == message
            &&& d.range.start.line + 1 == row && d.range.start.character + 1 == col
            &&& number_in(finding, "end-row"@) matches Some(end_row) ==> number_in(
                finding,
                "end-col"@,
            ) matches Some(end_col) ==> 1 <= end_row <= u32::MAX && 1 <= end_col <= u32::MAX
                ==> d.range.end.line + 1 == end_row && d.range.end.character + 1 == end_col
            &&& number_in(finding, "end-row"@) is None ==> d.range.end.line + 1 == row
                && d.range.end.character == col
            &&& text_in(finding, "level"@) == Some("error"@) ==> d.severity == Some(Severity::Error)
            &&& text_in(finding, "level"@) == Some("warning"@) ==> d.severity == Some(
                Severity::Warning,
            )
            &&& text_in(finding, "level"@) == Some("info"@) ==> d.severity == Some(
                Severity::Information,
            )
            &&& (exists|rest: Seq<char>| code == #[trigger] ("unused-"@ + rest)) <==> d.unnecessary
            &&& code == "deprecated-var"@ ==> d.deprecated
        },
{
    reveal_strlit("error");
    reveal_strlit("warning");
    reveal_strlit("info");
    reveal_strlit("unused-");
    reveal_strlit("deprecated-var");
    assert("error"@[0] == 'e' && "warning"@[0] == 'w' && "info"@[0] == 'i');
    assert("unused-"@[0] == 'u' && "deprecated-var"@[0] == 'd');
    if "unused-"@.is_prefix_of(code) {
        assert("unused-"@ + code.skip("unused-"@.len() as int) =~= code);
    }
    if exists|rest: Seq<char>| code == #[trigger] ("unused-"@ + rest) {
        let rest = choose|rest: Seq<char>| code == #[trigger] ("unused-"@ + rest);
        assert(code.take("unused-"@.len() as int) =~= "unused-"@);
    }
}

/// A macro counts as the definition that a pair for it says last, where that is a definition.
pub proof fn law_macros_define_as_configured(
    pairs: Seq<(Seq<char>, Seq<char>)>,
    n: nat,
    k: int,
    kind: DefKind,
)
    requires
        n <= pairs.len(),
        0 <= k < n,
        target_kind(pairs[k].1) == Some(kind),
        forall|j: int| k < j < n && (#[trigger] pairs[j]).0 == pairs[k].0 ==> target_kind(pairs[j].1)
            is None,
    ensures
        dict_get(defining_pairs(pairs, n), pairs[k].0) == Some(kind),
    decreases n,
{
    let before = defining_pairs(pairs, (n - 1) as nat);
    if let Some(last) = target_kind(pairs[n - 1].1) {
        law_dict_get_after_put(before, pairs[n - 1].0, last, pairs[k].0);
    }
    if k < n - 1 {
        law_macros_define_as_configured(pairs, (n - 1) as nat, k, kind);
    }
}

/// A macro that no pair makes a definition is none.
pub proof fn law_other_macros_define_nothing(
    pairs: Seq<(Seq<char>, Seq<char>)>,
    n: nat,
    name: Seq<char>,
)
    requires
        n <= pairs.len(),
        forall|j: int| 0 <= j < n && (#[trigger] pairs[j]).0 == name ==> target_kind(pairs[j].1)
            is None,
    ensures
        dict_get(defining_pairs(pairs, n), name) is None,
    decreases n,
{
    if n > 0 {
        law_other_macros_define_nothing(pairs, (n - 1) as nat, name);
        let before = defining_pairs(pairs, (n - 1) as nat);
        if let Some(last) = target_kind(pairs[n - 1].1) {
            law_dict_get_after_put(before, pairs[n - 1].0, last, name);
        }
    }
}

/// The pairs of `:lint-as` are those of its entries whose two sides are symbols.
pub proof fn law_lint_as_is_read(
    entries: Seq<(EdnView, EdnView)>,
    n: nat,
    name: Seq<char>,
    target: Seq<char>,
)
    requires
        n <= entries.len(),
    ensures
        symbol_pairs(entries, n).contains((name, target)) <==> exists|k: int|
            0 <= k < n && symbol_name((#[trigger] entries[k]).0) == Some(name) && symbol_name(
                entries[k].1,
            ) == Some(target),
    decreases n,
{
    if n > 0 {
        law_lint_as_is_read(entries, (n - 1) as nat, name, target);
        let before = symbol_pairs(entries, (n - 1) as nat);
        match (symbol_name(entries[n - 1].0), symbol_name(entries[n - 1].1)) {
            (Some(a), Some(b)) => {
                crate::sort::lemma_push_contains(before, (a, b), (name, target));
            },
            _ => {},
        }
    } else {
        assert(symbol_pairs(entries, n) =~= seq![]);
    }
}

}
