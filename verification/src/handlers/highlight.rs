//! Every place of one document that means what the cursor is on, from the live text alone.

use vstd::prelude::*;
use crate::collect::Copied;
use crate::config::is_edn;
use crate::document::{DocumentStore, StoreView};
use crate::handlers::references::{
    fqn_at, has_usage, lemma_concat_contains, local_at, local_refs_at, resolve_fqn_at,
};
use crate::index::extractor::{analysis_of, extract_full_with, file_occurrences_with, occurrences_of};
use crate::index::locals::LocalRefsView;
use crate::index::model::{DefKind, Occurrence, OccurrenceView, Symbol, SymbolView};
use crate::index::symbols::{Index, IndexView};
use crate::lsp::{Position, Range};
use crate::path::extension_of;
use crate::sort::{arrange, arranged, law_arranged, lemma_push_contains, ordered, Place, Sorted};
use crate::text::{starts_with_char, str_eq};

verus! {

/// What a place does with the name.
#[derive(Clone, Copy, Debug, PartialEq, Eq, Structural)]
pub enum DocumentHighlightKind {
    Text,
    Read,
    Write,
}

/// A place to highlight.
#[derive(Clone, Copy, Debug, PartialEq, Eq, Structural)]
pub struct DocumentHighlight {
    pub range: Range,
    pub kind: DocumentHighlightKind,
}

impl DeepView for DocumentHighlight {
    type V = DocumentHighlight;

    open spec fn deep_view(&self) -> DocumentHighlight {
        *self
    }
}

impl Copied for DocumentHighlight {
    fn copied(&self) -> (r: Self) {
        *self
    }
}

/// In document order; at one place a definition comes first.
impl DocumentHighlight {
    /// What decides its place in a list.
    pub open spec fn place_of(v: DocumentHighlight) -> Place {
        Place {
            line: v.range.start.line,
            character: v.range.start.character,
            rank: if v.kind == DocumentHighlightKind::Write {
                0
            } else {
                1
            },
        }
    }

    fn place(&self) -> (r: Place)
        ensures
            r == DocumentHighlight::place_of(*self),
    {
        Place {
            line: self.range.start.line,
            character: self.range.start.character,
            rank: if self.kind == DocumentHighlightKind::Write {
                0
            } else {
                1
            },
        }
    }
}

impl Sorted for DocumentHighlight {
    open spec fn le(a: DocumentHighlight, b: DocumentHighlight) -> bool {
        DocumentHighlight::place_of(a).le(DocumentHighlight::place_of(b))
    }

    proof fn lemma_order(a: DocumentHighlight, b: DocumentHighlight, c: DocumentHighlight) {
    }

    fn is_le(&self, other: &DocumentHighlight) -> (r: bool) {
        self.place().is_le(other.place())
    }
}

/// The places of a local: its binding, then its usages.
pub open spec fn local_places(refs: LocalRefsView) -> Seq<DocumentHighlight> {
    seq![DocumentHighlight { range: refs.declaration, kind: DocumentHighlightKind::Write }]
        + refs.usages.map_values(
        |range: Range| DocumentHighlight { range, kind: DocumentHighlightKind::Read },
    )
}

/// What a usage of `fqn` does. A keyword is the same token wherever it stands.
pub open spec fn usage_kind(fqn: Seq<char>) -> DocumentHighlightKind {
    if fqn.len() > 0 && fqn[0] == ':' {
        DocumentHighlightKind::Text
    } else {
        DocumentHighlightKind::Read
    }
}

/// What a definition of `fqn` does.
pub open spec fn definition_kind(fqn: Seq<char>) -> DocumentHighlightKind {
    if fqn.len() > 0 && fqn[0] == ':' {
        DocumentHighlightKind::Text
    } else {
        DocumentHighlightKind::Write
    }
}

/// Those of the first `n` usages that mean `fqn`.
pub open spec fn usage_places(occs: Seq<OccurrenceView>, fqn: Seq<char>, n: nat) -> Seq<
    DocumentHighlight,
>
    decreases n,
{
    if n == 0 {
        seq![]
    } else {
        let before = usage_places(occs, fqn, (n - 1) as nat);
        if occs[n - 1].fqn == fqn {
            before.push(
                DocumentHighlight { range: occs[n - 1].name_range, kind: usage_kind(fqn) },
            )
        } else {
            before
        }
    }
}

/// Those of the first `n` symbols that define `fqn`. A `defmethod` names the multimethod
/// that it extends and defines nothing.
pub open spec fn definition_places(syms: Seq<SymbolView>, fqn: Seq<char>, n: nat) -> Seq<
    DocumentHighlight,
>
    decreases n,
{
    if n == 0 {
        seq![]
    } else {
        let before = definition_places(syms, fqn, (n - 1) as nat);
        if syms[n - 1].kind != DefKind::Defmethod && syms[n - 1].fqn == fqn {
            before.push(
                DocumentHighlight { range: syms[n - 1].name_range, kind: definition_kind(fqn) },
            )
        } else {
            before
        }
    }
}

/// Every place of the text of the file `path` that means `fqn`.
pub open spec fn named_places(v: IndexView, text: Seq<char>, path: Seq<char>, fqn: Seq<char>) -> Seq<
    DocumentHighlight,
> {
    if extension_of(path) == Some("edn"@) {
        let occs = occurrences_of(text, path, v.config);
        usage_places(occs, fqn, occs.len())
    } else {
        match analysis_of(text, path, v.config) {
            Some(a) => usage_places(a.occurrences, fqn, a.occurrences.len()) + definition_places(
                a.symbols,
                fqn,
                a.symbols.len(),
            ),
            None => seq![],
        }
    }
}

/// Of the first `n` places, those whose range is not that of the one kept before.
pub open spec fn one_per_range(s: Seq<DocumentHighlight>, n: nat) -> Seq<DocumentHighlight>
    decreases n,
{
    if n == 0 {
        seq![]
    } else {
        let before = one_per_range(s, (n - 1) as nat);
        if before.len() > 0 && before.last().range == s[n - 1].range {
            before
        } else {
            before.push(s[n - 1])
        }
    }
}

/// The places to highlight at a position of the open document `uri`, the file `path`. A
/// local shadows whatever else has its name.
pub open spec fn highlights_at(
    v: IndexView,
    store: StoreView,
    uri: Seq<char>,
    path: Seq<char>,
    pos: Position,
) -> Seq<DocumentHighlight> {
    match local_at(store, uri, pos) {
        Some((_, refs)) => local_places(refs),
        None => match fqn_at(v, store, uri, path, pos) {
            Some(fqn) => {
                let found = named_places(v, store.docs[uri], path, fqn);
                let sorted = arranged::<DocumentHighlight>(found, found.len());
                one_per_range(sorted, sorted.len())
            },
            None => seq![],
        },
    }
}

fn local_highlights(documents: &DocumentStore, uri: &str, pos: Position) -> (r: Option<
    Vec<DocumentHighlight>,
>)
    ensures
        match r {
            Some(found) => local_at(documents@, uri@, pos) matches Some((_, refs)) && found@
                == local_places(refs),
            None => local_at(documents@, uri@, pos) is None,
        },
{
    match local_refs_at(documents, uri, pos) {
        Some((_, refs)) => {
            let mut out: Vec<DocumentHighlight> = Vec::new();
            out.push(
                DocumentHighlight { range: refs.declaration, kind: DocumentHighlightKind::Write },
            );
            let ghost all = local_places(refs.deep_view());
            let mut i: usize = 0;
            while i < refs.usages.len()
                invariant
                    i <= refs.usages@.len(),
                    all == local_places(refs.deep_view()),
                    out@ =~= all.take(i + 1),
                decreases refs.usages@.len() - i,
            {
                out.push(
                    DocumentHighlight { range: refs.usages[i], kind: DocumentHighlightKind::Read },
                );
                i += 1;
            }
            assert(out@ =~= all);
            Some(out)
        },
        None => None,
    }
}

fn add_usages(occs: &Vec<Occurrence>, fqn: &str, out: &mut Vec<DocumentHighlight>)
    ensures
        final(out)@ == old(out)@ + usage_places(occs.deep_view(), fqn@, occs@.len()),
{
    let ghost all = occs.deep_view();
    let ghost before = out@;
    let kind = if starts_with_char(fqn, ':') {
        DocumentHighlightKind::Text
    } else {
        DocumentHighlightKind::Read
    };
    let mut i: usize = 0;
    assert(before + usage_places(all, fqn@, 0) =~= before);
    while i < occs.len()
        invariant
            i <= occs@.len(),
            all == occs.deep_view(),
            kind == usage_kind(fqn@),
            out@ == before + usage_places(all, fqn@, i as nat),
        decreases occs@.len() - i,
    {
        assert(all[i as int] == occs@[i as int].deep_view());
        if str_eq(occs[i].fqn.as_str(), fqn) {
            out.push(DocumentHighlight { range: occs[i].name_range, kind });
        }
        assert(out@ =~= before + usage_places(all, fqn@, (i + 1) as nat));
        i += 1;
    }
}

fn add_definitions(syms: &Vec<Symbol>, fqn: &str, out: &mut Vec<DocumentHighlight>)
    ensures
        final(out)@ == old(out)@ + definition_places(syms.deep_view(), fqn@, syms@.len()),
{
    let ghost all = syms.deep_view();
    let ghost before = out@;
    let kind = if starts_with_char(fqn, ':') {
        DocumentHighlightKind::Text
    } else {
        DocumentHighlightKind::Write
    };
    let mut i: usize = 0;
    assert(before + definition_places(all, fqn@, 0) =~= before);
    while i < syms.len()
        invariant
            i <= syms@.len(),
            all == syms.deep_view(),
            kind == definition_kind(fqn@),
            out@ == before + definition_places(all, fqn@, i as nat),
        decreases syms@.len() - i,
    {
        assert(all[i as int] == syms@[i as int].deep_view());
        if syms[i].kind != DefKind::Defmethod && str_eq(syms[i].fqn.as_str(), fqn) {
            out.push(DocumentHighlight { range: syms[i].name_range, kind });
        }
        assert(out@ =~= before + definition_places(all, fqn@, (i + 1) as nat));
        i += 1;
    }
}

fn keep_one_per_range(sorted: &Vec<DocumentHighlight>) -> (r: Vec<DocumentHighlight>)
    ensures
        r@ == one_per_range(sorted@, sorted@.len()),
{
    let mut out: Vec<DocumentHighlight> = Vec::new();
    let mut i: usize = 0;
    while i < sorted.len()
        invariant
            i <= sorted@.len(),
            out@ == one_per_range(sorted@, i as nat),
        decreases sorted@.len() - i,
    {
        let n: usize = out.len();
        if n == 0 || out[n - 1].range != sorted[i].range {
            out.push(sorted[i]);
        }
        i += 1;
    }
    out
}

/// The places to highlight at a position of the open document `uri`, the file `path`.
pub fn document_highlight(
    index: &Index,
    documents: &DocumentStore,
    uri: &str,
    path: &str,
    pos: Position,
) -> (r: Option<Vec<DocumentHighlight>>)
    ensures
        ({
            let found = highlights_at(index@, documents@, uri@, path@, pos);
            match r {
                Some(places) => places@ == found && found.len() > 0,
                None => found.len() == 0,
            }
        }),
{
    if let Some(found) = local_highlights(documents, uri, pos) {
        return Some(found);
    }
    let fqn = match resolve_fqn_at(index, documents, uri, path, pos) {
        Some(fqn) => fqn,
        None => return None,
    };
    let snapshot = match documents.snapshot(uri) {
        Some(snapshot) => snapshot,
        None => return None,
    };
    let text = snapshot.text.as_str();
    let mut found: Vec<DocumentHighlight> = Vec::new();
    if is_edn(path) {
        add_usages(&file_occurrences_with(text, path, index.extract_config()), fqn.as_str(), &mut found);
    } else if let Ok((_, syms, occs)) = extract_full_with(text, path, index.extract_config()) {
        add_usages(&occs, fqn.as_str(), &mut found);
        add_definitions(&syms, fqn.as_str(), &mut found);
    }
    assert(found@ =~= named_places(index@, documents@.docs[uri@], path@, fqn@));
    assert(found.deep_view() =~= found@);
    let sorted = arrange(&found);
    assert(sorted.deep_view() =~= sorted@);
    proof {
        law_arranged::<DocumentHighlight>(found@, found@.len());
    }
    let out = keep_one_per_range(&sorted);
    if out.len() == 0 {
        None
    } else {
        Some(out)
    }
}

/// Whether the place `i` has another range than the one before it.
pub open spec fn apart(s: Seq<DocumentHighlight>, i: int) -> bool {
    s[i - 1].range != s[i].range
}

/// Whether `x` is one of the first `n` places.
pub open spec fn among(s: Seq<DocumentHighlight>, x: DocumentHighlight, n: nat) -> bool {
    exists|a: int| 0 <= a < n && #[trigger] s[a] == x
}

/// Highlights come in document order, and no two that follow each other share their range.
pub proof fn law_highlights_are_ordered(s: Seq<DocumentHighlight>, n: nat)
    requires
        ordered::<DocumentHighlight>(s),
        n <= s.len(),
    ensures
        ordered::<DocumentHighlight>(one_per_range(s, n)),
        forall|i: int| 0 < i < one_per_range(s, n).len() ==> #[trigger] apart(one_per_range(s, n), i),
        forall|i: int|
            0 <= i < one_per_range(s, n).len() ==> among(s, #[trigger] one_per_range(s, n)[i], n),
        n > 0 ==> one_per_range(s, n).len() > 0,
    decreases n,
{
    if n > 0 {
        law_highlights_are_ordered(s, (n - 1) as nat);
        let kept = one_per_range(s, n);
        let before = one_per_range(s, (n - 1) as nat);
        assert forall|i: int| 0 <= i < kept.len() implies among(s, #[trigger] kept[i], n) by {
            if i < before.len() {
                assert(kept[i] == before[i]);
                assert(among(s, before[i], (n - 1) as nat));
            } else {
                assert(s[n - 1] == kept[i]);
            }
        }
        assert forall|i: int, j: int| 0 <= i <= j < kept.len() implies DocumentHighlight::le(#[trigger] kept[i], #[trigger] kept[j]) by {
            if j < before.len() {
                assert(kept[i] == before[i] && kept[j] == before[j]);
            } else {
                assert(among(s, kept[i], n));
                let a = choose|a: int| 0 <= a < n && #[trigger] s[a] == kept[i];
                assert(kept[j] == s[n - 1]);
                assert(DocumentHighlight::le(s[a], s[n - 1]));
            }
        }
        assert forall|i: int| 0 < i < kept.len() implies #[trigger] apart(kept, i) by {
            if i < before.len() {
                assert(apart(before, i));
                assert(kept[i] == before[i] && kept[i - 1] == before[i - 1]);
            }
        }
    }
}

/// A local that shadows a global highlights only itself.
pub proof fn law_locals_shadow(
    v: IndexView,
    store: StoreView,
    uri: Seq<char>,
    path: Seq<char>,
    pos: Position,
)
    requires
        local_at(store, uri, pos) is Some,
    ensures
        highlights_at(v, store, uri, path, pos) == local_places(
            (local_at(store, uri, pos)->0).1,
        ),
{
}

proof fn lemma_usage_places(
    occs: Seq<OccurrenceView>,
    fqn: Seq<char>,
    n: nat,
    h: DocumentHighlight,
)
    requires
        n <= occs.len(),
    ensures
        usage_places(occs, fqn, n).contains(h) <==> exists|k: int|
            0 <= k < n && (#[trigger] occs[k]).fqn == fqn && h == (DocumentHighlight {
                range: occs[k].name_range,
                kind: usage_kind(fqn),
            }),
    decreases n,
{
    if n > 0 {
        let before = usage_places(occs, fqn, (n - 1) as nat);
        let last = DocumentHighlight { range: occs[n - 1].name_range, kind: usage_kind(fqn) };
        lemma_usage_places(occs, fqn, (n - 1) as nat, h);
        lemma_push_contains(before, last, h);
        assert(occs[n - 1].name_range == last.range);
        if before.contains(h) {
            let k = choose|k: int|
                0 <= k < n - 1 && (#[trigger] occs[k]).fqn == fqn && h == (DocumentHighlight {
                    range: occs[k].name_range,
                    kind: usage_kind(fqn),
                });
            assert(occs[k].fqn == fqn);
        }
        if exists|k: int|
            0 <= k < n && (#[trigger] occs[k]).fqn == fqn && h == (DocumentHighlight {
                range: occs[k].name_range,
                kind: usage_kind(fqn),
            }) {
            let k = choose|k: int|
                0 <= k < n && (#[trigger] occs[k]).fqn == fqn && h == (DocumentHighlight {
                    range: occs[k].name_range,
                    kind: usage_kind(fqn),
                });
            if k < n - 1 {
                assert(before.contains(h));
            }
        }
    } else {
        assert(usage_places(occs, fqn, n) =~= seq![]);
    }
}

proof fn lemma_definition_places(
    syms: Seq<SymbolView>,
    fqn: Seq<char>,
    n: nat,
    h: DocumentHighlight,
)
    requires
        n <= syms.len(),
    ensures
        definition_places(syms, fqn, n).contains(h) <==> exists|k: int|
            0 <= k < n && (#[trigger] syms[k]).fqn == fqn && syms[k].kind != DefKind::Defmethod && h
                == (DocumentHighlight { range: syms[k].name_range, kind: definition_kind(fqn) }),
    decreases n,
{
    if n > 0 {
        let before = definition_places(syms, fqn, (n - 1) as nat);
        let last = DocumentHighlight {
            range: syms[n - 1].name_range,
            kind: definition_kind(fqn),
        };
        lemma_definition_places(syms, fqn, (n - 1) as nat, h);
        lemma_push_contains(before, last, h);
        assert(syms[n - 1].name_range == last.range);
        if before.contains(h) {
            let k = choose|k: int|
                0 <= k < n - 1 && (#[trigger] syms[k]).fqn == fqn && syms[k].kind
                    != DefKind::Defmethod && h == (DocumentHighlight {
                    range: syms[k].name_range,
                    kind: definition_kind(fqn),
                });
            assert(syms[k].fqn == fqn);
        }
        if exists|k: int|
            0 <= k < n && (#[trigger] syms[k]).fqn == fqn && syms[k].kind != DefKind::Defmethod && h
                == (DocumentHighlight { range: syms[k].name_range, kind: definition_kind(fqn) }) {
            let k = choose|k: int|
                0 <= k < n && (#[trigger] syms[k]).fqn == fqn && syms[k].kind != DefKind::Defmethod
                    && h == (DocumentHighlight {
                    range: syms[k].name_range,
                    kind: definition_kind(fqn),
                });
            if k < n - 1 {
                assert(before.contains(h));
            }
        }
    } else {
        assert(definition_places(syms, fqn, n) =~= seq![]);
    }
}

proof fn lemma_ranges_stay(s: Seq<DocumentHighlight>, n: nat, i: int)
    requires
        0 <= i < n <= s.len(),
    ensures
        exists|j: int|
            0 <= j < one_per_range(s, n).len() && (#[trigger] one_per_range(s, n)[j]).range
                == s[i].range,
    decreases n,
{
    let before = one_per_range(s, (n - 1) as nat);
    let after = one_per_range(s, n);
    if i < n - 1 {
        lemma_ranges_stay(s, (n - 1) as nat, i);
        let j = choose|j: int|
            0 <= j < before.len() && (#[trigger] before[j]).range == s[i].range;
        assert(after[j].range == s[i].range);
    } else if before.len() > 0 && before.last().range == s[n - 1].range {
        assert(after[before.len() - 1].range == s[i].range);
    } else {
        assert(after[before.len() as int].range == s[i].range);
    }
}

/// Whether the name `fqn` is used at the range in the text of the file.
pub open spec fn used_there(v: IndexView, text: Seq<char>, path: Seq<char>, fqn: Seq<char>, range: Range) -> bool {
    has_usage(occurrences_of(text, path, v.config), fqn, range)
}

/// Whether the name `fqn` is defined at the range in the text of a source file. A method
/// defines nothing of its own.
pub open spec fn defined_there(
    v: IndexView,
    text: Seq<char>,
    path: Seq<char>,
    fqn: Seq<char>,
    range: Range,
) -> bool {
    extension_of(path) != Some("edn"@) && (analysis_of(text, path, v.config) matches Some(a)
        && exists|k: int|
        0 <= k < a.symbols.len() && (#[trigger] a.symbols[k]).fqn == fqn && a.symbols[k].kind
            != DefKind::Defmethod && a.symbols[k].name_range == range)
}

proof fn lemma_named_places(
    v: IndexView,
    text: Seq<char>,
    path: Seq<char>,
    fqn: Seq<char>,
    h: DocumentHighlight,
)
    ensures
        named_places(v, text, path, fqn).contains(h) <==> {
            ||| used_there(v, text, path, fqn, h.range) && h.kind == usage_kind(fqn)
            ||| defined_there(v, text, path, fqn, h.range) && h.kind == definition_kind(fqn)
        },
{
    let occs = occurrences_of(text, path, v.config);
    lemma_usage_places(occs, fqn, occs.len(), h);
    assert(usage_places(occs, fqn, occs.len()).contains(h) <==> used_there(
        v,
        text,
        path,
        fqn,
        h.range,
    ) && h.kind == usage_kind(fqn)) by {
        if used_there(v, text, path, fqn, h.range) {
            let j = choose|j: int|
                0 <= j < occs.len() && (#[trigger] occs[j]).fqn == fqn && occs[j].name_range
                    == h.range;
            assert(occs[j].fqn == fqn);
        }
        if usage_places(occs, fqn, occs.len()).contains(h) {
            let k = choose|k: int|
                0 <= k < occs.len() && (#[trigger] occs[k]).fqn == fqn && h == (
                DocumentHighlight { range: occs[k].name_range, kind: usage_kind(fqn) });
            assert(occs[k].fqn == fqn && occs[k].name_range == h.range);
        }
    }
    if extension_of(path) != Some("edn"@) {
        if let Some(a) = analysis_of(text, path, v.config) {
            let defs = definition_places(a.symbols, fqn, a.symbols.len());
            lemma_definition_places(a.symbols, fqn, a.symbols.len(), h);
            lemma_concat_contains(usage_places(occs, fqn, occs.len()), defs, h);
            if defined_there(v, text, path, fqn, h.range) {
                let k = choose|k: int|
                    0 <= k < a.symbols.len() && (#[trigger] a.symbols[k]).fqn == fqn
                        && a.symbols[k].kind != DefKind::Defmethod && a.symbols[k].name_range
                        == h.range;
                assert(a.symbols[k].fqn == fqn);
            }
            if defs.contains(h) {
                let k = choose|k: int|
                    0 <= k < a.symbols.len() && (#[trigger] a.symbols[k]).fqn == fqn
                        && a.symbols[k].kind != DefKind::Defmethod && h == (DocumentHighlight {
                        range: a.symbols[k].name_range,
                        kind: definition_kind(fqn),
                    });
                assert(a.symbols[k].name_range == h.range);
            }
        }
    }
}

/// What is highlighted of a name is every place of the document that defines or uses it, and
/// no other: a definition of a var as written, a usage as read, and a keyword as text.
pub proof fn law_every_place_of_a_name_is_highlighted(
    v: IndexView,
    store: StoreView,
    uri: Seq<char>,
    path: Seq<char>,
    pos: Position,
    fqn: Seq<char>,
    range: Range,
)
    requires
        local_at(store, uri, pos) is None,
        fqn_at(v, store, uri, path, pos) == Some(fqn),
    ensures
        (exists|i: int|
            0 <= i < highlights_at(v, store, uri, path, pos).len() && (#[trigger] highlights_at(
                v,
                store,
                uri,
                path,
                pos,
            )[i]).range == range) <==> used_there(v, store.docs[uri], path, fqn, range)
            || defined_there(v, store.docs[uri], path, fqn, range),
        forall|i: int|
            0 <= i < highlights_at(v, store, uri, path, pos).len() ==> {
                let h = #[trigger] highlights_at(v, store, uri, path, pos)[i];
                if fqn.len() > 0 && fqn[0] == ':' {
                    h.kind == DocumentHighlightKind::Text
                } else {
                    ||| h.kind == DocumentHighlightKind::Write && defined_there(
                        v,
                        store.docs[uri],
                        path,
                        fqn,
                        h.range,
                    )
                    ||| h.kind == DocumentHighlightKind::Read && used_there(
                        v,
                        store.docs[uri],
                        path,
                        fqn,
                        h.range,
                    )
                }
            },
{
    let text = store.docs[uri];
    let found = named_places(v, text, path, fqn);
    let sorted = arranged::<DocumentHighlight>(found, found.len());
    let kept = one_per_range(sorted, sorted.len());
    law_arranged::<DocumentHighlight>(found, found.len());
    assert(found.take(found.len() as int) =~= found);
    found.to_multiset_ensures();
    sorted.to_multiset_ensures();
    assert forall|h: DocumentHighlight| #[trigger] sorted.contains(h) <==> found.contains(h) by {
        assert(sorted.contains(h) <==> sorted.to_multiset().count(h) > 0);
        assert(found.contains(h) <==> found.to_multiset().count(h) > 0);
    }
    law_highlights_are_ordered(sorted, sorted.len());
    assert forall|i: int| 0 <= i < kept.len() implies found.contains(#[trigger] kept[i]) by {
        assert(among(sorted, kept[i], sorted.len()));
        let a = choose|a: int| 0 <= a < sorted.len() && #[trigger] sorted[a] == kept[i];
        assert(sorted.contains(sorted[a]));
    }
    assert forall|i: int| 0 <= i < kept.len() implies {
        let h = #[trigger] kept[i];
        ||| used_there(v, text, path, fqn, h.range) && h.kind == usage_kind(fqn)
        ||| defined_there(v, text, path, fqn, h.range) && h.kind == definition_kind(fqn)
    } by {
        lemma_named_places(v, text, path, fqn, kept[i]);
    }
    if used_there(v, text, path, fqn, range) {
        let h = DocumentHighlight { range, kind: usage_kind(fqn) };
        lemma_named_places(v, text, path, fqn, h);
        assert(sorted.contains(h));
        lemma_ranges_stay(sorted, sorted.len(), sorted.index_of(h));
    }
    if defined_there(v, text, path, fqn, range) {
        let h = DocumentHighlight { range, kind: definition_kind(fqn) };
        lemma_named_places(v, text, path, fqn, h);
        assert(sorted.contains(h));
        lemma_ranges_stay(sorted, sorted.len(), sorted.index_of(h));
    }
}

/// What is highlighted of a local is its declaration, as written, and its usages, as read.
pub proof fn law_every_place_of_a_local_is_highlighted(
    v: IndexView,
    store: StoreView,
    uri: Seq<char>,
    path: Seq<char>,
    pos: Position,
    word: Seq<char>,
    refs: LocalRefsView,
    h: DocumentHighlight,
)
    requires
        local_at(store, uri, pos) == Some((word, refs)),
    ensures
        highlights_at(v, store, uri, path, pos).contains(h) <==> {
            ||| h.kind == DocumentHighlightKind::Write && h.range == refs.declaration
            ||| h.kind == DocumentHighlightKind::Read && refs.usages.contains(h.range)
        },
{
    let all = highlights_at(v, store, uri, path, pos);
    if all.contains(h) {
        let i = all.index_of(h);
        if i > 0 {
            assert(refs.usages[i - 1] == h.range);
        }
    }
    if h.kind == DocumentHighlightKind::Write && h.range == refs.declaration {
        assert(all[0] == h);
    }
    if h.kind == DocumentHighlightKind::Read && refs.usages.contains(h.range) {
        assert(all[1 + refs.usages.index_of(h.range)] == h);
    }
}

}
