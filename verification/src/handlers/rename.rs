//! Renaming: what a rename at a position would target, why it is refused, and the edits
//! that it makes.

use vstd::prelude::*;
use crate::chars::{ascii_digit, is_ascii_digit};
use crate::collect::{
    contains_str, dict_get, key_from, law_dict_get_after_put, lemma_key_from, push_item, push_str,
    strs, Dict,
};
use crate::config::is_edn;
use crate::document::{ident_char, is_clj_ident_char, DocumentStore, StoreView};
use crate::handlers::matching::has_suffix;
use crate::handlers::references::{
    add_places, all_places, fqn_at, indexed_files, is_usage, lemma_concat_contains,
    lemma_usage_places, lists_files, live, local_at, local_refs_at, meaning, occurrences_for, open_files, places, resolve_fqn_at, usages, FileView, Location,
    LocationView, OpenDoc, OpenView,
};
use crate::index::extractor::{analysis_of, extract_full_with, occurrences_of};
use crate::index::locals::{locals_in_tree, visible, LocalRefs, LocalRefsView};
use crate::index::model::{OccurrenceView, Symbol, SymbolView};
use crate::index::scope::{BindingView, LocalBinding};
use crate::index::symbols::{at, Index, IndexView};
use crate::lsp::{Position, Range, TextEdit, TextEditView};
use crate::path::extension_of;
use crate::syntax::{Form, FormView};
use crate::text::{
    chars_of, concat2, concat3, decimal, decimal_of, law_split_at_the_first, line_of, nth_line, slice_units, split_first,
    split_once, starts_with_char, str_eq, string_of, utf16_count, utf16_len, utf16_slice,
};

verus! {

/// Why a rename is refused.
#[derive(Clone, Debug)]
pub enum RenameError {
    /// The document is no project file.
    LibraryFile,
    /// The local is bound by a destructuring that its name is the key of.
    DestructuredKey(String),
    /// Nothing stands at the position.
    Nothing,
    /// What stands there has no definition.
    NoDefinition(String),
    /// What stands there is not defined in the project.
    NotProject(String),
    /// A keyword without a namespace.
    UnqualifiedKeyword(String),
    /// A keyword of a library's namespace.
    LibraryKeyword(String),
    /// A file in which the keyword stands cannot be read.
    Unreadable { fqn: String, file: String },
    /// A destructuring would go on reading the old keyword.
    KeepsOldKey { fqn: String, token: String, file: String, line: u32, name: String },
    /// What stands at a usage is not the keyword.
    NotTheKeyword { fqn: String, token: String, file: String, line: u32, name: String },
    /// The project has no usage of the keyword.
    NoSite(String),
    /// The new name of a keyword was given with a colon.
    Colon(String),
    /// The new name is no symbol.
    InvalidName(String),
    /// The new name of a local is bound already.
    Captured { word: String, new_name: String },
}

/// What a [`RenameError`] says.
pub ghost enum ErrorView {
    LibraryFile,
    DestructuredKey(Seq<char>),
    Nothing,
    NoDefinition(Seq<char>),
    NotProject(Seq<char>),
    UnqualifiedKeyword(Seq<char>),
    LibraryKeyword(Seq<char>),
    Unreadable { fqn: Seq<char>, file: Seq<char> },
    KeepsOldKey {
        fqn: Seq<char>,
        token: Seq<char>,
        file: Seq<char>,
        line: u32,
        name: Seq<char>,
    },
    NotTheKeyword {
        fqn: Seq<char>,
        token: Seq<char>,
        file: Seq<char>,
        line: u32,
        name: Seq<char>,
    },
    NoSite(Seq<char>),
    Colon(Seq<char>),
    InvalidName(Seq<char>),
    Captured { word: Seq<char>, new_name: Seq<char> },
}

impl DeepView for RenameError {
    type V = ErrorView;

    open spec fn deep_view(&self) -> ErrorView {
        match self {
            RenameError::LibraryFile => ErrorView::LibraryFile,
            RenameError::DestructuredKey(w) => ErrorView::DestructuredKey(w@),
            RenameError::Nothing => ErrorView::Nothing,
            RenameError::NoDefinition(f) => ErrorView::NoDefinition(f@),
            RenameError::NotProject(f) => ErrorView::NotProject(f@),
            RenameError::UnqualifiedKeyword(f) => ErrorView::UnqualifiedKeyword(f@),
            RenameError::LibraryKeyword(n) => ErrorView::LibraryKeyword(n@),
            RenameError::Unreadable { fqn, file } => ErrorView::Unreadable {
                fqn: fqn@,
                file: file@,
            },
            RenameError::KeepsOldKey { fqn, token, file, line, name } => ErrorView::KeepsOldKey {
                fqn: fqn@,
                token: token@,
                file: file@,
                line: *line,
                name: name@,
            },
            RenameError::NotTheKeyword { fqn, token, file, line, name } =>
                ErrorView::NotTheKeyword {
                fqn: fqn@,
                token: token@,
                file: file@,
                line: *line,
                name: name@,
            },
            RenameError::NoSite(f) => ErrorView::NoSite(f@),
            RenameError::Colon(n) => ErrorView::Colon(n@),
            RenameError::InvalidName(n) => ErrorView::InvalidName(n@),
            RenameError::Captured { word, new_name } => ErrorView::Captured {
                word: word@,
                new_name: new_name@,
            },
        }
    }
}

/// Where the colons from `i` on end.
pub open spec fn colons_end(cs: Seq<char>, i: nat) -> nat
    decreases cs.len() - i,
{
    if i < cs.len() && cs[i as int] == ':' {
        colons_end(cs, i + 1)
    } else {
        i
    }
}

/// `cs` without the colons that it starts with.
pub open spec fn without_colons(cs: Seq<char>) -> Seq<char> {
    cs.skip(colons_end(cs, 0) as int)
}

/// `s` without the colons that it starts with.
pub fn strip_colons(s: &str) -> (r: String)
    ensures
        r@ == without_colons(s@),
{
    let chars = chars_of(s);
    let len: usize = chars.len();
    let mut i: usize = 0;
    while i < len && chars[i] == ':'
        invariant
            i <= len == chars@.len(),
            chars@ == s@,
            colons_end(s@, 0) == colons_end(s@, i as nat),
        decreases len - i,
    {
        i += 1;
    }
    let out = string_of(&chars, i, len);
    assert(out@ =~= s@.skip(i as int));
    out
}

/// The line of a file, counted from one.
pub open spec fn place_of(file: Seq<char>, line: u32) -> Seq<char> {
    file + ":"@ + decimal_of((line + 1) as nat)
}

/// What the user is told.
pub open spec fn message_of(e: ErrorView) -> Seq<char> {
    match e {
        ErrorView::LibraryFile => "cannot rename from a library file"@,
        ErrorView::DestructuredKey(word) => "cannot rename a :keys/:strs/:syms destructured binding '"@
            + word + "': rewrite it as {new-name :"@ + word + "} first"@,
        ErrorView::Nothing => "nothing to rename here"@,
        ErrorView::NoDefinition(fqn) => "cannot rename: no definition found for "@ + fqn,
        ErrorView::NotProject(fqn) => "cannot rename library or built-in symbol "@ + fqn,
        ErrorView::UnqualifiedKeyword(fqn) => "cannot rename the unqualified keyword "@ + fqn
            + ": the same name in unrelated maps is not one thing"@,
        ErrorView::LibraryKeyword(ns) => "cannot rename a keyword of library namespace "@ + ns,
        ErrorView::Unreadable { fqn, file } => "cannot rename "@ + fqn + ": "@ + file
            + " is unreadable"@,
        ErrorView::KeepsOldKey { fqn, token, file, line, name } => "cannot rename "@ + fqn
            + ": the {:keys ["@ + token + "]} destructuring at "@ + place_of(file, line)
            + " would keep reading the old key; rewrite it as {"@ + name + " "@ + fqn
            + "} first"@,
        ErrorView::NotTheKeyword { fqn, token, file, line, name } => "cannot rename "@ + fqn
            + ": '"@ + token + "' at "@ + place_of(file, line)
            + " is not a keyword ending in '"@ + name + "'"@,
        ErrorView::NoSite(fqn) => "cannot rename "@ + fqn + ": no project occurrence to rewrite"@,
        ErrorView::Colon(new_name) => "cannot rename to '"@ + new_name
            + "': type the new name without the colon ('"@ + without_colons(new_name) + "')"@,
        ErrorView::InvalidName(new_name) => "cannot rename: '"@ + new_name
            + "' is not a valid symbol name"@,
        ErrorView::Captured { word, new_name } => "cannot rename '"@ + word + "' to '"@ + new_name
            + "': '"@ + new_name + "' is already bound in that scope"@,
    }
}

fn line_place(file: &str, line: u32) -> (r: String)
    ensures
        r@ == place_of(file@, line),
{
    let n: u64 = line as u64 + 1;
    concat3(file, ":", decimal(n).as_str())
}

impl RenameError {
    /// What the user is told.
    pub fn message(&self) -> (r: String)
        ensures
            r@ == message_of(self.deep_view()),
    {
        match self {
            RenameError::LibraryFile => "cannot rename from a library file".to_owned(),
            RenameError::DestructuredKey(word) => {
                let mut m = concat2(
                    "cannot rename a :keys/:strs/:syms destructured binding '",
                    word.as_str(),
                );
                m.append("': rewrite it as {new-name :");
                m.append(word.as_str());
                m.append("} first");
                m
            },
            RenameError::Nothing => "nothing to rename here".to_owned(),
            RenameError::NoDefinition(fqn) => concat2(
                "cannot rename: no definition found for ",
                fqn.as_str(),
            ),
            RenameError::NotProject(fqn) => concat2(
                "cannot rename library or built-in symbol ",
                fqn.as_str(),
            ),
            RenameError::UnqualifiedKeyword(fqn) => concat3(
                "cannot rename the unqualified keyword ",
                fqn.as_str(),
                ": the same name in unrelated maps is not one thing",
            ),
            RenameError::LibraryKeyword(ns) => concat2(
                "cannot rename a keyword of library namespace ",
                ns.as_str(),
            ),
            RenameError::Unreadable { fqn, file } => {
                let mut m = concat3("cannot rename ", fqn.as_str(), ": ");
                m.append(file.as_str());
                m.append(" is unreadable");
                m
            },
            RenameError::KeepsOldKey { fqn, token, file, line, name } => {
                let mut m = concat3("cannot rename ", fqn.as_str(), ": the {:keys [");
                m.append(token.as_str());
                m.append("]} destructuring at ");
                m.append(line_place(file.as_str(), *line).as_str());
                m.append(" would keep reading the old key; rewrite it as {");
                m.append(name.as_str());
                m.append(" ");
                m.append(fqn.as_str());
                m.append("} first");
                m
            },
            RenameError::NotTheKeyword { fqn, token, file, line, name } => {
                let mut m = concat3("cannot rename ", fqn.as_str(), ": '");
                m.append(token.as_str());
                m.append("' at ");
                m.append(line_place(file.as_str(), *line).as_str());
                m.append(" is not a keyword ending in '");
                m.append(name.as_str());
                m.append("'");
                m
            },
            RenameError::NoSite(fqn) => concat3(
                "cannot rename ",
                fqn.as_str(),
                ": no project occurrence to rewrite",
            ),
            RenameError::Colon(new_name) => {
                let mut m = concat3(
                    "cannot rename to '",
                    new_name.as_str(),
                    "': type the new name without the colon ('",
                );
                m.append(strip_colons(new_name.as_str()).as_str());
                m.append("')");
                m
            },
            RenameError::InvalidName(new_name) => concat3(
                "cannot rename: '",
                new_name.as_str(),
                "' is not a valid symbol name",
            ),
            RenameError::Captured { word, new_name } => {
                let mut m = concat3("cannot rename '", word.as_str(), "' to '");
                m.append(new_name.as_str());
                m.append("': '");
                m.append(new_name.as_str());
                m.append("' is already bound in that scope");
                m
            },
        }
    }
}

/// What a range of `text` covers. A keyword never spans lines, so a range over several
/// covers nothing.
pub open spec fn token_of(text: Seq<char>, range: Range) -> Option<Seq<char>> {
    if range.start.line != range.end.line {
        None
    } else {
        match nth_line(text, range.start.line as nat) {
            Some(line) => utf16_slice(
                line,
                range.start.character as nat,
                range.end.character as nat,
            ),
            None => None,
        }
    }
}

/// What a range of `text` covers, on one line.
pub fn token_at(text: &str, range: Range) -> (r: Option<String>)
    ensures
        r.deep_view() == token_of(text@, range),
{
    if range.start.line != range.end.line {
        return None;
    }
    match line_of(text, range.start.line) {
        Some(line) => slice_units(line.as_str(), range.start.character, range.end.character),
        None => None,
    }
}

/// Whether `token` is a keyword, in whatever notation, that ends with `name`.
pub open spec fn ends_with_name(token: Seq<char>, name: Seq<char>) -> bool {
    let head = token.take(token.len() - name.len());
    &&& name.is_suffix_of(token)
    &&& head.len() > 0
    &&& head[0] == ':'
    &&& (head.last() == '/' || head.last() == ':')
}

/// The part of the range of a keyword that covers its name; `None` where the token is no
/// keyword that ends with the name.
pub open spec fn name_part(range: Range, token: Seq<char>, name: Seq<char>) -> Option<Range> {
    let len = utf16_len(name) as u32;
    if ends_with_name(token, name) && len <= range.end.character {
        Some(
            Range {
                start: Position {
                    line: range.end.line,
                    character: (range.end.character - len) as u32,
                },
                end: range.end,
            },
        )
    } else {
        None
    }
}

/// The part of the range of a keyword that covers its name.
pub fn name_suffix_range(range: Range, token: &str, name: &str) -> (r: Option<Range>)
    ensures
        r == name_part(range, token@, name@),
{
    if !has_suffix(token, name) {
        return None;
    }
    let chars = chars_of(token);
    let n: usize = name.unicode_len();
    let head: usize = chars.len() - n;
    let ghost h = token@.take(head as int);
    if head == 0 || chars[0] != ':' || (chars[head - 1] != '/' && chars[head - 1] != ':') {
        assert(head > 0 ==> h[0] == chars@[0] && h.last() == chars@[head - 1]);
        return None;
    }
    assert(h[0] == chars@[0] && h.last() == chars@[head - 1]);
    #[verifier::truncate]
    let len: u32 = utf16_count(name) as u32;
    if len > range.end.character {
        return None;
    }
    Some(
        Range {
            start: Position { line: range.end.line, character: range.end.character - len },
            end: range.end,
        },
    )
}

/// One place that the rename of a keyword rewrites.
#[derive(Clone, Debug)]
pub struct KeywordSite {
    pub file: String,
    /// The whole token.
    pub token: Range,
    /// The part of it that is replaced.
    pub name: Range,
}

/// What a [`KeywordSite`] says.
pub ghost struct SiteView {
    pub file: Seq<char>,
    pub token: Range,
    pub name: Range,
}

impl DeepView for KeywordSite {
    type V = SiteView;

    open spec fn deep_view(&self) -> SiteView {
        SiteView { file: self.file@, token: self.token, name: self.name }
    }
}

/// What a rename targets.
#[derive(Clone, Debug)]
pub enum RenameTarget {
    /// A local: its declaration and usages, all in the same document.
    Local { word: String, refs: LocalRefs },
    /// A definition of the project.
    Global { fqn: String, sym: Symbol },
    /// A qualified keyword: every place that reads it.
    Keyword { sites: Vec<KeywordSite> },
}

/// What a [`RenameTarget`] says.
pub ghost enum TargetView {
    Local { word: Seq<char>, refs: LocalRefsView },
    Global { fqn: Seq<char>, sym: SymbolView },
    Keyword { sites: Seq<SiteView> },
}

impl DeepView for RenameTarget {
    type V = TargetView;

    open spec fn deep_view(&self) -> TargetView {
        match self {
            RenameTarget::Local { word, refs } => TargetView::Local {
                word: word@,
                refs: refs.deep_view(),
            },
            RenameTarget::Global { fqn, sym } => TargetView::Global {
                fqn: fqn@,
                sym: sym.deep_view(),
            },
            RenameTarget::Keyword { sites } => TargetView::Keyword { sites: sites.deep_view() },
        }
    }
}

/// The places where the first `n` symbols define `fqn`.
pub open spec fn defined_at(syms: Seq<SymbolView>, fqn: Seq<char>, file: Seq<char>, n: nat) -> Seq<
    LocationView,
>
    decreases n,
{
    if n == 0 {
        seq![]
    } else {
        let before = defined_at(syms, fqn, file, (n - 1) as nat);
        if syms[n - 1].fqn == fqn {
            before.push(LocationView { file, range: syms[n - 1].name_range })
        } else {
            before
        }
    }
}

/// The places where the first `n` open documents define `fqn`. A configuration file
/// defines nothing.
pub open spec fn open_definitions(
    v: IndexView,
    store: StoreView,
    open: Seq<OpenView>,
    fqn: Seq<char>,
    n: nat,
) -> Seq<LocationView>
    decreases n,
{
    if n == 0 {
        seq![]
    } else {
        let before = open_definitions(v, store, open, fqn, (n - 1) as nat);
        let d = open[n - 1];
        if extension_of(d.path) == Some("edn"@) || store.tree(d.uri) is None {
            before
        } else {
            match analysis_of(store.docs[d.uri], d.path, v.config) {
                Some(a) => before + defined_at(a.symbols, fqn, d.path, a.symbols.len()),
                None => before,
            }
        }
    }
}

/// Whether an open document is the file.
pub open spec fn is_open(open: Seq<OpenView>, file: Seq<char>) -> bool {
    exists|i: int| 0 <= i < open.len() && (#[trigger] open[i]).path == file
}

/// The places where a keyword stands: its definitions, from the open documents, or from
/// the index where the file is not open, and its usages.
pub open spec fn keyword_places(
    v: IndexView,
    store: StoreView,
    open: Seq<OpenView>,
    fqn: Seq<char>,
    files: Seq<Seq<char>>,
) -> Seq<LocationView> {
    let found = usages(v, store, open, fqn, files);
    open_definitions(v, store, open, fqn, open.len()) + (match at(v.symbols, fqn) {
        Some(sym) => if is_open(open, sym.file) {
            seq![]
        } else {
            seq![LocationView { file: sym.file, range: sym.name_range }]
        },
        None => seq![],
    }) + all_places(found, found.len())
}

/// The text of the first open document from `i` on that is the file.
pub open spec fn open_text(store: StoreView, open: Seq<OpenView>, file: Seq<char>, i: nat) -> Option<
    Seq<char>,
>
    decreases open.len() - i,
{
    if i >= open.len() {
        None
    } else if open[i as int].path == file && store.text(open[i as int].uri) is Some {
        store.text(open[i as int].uri)
    } else {
        open_text(store, open, file, i + 1)
    }
}

/// The text of a file: an open document's, or what was read from disk.
pub open spec fn text_of(
    store: StoreView,
    open: Seq<OpenView>,
    disk: Seq<(Seq<char>, Seq<char>)>,
    file: Seq<char>,
) -> Option<Seq<char>> {
    match open_text(store, open, file, 0) {
        Some(text) => Some(text),
        None => dict_get(disk, file),
    }
}

/// Whether a site replaces the range of the file already.
pub open spec fn has_site(sites: Seq<SiteView>, file: Seq<char>, name: Range) -> bool {
    exists|i: int|
        0 <= i < sites.len() && (#[trigger] sites[i]).file == file && sites[i].name == name
}

/// The token of a place, empty where its range covers none.
pub open spec fn token_or_empty(text: Seq<char>, range: Range) -> Seq<char> {
    match token_of(text, range) {
        Some(token) => token,
        None => seq![],
    }
}

/// What becomes of one place of a keyword: nothing where the file is not the project's,
/// a site, or the reason to refuse.
pub open spec fn site_at(
    v: IndexView,
    store: StoreView,
    open: Seq<OpenView>,
    disk: Seq<(Seq<char>, Seq<char>)>,
    fqn: Seq<char>,
    name: Seq<char>,
    place: LocationView,
) -> Result<Option<SiteView>, ErrorView> {
    if !v.occurrences.dom().contains(place.file) {
        Ok(None)
    } else {
        match text_of(store, open, disk, place.file) {
            None => Err(ErrorView::Unreadable { fqn, file: place.file }),
            Some(text) => {
                let token = token_or_empty(text, place.range);
                match name_part(place.range, token, name) {
                    Some(part) => Ok(
                        Some(SiteView { file: place.file, token: place.range, name: part }),
                    ),
                    None => if token.len() > 0 && token[0] == ':' {
                        Err(
                            ErrorView::NotTheKeyword {
                                fqn,
                                token,
                                file: place.file,
                                line: place.range.start.line,
                                name,
                            },
                        )
                    } else {
                        Err(
                            ErrorView::KeepsOldKey {
                                fqn,
                                token,
                                file: place.file,
                                line: place.range.start.line,
                                name,
                            },
                        )
                    },
                }
            },
        }
    }
}

/// The sites of the first `n` places, each once, or the first reason to refuse.
pub open spec fn sites_of(
    v: IndexView,
    store: StoreView,
    open: Seq<OpenView>,
    disk: Seq<(Seq<char>, Seq<char>)>,
    fqn: Seq<char>,
    name: Seq<char>,
    places: Seq<LocationView>,
    n: nat,
) -> Result<Seq<SiteView>, ErrorView>
    decreases n,
{
    if n == 0 {
        Ok(seq![])
    } else {
        match sites_of(v, store, open, disk, fqn, name, places, (n - 1) as nat) {
            Err(e) => Err(e),
            Ok(sites) => match site_at(v, store, open, disk, fqn, name, places[n - 1]) {
                Err(e) => Err(e),
                Ok(None) => Ok(sites),
                Ok(Some(site)) => if has_site(sites, site.file, site.name) {
                    Ok(sites)
                } else {
                    Ok(sites.push(site))
                },
            },
        }
    }
}

/// What the rename of the keyword `fqn` targets, or why it is refused.
pub open spec fn keyword_target_of(
    v: IndexView,
    store: StoreView,
    open: Seq<OpenView>,
    disk: Seq<(Seq<char>, Seq<char>)>,
    fqn: Seq<char>,
    files: Seq<Seq<char>>,
) -> Result<TargetView, ErrorView> {
    match split_first(without_colons(fqn), '/') {
        None => Err(ErrorView::UnqualifiedKeyword(fqn)),
        Some((ns, name)) => if v.namespaces.dom().contains(ns) && !v.owns_namespace(ns) {
            Err(ErrorView::LibraryKeyword(ns))
        } else {
            let places = keyword_places(v, store, open, fqn, files);
            match sites_of(v, store, open, disk, fqn, name, places, places.len()) {
                Err(e) => Err(e),
                Ok(sites) => if sites.len() == 0 {
                    Err(ErrorView::NoSite(fqn))
                } else {
                    Ok(TargetView::Keyword { sites })
                },
            }
        },
    }
}

fn add_definitions(out: &mut Vec<Location>, syms: &Vec<Symbol>, fqn: &str, file: &str)
    ensures
        final(out).deep_view() == old(out).deep_view() + defined_at(
            syms.deep_view(),
            fqn@,
            file@,
            syms@.len(),
        ),
{
    let ghost before = out.deep_view();
    let ghost all = syms.deep_view();
    let mut i: usize = 0;
    assert(before + seq![] =~= before);
    while i < syms.len()
        invariant
            i <= syms@.len(),
            all == syms.deep_view(),
            out.deep_view() == before + defined_at(all, fqn@, file@, i as nat),
        decreases syms@.len() - i,
    {
        assert(all[i as int] == syms@[i as int].deep_view());
        let ghost done = defined_at(all, fqn@, file@, i as nat);
        if str_eq(syms[i].fqn.as_str(), fqn) {
            push_item(out, Location { file: file.to_owned(), range: syms[i].name_range });
            let ghost x = out.deep_view().last();
            assert((before + done).push(x) =~= before + done.push(x));
        }
        i += 1;
    }
}

fn find_open_definitions(
    index: &Index,
    documents: &DocumentStore,
    open: &Vec<OpenDoc>,
    fqn: &str,
) -> (r: Vec<Location>)
    ensures
        r.deep_view() == open_definitions(
            index@,
            documents@,
            open.deep_view(),
            fqn@,
            open@.len(),
        ),
{
    let ghost all = open.deep_view();
    let mut out: Vec<Location> = Vec::new();
    assert(out.deep_view() =~= seq![]);
    let mut i: usize = 0;
    while i < open.len()
        invariant
            i <= open@.len(),
            all == open.deep_view(),
            out.deep_view() == open_definitions(index@, documents@, all, fqn@, i as nat),
        decreases open@.len() - i,
    {
        assert(all[i as int] == open@[i as int].deep_view());
        let path = open[i].path.as_str();
        if !is_edn(path) {
            if let Some(snapshot) = documents.snapshot(open[i].uri.as_str()) {
                if let Ok((_, syms, _)) = extract_full_with(
                    snapshot.text.as_str(),
                    path,
                    index.extract_config(),
                ) {
                    add_definitions(&mut out, &syms, fqn, path);
                }
            }
        }
        i += 1;
    }
    out
}

fn opened(open: &Vec<OpenDoc>, file: &str) -> (r: bool)
    ensures
        r == is_open(open.deep_view(), file@),
{
    let ghost all = open.deep_view();
    let mut i: usize = 0;
    while i < open.len()
        invariant
            i <= open@.len(),
            all == open.deep_view(),
            forall|j: int| 0 <= j < i ==> (#[trigger] all[j]).path != file@,
        decreases open@.len() - i,
    {
        assert(all[i as int] == open@[i as int].deep_view());
        if str_eq(open[i].path.as_str(), file) {
            return true;
        }
        i += 1;
    }
    false
}

/// The places where a keyword stands.
pub fn find_keyword_places(
    index: &Index,
    documents: &DocumentStore,
    open: &Vec<OpenDoc>,
    fqn: &str,
) -> (r: Vec<Location>)
    ensures
        exists|files: Seq<Seq<char>>|
            lists_files(index@, files) && r.deep_view() == #[trigger] keyword_places(
                index@,
                documents@,
                open.deep_view(),
                fqn@,
                files,
            ),
{
    let mut out = find_open_definitions(index, documents, open, fqn);
    let ghost first = out.deep_view();
    if let Some(sym) = index.lookup(fqn) {
        if !opened(open, sym.file.as_str()) {
            push_item(&mut out, Location { file: sym.file.clone(), range: sym.name_range });
        }
    }
    let found = occurrences_for(index, documents, open, fqn);
    let ghost files = choose|files: Seq<Seq<char>>|
        lists_files(index@, files) && found.deep_view() == #[trigger] usages(
            index@,
            documents@,
            open.deep_view(),
            fqn@,
            files,
        );
    add_places(&mut out, &found);
    assert(out.deep_view() =~= keyword_places(
        index@,
        documents@,
        open.deep_view(),
        fqn@,
        files,
    ));
    out
}

fn find_open_text(documents: &DocumentStore, open: &Vec<OpenDoc>, file: &str) -> (r: Option<String>)
    ensures
        r.deep_view() == open_text(documents@, open.deep_view(), file@, 0),
{
    let ghost all = open.deep_view();
    let mut i: usize = 0;
    while i < open.len()
        invariant
            i <= open@.len(),
            all == open.deep_view(),
            open_text(documents@, all, file@, 0) == open_text(documents@, all, file@, i as nat),
        decreases open@.len() - i,
    {
        assert(all[i as int] == open@[i as int].deep_view());
        if str_eq(open[i].path.as_str(), file) {
            if let Some(text) = documents.text(open[i].uri.as_str()) {
                return Some(text);
            }
        }
        i += 1;
    }
    None
}

fn find_text(
    documents: &DocumentStore,
    open: &Vec<OpenDoc>,
    disk: &Dict<String>,
    file: &str,
) -> (r: Option<String>)
    ensures
        r.deep_view() == text_of(documents@, open.deep_view(), disk.deep_view(), file@),
{
    match find_open_text(documents, open, file) {
        Some(text) => Some(text),
        None => match disk.get(file) {
            Some(text) => Some(text.clone()),
            None => None,
        },
    }
}

fn site_known(sites: &Vec<KeywordSite>, file: &str, name: Range) -> (r: bool)
    ensures
        r == has_site(sites.deep_view(), file@, name),
{
    let ghost all = sites.deep_view();
    let mut i: usize = 0;
    while i < sites.len()
        invariant
            i <= sites@.len(),
            all == sites.deep_view(),
            forall|j: int|
                0 <= j < i ==> !((#[trigger] all[j]).file == file@ && all[j].name == name),
        decreases sites@.len() - i,
    {
        assert(all[i as int] == sites@[i as int].deep_view());
        if str_eq(sites[i].file.as_str(), file) && sites[i].name == name {
            return true;
        }
        i += 1;
    }
    false
}

fn check_site(
    index: &Index,
    documents: &DocumentStore,
    open: &Vec<OpenDoc>,
    disk: &Dict<String>,
    fqn: &str,
    name: &str,
    place: &Location,
) -> (r: Result<Option<KeywordSite>, RenameError>)
    ensures
        match r {
            Ok(site) => site_at(
                index@,
                documents@,
                open.deep_view(),
                disk.deep_view(),
                fqn@,
                name@,
                place.deep_view(),
            ) == Ok::<Option<SiteView>, ErrorView>(site.deep_view()),
            Err(e) => site_at(
                index@,
                documents@,
                open.deep_view(),
                disk.deep_view(),
                fqn@,
                name@,
                place.deep_view(),
            ) == Err::<Option<SiteView>, ErrorView>(e.deep_view()),
        },
{
    let file = place.file.as_str();
    if !index.is_project_path(file) {
        return Ok(None);
    }
    let text = match find_text(documents, open, disk, file) {
        Some(text) => text,
        None => return Err(
            RenameError::Unreadable { fqn: fqn.to_owned(), file: file.to_owned() },
        ),
    };
    let token = match token_at(text.as_str(), place.range) {
        Some(token) => token,
        None => String::new(),
    };
    assert(token@ =~= token_or_empty(text@, place.range));
    match name_suffix_range(place.range, token.as_str(), name) {
        Some(part) => Ok(
            Some(KeywordSite { file: file.to_owned(), token: place.range, name: part }),
        ),
        None => {
            let line: u32 = place.range.start.line;
            if starts_with_char(token.as_str(), ':') {
                Err(
                    RenameError::NotTheKeyword {
                        fqn: fqn.to_owned(),
                        token,
                        file: file.to_owned(),
                        line,
                        name: name.to_owned(),
                    },
                )
            } else {
                Err(
                    RenameError::KeepsOldKey {
                        fqn: fqn.to_owned(),
                        token,
                        file: file.to_owned(),
                        line,
                        name: name.to_owned(),
                    },
                )
            }
        },
    }
}

proof fn lemma_refused(
    v: IndexView,
    store: StoreView,
    open: Seq<OpenView>,
    disk: Seq<(Seq<char>, Seq<char>)>,
    fqn: Seq<char>,
    name: Seq<char>,
    places: Seq<LocationView>,
    m: nat,
    n: nat,
)
    requires
        m <= n,
        sites_of(v, store, open, disk, fqn, name, places, m) is Err,
    ensures
        sites_of(v, store, open, disk, fqn, name, places, n) == sites_of(
            v,
            store,
            open,
            disk,
            fqn,
            name,
            places,
            m,
        ),
    decreases n,
{
    if m < n {
        lemma_refused(v, store, open, disk, fqn, name, places, m, (n - 1) as nat);
    }
}

/// The sites of the places of a keyword, or the first reason to refuse.
pub fn keyword_sites(
    index: &Index,
    documents: &DocumentStore,
    open: &Vec<OpenDoc>,
    disk: &Dict<String>,
    fqn: &str,
    name: &str,
    places: &Vec<Location>,
) -> (r: Result<Vec<KeywordSite>, RenameError>)
    ensures
        match r {
            Ok(sites) => sites_of(
                index@,
                documents@,
                open.deep_view(),
                disk.deep_view(),
                fqn@,
                name@,
                places.deep_view(),
                places@.len(),
            ) == Ok::<Seq<SiteView>, ErrorView>(sites.deep_view()),
            Err(e) => sites_of(
                index@,
                documents@,
                open.deep_view(),
                disk.deep_view(),
                fqn@,
                name@,
                places.deep_view(),
                places@.len(),
            ) == Err::<Seq<SiteView>, ErrorView>(e.deep_view()),
        },
{
    let ghost (ov, dv, all) = (open.deep_view(), disk.deep_view(), places.deep_view());
    let mut sites: Vec<KeywordSite> = Vec::new();
    assert(sites.deep_view() =~= seq![]);
    let mut i: usize = 0;
    while i < places.len()
        invariant
            i <= places@.len(),
            ov == open.deep_view(),
            dv == disk.deep_view(),
            all == places.deep_view(),
            sites_of(index@, documents@, ov, dv, fqn@, name@, all, i as nat) == Ok::<
                Seq<SiteView>,
                ErrorView,
            >(sites.deep_view()),
        decreases places@.len() - i,
    {
        assert(all[i as int] == places@[i as int].deep_view());
        match check_site(index, documents, open, disk, fqn, name, &places[i]) {
            Ok(Some(site)) => {
                if !site_known(&sites, site.file.as_str(), site.name) {
                    push_item(&mut sites, site);
                }
            },
            Ok(None) => {},
            Err(e) => {
                proof {
                    lemma_refused(
                        index@,
                        documents@,
                        ov,
                        dv,
                        fqn@,
                        name@,
                        all,
                        (i + 1) as nat,
                        all.len(),
                    );
                }
                return Err(e);
            },
        }
        i += 1;
    }
    Ok(sites)
}

/// Whether a rename's outcome is the one that `spec` gives.
pub open spec fn says<T: DeepView>(r: Result<T, RenameError>, spec: Result<T::V, ErrorView>) -> bool {
    match r {
        Ok(t) => spec == Ok::<T::V, ErrorView>(t.deep_view()),
        Err(e) => spec == Err::<T::V, ErrorView>(e.deep_view()),
    }
}

/// What the rename of the keyword `fqn` targets, or why it is refused. `disk` holds the
/// texts of files that are not open.
pub fn keyword_target(
    index: &Index,
    documents: &DocumentStore,
    open: &Vec<OpenDoc>,
    disk: &Dict<String>,
    fqn: String,
) -> (r: Result<RenameTarget, RenameError>)
    ensures
        exists|files: Seq<Seq<char>>|
            lists_files(index@, files) && says(
                r,
                #[trigger] keyword_target_of(
                    index@,
                    documents@,
                    open.deep_view(),
                    disk.deep_view(),
                    fqn@,
                    files,
                ),
            ),
{
    let ghost (ov, dv) = (open.deep_view(), disk.deep_view());
    let places = find_keyword_places(index, documents, open, fqn.as_str());
    let ghost files = choose|files: Seq<Seq<char>>|
        lists_files(index@, files) && places.deep_view() == #[trigger] keyword_places(
            index@,
            documents@,
            ov,
            fqn@,
            files,
        );
    let ghost goal = keyword_target_of(index@, documents@, ov, dv, fqn@, files);
    let (ns, name) = match split_once(strip_colons(fqn.as_str()).as_str(), '/') {
        Some((ns, name)) => (ns, name),
        None => {
            let r = Err(RenameError::UnqualifiedKeyword(fqn));
            assert(says(r, goal));
            return r;
        },
    };
    if index.is_library_namespace(ns.as_str()) {
        let r = Err(RenameError::LibraryKeyword(ns));
        assert(says(r, goal));
        return r;
    }
    let r = match keyword_sites(
        index,
        documents,
        open,
        disk,
        fqn.as_str(),
        name.as_str(),
        &places,
    ) {
        Ok(sites) => if sites.len() == 0 {
            Err(RenameError::NoSite(fqn))
        } else {
            Ok(RenameTarget::Keyword { sites })
        },
        Err(e) => Err(e),
    };
    assert(says(r, goal));
    r
}

/// What a rename at a position of the open document `uri`, which is the file `path`,
/// targets, or why it is refused whatever the new name. It starts from a project file
/// only. A local is renamed by itself, even where it shadows a definition.
pub open spec fn target_of(
    v: IndexView,
    store: StoreView,
    open: Seq<OpenView>,
    disk: Seq<(Seq<char>, Seq<char>)>,
    uri: Seq<char>,
    path: Seq<char>,
    pos: Position,
    files: Seq<Seq<char>>,
) -> Result<TargetView, ErrorView> {
    if !v.occurrences.dom().contains(path) {
        Err(ErrorView::LibraryFile)
    } else {
        match local_at(store, uri, pos) {
            Some((word, refs)) => if refs.destructured_key {
                Err(ErrorView::DestructuredKey(word))
            } else {
                Ok(TargetView::Local { word, refs })
            },
            None => match fqn_at(v, store, uri, path, pos) {
                None => Err(ErrorView::Nothing),
                Some(fqn) => if fqn.len() > 0 && fqn[0] == ':' {
                    keyword_target_of(v, store, open, disk, fqn, files)
                } else {
                    match at(v.symbols, fqn) {
                        None => Err(ErrorView::NoDefinition(fqn)),
                        Some(sym) => if sym.source is Project {
                            Ok(TargetView::Global { fqn, sym })
                        } else {
                            Err(ErrorView::NotProject(fqn))
                        },
                    }
                },
            },
        }
    }
}

/// What a rename at a position of the open document `uri`, which is the file `path`,
/// targets, or why it is refused whatever the new name.
pub fn rename_target(
    index: &Index,
    documents: &DocumentStore,
    open: &Vec<OpenDoc>,
    disk: &Dict<String>,
    uri: &str,
    path: &str,
    pos: Position,
) -> (r: Result<RenameTarget, RenameError>)
    ensures
        exists|files: Seq<Seq<char>>|
            lists_files(index@, files) && says(
                r,
                #[trigger] target_of(
                    index@,
                    documents@,
                    open.deep_view(),
                    disk.deep_view(),
                    uri@,
                    path@,
                    pos,
                    files,
                ),
            ),
{
    let listed = index.project_files();
    let ghost (ov, dv) = (open.deep_view(), disk.deep_view());
    let ghost files = strs(listed@);
    assert(lists_files(index@, files));
    let ghost goal = target_of(index@, documents@, ov, dv, uri@, path@, pos, files);
    if !index.is_project_path(path) {
        let r = Err(RenameError::LibraryFile);
        assert(says(r, goal));
        return r;
    }
    if let Some((word, refs)) = local_refs_at(documents, uri, pos) {
        let r = if refs.destructured_key {
            Err(RenameError::DestructuredKey(word))
        } else {
            Ok(RenameTarget::Local { word, refs })
        };
        assert(says(r, goal));
        return r;
    }
    let fqn = match resolve_fqn_at(index, documents, uri, path, pos) {
        Some(fqn) => fqn,
        None => {
            let r = Err(RenameError::Nothing);
            assert(says(r, goal));
            return r;
        },
    };
    if starts_with_char(fqn.as_str(), ':') {
        let ghost f = fqn@;
        let r = keyword_target(index, documents, open, disk, fqn);
        let ghost files2 = choose|files: Seq<Seq<char>>|
            lists_files(index@, files) && says(
                r,
                #[trigger] keyword_target_of(index@, documents@, ov, dv, f, files),
            );
        assert(says(r, target_of(index@, documents@, ov, dv, uri@, path@, pos, files2)));
        return r;
    }
    let r = match index.lookup(fqn.as_str()) {
        None => Err(RenameError::NoDefinition(fqn)),
        Some(sym) => if sym.source.is_project() {
            Ok(RenameTarget::Global { fqn, sym })
        } else {
            Err(RenameError::NotProject(fqn))
        },
    };
    assert(says(r, goal));
    r
}

/// Those of the first `n` places that lie in project files which no document is open of.
pub open spec fn unread(
    v: IndexView,
    store: StoreView,
    open: Seq<OpenView>,
    places: Seq<LocationView>,
    n: nat,
) -> Seq<Seq<char>>
    decreases n,
{
    if n == 0 {
        seq![]
    } else {
        let before = unread(v, store, open, places, (n - 1) as nat);
        let file = places[n - 1].file;
        if v.occurrences.dom().contains(file) && open_text(store, open, file, 0) is None
            && !before.contains(file) {
            before.push(file)
        } else {
            before
        }
    }
}

/// The files that a rename at a position has to read from disk: those where the keyword
/// there stands and that are not open, each once.
pub open spec fn reads(
    v: IndexView,
    store: StoreView,
    open: Seq<OpenView>,
    uri: Seq<char>,
    path: Seq<char>,
    pos: Position,
    files: Seq<Seq<char>>,
) -> Seq<Seq<char>> {
    match fqn_at(v, store, uri, path, pos) {
        Some(fqn) => if fqn.len() > 0 && fqn[0] == ':' {
            let places = keyword_places(v, store, open, fqn, files);
            unread(v, store, open, places, places.len())
        } else {
            seq![]
        },
        None => seq![],
    }
}

/// The files that a rename at a position has to read from disk.
pub fn files_to_read(
    index: &Index,
    documents: &DocumentStore,
    open: &Vec<OpenDoc>,
    uri: &str,
    path: &str,
    pos: Position,
) -> (r: Vec<String>)
    ensures
        exists|files: Seq<Seq<char>>|
            lists_files(index@, files) && strs(r@) == #[trigger] reads(
                index@,
                documents@,
                open.deep_view(),
                uri@,
                path@,
                pos,
                files,
            ),
{
    let ghost ov = open.deep_view();
    let listed = index.project_files();
    let ghost some_files = strs(listed@);
    assert(lists_files(index@, some_files));
    let ghost other = reads(index@, documents@, ov, uri@, path@, pos, some_files);
    let mut out: Vec<String> = Vec::new();
    assert(strs(out@) =~= seq![]);
    let fqn = match resolve_fqn_at(index, documents, uri, path, pos) {
        Some(fqn) => fqn,
        None => return out,
    };
    if !starts_with_char(fqn.as_str(), ':') {
        return out;
    }
    let places = find_keyword_places(index, documents, open, fqn.as_str());
    let ghost files = choose|files: Seq<Seq<char>>|
        lists_files(index@, files) && places.deep_view() == #[trigger] keyword_places(
            index@,
            documents@,
            ov,
            fqn@,
            files,
        );
    let ghost all = places.deep_view();
    let mut i: usize = 0;
    while i < places.len()
        invariant
            i <= places@.len(),
            ov == open.deep_view(),
            all == places.deep_view(),
            strs(out@) == unread(index@, documents@, ov, all, i as nat),
        decreases places@.len() - i,
    {
        assert(all[i as int] == places@[i as int].deep_view());
        let file = places[i].file.as_str();
        if index.is_project_path(file) && find_open_text(documents, open, file).is_none()
            && !contains_str(&out, file) {
            push_str(&mut out, file.to_owned());
        }
        i += 1;
    }
    assert(strs(out@) == reads(index@, documents@, ov, uri@, path@, pos, files));
    out
}

/// Whether the text before a name, from the position on, is the alias that qualifies it.
pub open spec fn on_qualifier(line: Seq<char>, pos: Position, name: Range) -> bool {
    let to = name.start.character;
    &&& pos.line == name.start.line
    &&& pos.character < to
    &&& to <= utf16_len(line)
    &&& utf16_slice(line, (to - 1) as nat, to as nat) == Some(seq!['/'])
    &&& all_ident_chars(utf16_slice(line, pos.character as nat, (to - 1) as nat))
}

/// Whether the text is there, and an identifier or empty.
pub open spec fn all_ident_chars(s: Option<Seq<char>>) -> bool {
    match s {
        Some(s) => forall|i: int| 0 <= i < s.len() ==> ident_char(#[trigger] s[i]),
        None => false,
    }
}

/// Whether the text before a name, from the position on, is the alias that qualifies it.
pub fn on_qualifier_of(line: &str, pos: Position, name: Range) -> (r: bool)
    ensures
        r == on_qualifier(line@, pos, name),
{
    let to: u32 = name.start.character;
    if pos.line != name.start.line || pos.character >= to || to as u128 > utf16_count(line) {
        return false;
    }
    match slice_units(line, to - 1, to) {
        Some(unit) => {
            let cs = chars_of(unit.as_str());
            if cs.len() != 1 || cs[0] != '/' {
                let ghost slash = seq!['/'];
                assert(slash.len() == 1 && slash[0] == '/');
                assert(unit@ != slash);
                return false;
            }
            assert(unit@ =~= seq!['/']);
            assert(utf16_slice(line@, (to - 1) as nat, to as nat) == Some(seq!['/']));
        },
        None => return false,
    }
    match slice_units(line, pos.character, to - 1) {
        Some(alias) => {
            assert(utf16_slice(line@, pos.character as nat, (to - 1) as nat) == Some(alias@));
            all_ident(alias.as_str())
        },
        None => false,
    }
}

fn all_ident(s: &str) -> (r: bool)
    ensures
        r == all_ident_chars(Some(s@)),
{
    let chars = chars_of(s);
    let mut i: usize = 0;
    while i < chars.len()
        invariant
            i <= chars@.len(),
            chars@ == s@,
            forall|j: int| 0 <= j < i ==> ident_char(#[trigger] s@[j]),
        decreases chars@.len() - i,
    {
        if !is_clj_ident_char(chars[i]) {
            let ghost whole = Some(s@);
            assert(!ident_char(whole->0[i as int]));
            return false;
        }
        i += 1;
    }
    true
}

/// Whether a rename at the position replaces the range: it lies there, or on the alias
/// before it.
pub open spec fn reaches(line: Seq<char>, pos: Position, range: Range) -> bool {
    range.holds(pos) || on_qualifier(line, pos, range)
}

/// The first symbol from `i` on that defines `fqn` where the position reaches.
pub open spec fn symbol_range(
    syms: Seq<SymbolView>,
    fqn: Seq<char>,
    line: Seq<char>,
    pos: Position,
    i: nat,
) -> Option<Range>
    decreases syms.len() - i,
{
    if i >= syms.len() {
        None
    } else if syms[i as int].fqn == fqn && reaches(line, pos, syms[i as int].name_range) {
        Some(syms[i as int].name_range)
    } else {
        symbol_range(syms, fqn, line, pos, i + 1)
    }
}

/// The first usage from `i` on that means `fqn` where the position reaches.
pub open spec fn usage_range(
    occs: Seq<OccurrenceView>,
    fqn: Seq<char>,
    line: Seq<char>,
    pos: Position,
    i: nat,
) -> Option<Range>
    decreases occs.len() - i,
{
    if i >= occs.len() {
        None
    } else if occs[i as int].fqn == fqn && reaches(line, pos, occs[i as int].name_range) {
        Some(occs[i as int].name_range)
    } else {
        usage_range(occs, fqn, line, pos, i + 1)
    }
}

/// The range that a rename of `fqn` replaces at a position of the open document `uri`.
pub open spec fn range_at(
    v: IndexView,
    store: StoreView,
    uri: Seq<char>,
    path: Seq<char>,
    pos: Position,
    fqn: Seq<char>,
) -> Option<Range> {
    if store.tree(uri) is None {
        None
    } else {
        let text = store.docs[uri];
        let line = match nth_line(text, pos.line as nat) {
            Some(line) => line,
            None => seq![],
        };
        match analysis_of(text, path, v.config) {
            Some(a) => match symbol_range(a.symbols, fqn, line, pos, 0) {
                Some(r) => Some(r),
                None => usage_range(a.occurrences, fqn, line, pos, 0),
            },
            None => None,
        }
    }
}

fn does_reach(line: &str, pos: Position, range: Range) -> (r: bool)
    ensures
        r == reaches(line@, pos, range),
{
    range.contains(pos) || on_qualifier_of(line, pos, range)
}

/// The range that a rename of `fqn` replaces at a position of the open document `uri`.
pub fn occurrence_range_at(
    index: &Index,
    documents: &DocumentStore,
    uri: &str,
    path: &str,
    pos: Position,
    fqn: &str,
) -> (r: Option<Range>)
    ensures
        r == range_at(index@, documents@, uri@, path@, pos, fqn@),
{
    let snapshot = match documents.snapshot(uri) {
        Some(snapshot) => snapshot,
        None => return None,
    };
    let text = snapshot.text.as_str();
    let line = match line_of(text, pos.line) {
        Some(line) => line,
        None => String::new(),
    };
    let ghost lv = match nth_line(text@, pos.line as nat) {
        Some(line) => line,
        None => seq![],
    };
    assert(line@ =~= lv);
    let (_, syms, occs) = match extract_full_with(text, path, index.extract_config()) {
        Ok((meta, syms, occs)) => (meta, syms, occs),
        Err(_) => return None,
    };
    let ghost (sv, ov) = (syms.deep_view(), occs.deep_view());
    let mut i: usize = 0;
    while i < syms.len()
        invariant
            i <= syms@.len(),
            sv == syms.deep_view(),
            line@ == lv,
            symbol_range(sv, fqn@, lv, pos, 0) == symbol_range(sv, fqn@, lv, pos, i as nat),
            range_at(index@, documents@, uri@, path@, pos, fqn@) == (match symbol_range(
                sv,
                fqn@,
                lv,
                pos,
                0,
            ) {
                Some(r) => Some(r),
                None => usage_range(ov, fqn@, lv, pos, 0),
            }),
        decreases syms@.len() - i,
    {
        assert(sv[i as int] == syms@[i as int].deep_view());
        if str_eq(syms[i].fqn.as_str(), fqn) && does_reach(
            line.as_str(),
            pos,
            syms[i].name_range,
        ) {
            return Some(syms[i].name_range);
        }
        i += 1;
    }
    let mut j: usize = 0;
    while j < occs.len()
        invariant
            j <= occs@.len(),
            ov == occs.deep_view(),
            line@ == lv,
            usage_range(ov, fqn@, lv, pos, 0) == usage_range(ov, fqn@, lv, pos, j as nat),
            range_at(index@, documents@, uri@, path@, pos, fqn@) == usage_range(
                ov,
                fqn@,
                lv,
                pos,
                0,
            ),
        decreases occs@.len() - j,
    {
        assert(ov[j as int] == occs@[j as int].deep_view());
        if str_eq(occs[j].fqn.as_str(), fqn) && does_reach(
            line.as_str(),
            pos,
            occs[j].name_range,
        ) {
            return Some(occs[j].name_range);
        }
        j += 1;
    }
    None
}

/// The first usage from `i` on that holds the position; the declaration where none does.
pub open spec fn usage_or_declaration(refs: LocalRefsView, pos: Position, i: nat) -> Range
    decreases refs.usages.len() - i,
{
    if i >= refs.usages.len() {
        refs.declaration
    } else if refs.usages[i as int].holds(pos) {
        refs.usages[i as int]
    } else {
        usage_or_declaration(refs, pos, i + 1)
    }
}

/// The first site from `i` on whose token holds the position of the file.
pub open spec fn site_range(sites: Seq<SiteView>, file: Seq<char>, pos: Position, i: nat) -> Option<
    Range,
>
    decreases sites.len() - i,
{
    if i >= sites.len() {
        None
    } else if sites[i as int].file == file && sites[i as int].token.holds(pos) {
        Some(sites[i as int].name)
    } else {
        site_range(sites, file, pos, i + 1)
    }
}

/// The range at the position that a rename of the target replaces.
pub open spec fn selected(
    v: IndexView,
    store: StoreView,
    uri: Seq<char>,
    path: Seq<char>,
    pos: Position,
    target: TargetView,
) -> Result<Range, ErrorView> {
    match target {
        TargetView::Local { word: _, refs } => Ok(
            if refs.declaration.holds(pos) {
                refs.declaration
            } else {
                usage_or_declaration(refs, pos, 0)
            },
        ),
        TargetView::Global { fqn, sym: _ } => match range_at(v, store, uri, path, pos, fqn) {
            Some(r) => Ok(r),
            None => Err(ErrorView::Nothing),
        },
        TargetView::Keyword { sites } => match site_range(sites, path, pos, 0) {
            Some(r) => Ok(r),
            None => Err(ErrorView::Nothing),
        },
    }
}

fn select_local(refs: &LocalRefs, pos: Position) -> (r: Range)
    ensures
        r == (if refs.declaration.holds(pos) {
            refs.declaration
        } else {
            usage_or_declaration(refs.deep_view(), pos, 0)
        }),
{
    if refs.declaration.contains(pos) {
        return refs.declaration;
    }
    let ghost rv = refs.deep_view();
    let mut i: usize = 0;
    while i < refs.usages.len()
        invariant
            i <= refs.usages@.len(),
            rv == refs.deep_view(),
            !refs.declaration.holds(pos),
            usage_or_declaration(rv, pos, 0) == usage_or_declaration(rv, pos, i as nat),
        decreases refs.usages@.len() - i,
    {
        if refs.usages[i].contains(pos) {
            return refs.usages[i];
        }
        i += 1;
    }
    refs.declaration
}

fn select_site(sites: &Vec<KeywordSite>, file: &str, pos: Position) -> (r: Option<Range>)
    ensures
        r == site_range(sites.deep_view(), file@, pos, 0),
{
    let ghost all = sites.deep_view();
    let mut i: usize = 0;
    while i < sites.len()
        invariant
            i <= sites@.len(),
            all == sites.deep_view(),
            site_range(all, file@, pos, 0) == site_range(all, file@, pos, i as nat),
        decreases sites@.len() - i,
    {
        assert(all[i as int] == sites@[i as int].deep_view());
        if str_eq(sites[i].file.as_str(), file) && sites[i].token.contains(pos) {
            return Some(sites[i].name);
        }
        i += 1;
    }
    None
}

/// The range that a rename at a position would replace, or why it is refused.
pub open spec fn prepared(
    v: IndexView,
    store: StoreView,
    open: Seq<OpenView>,
    disk: Seq<(Seq<char>, Seq<char>)>,
    uri: Seq<char>,
    path: Seq<char>,
    pos: Position,
    files: Seq<Seq<char>>,
) -> Result<Range, ErrorView> {
    match target_of(v, store, open, disk, uri, path, pos, files) {
        Ok(target) => selected(v, store, uri, path, pos, target),
        Err(e) => Err(e),
    }
}

/// The range that a rename at a position would replace, or why it is refused.
pub fn prepare_rename(
    index: &Index,
    documents: &DocumentStore,
    open: &Vec<OpenDoc>,
    disk: &Dict<String>,
    uri: &str,
    path: &str,
    pos: Position,
) -> (r: Result<Range, RenameError>)
    ensures
        exists|files: Seq<Seq<char>>|
            lists_files(index@, files) && says(
                r,
                #[trigger] prepared(
                    index@,
                    documents@,
                    open.deep_view(),
                    disk.deep_view(),
                    uri@,
                    path@,
                    pos,
                    files,
                ),
            ),
{
    let ghost (ov, dv) = (open.deep_view(), disk.deep_view());
    let target = rename_target(index, documents, open, disk, uri, path, pos);
    let ghost files = choose|files: Seq<Seq<char>>|
        lists_files(index@, files) && says(
            target,
            #[trigger] target_of(index@, documents@, ov, dv, uri@, path@, pos, files),
        );
    let r = match target {
        Ok(RenameTarget::Local { word: _, refs }) => Ok(select_local(&refs, pos)),
        Ok(RenameTarget::Global { fqn, sym: _ }) => match occurrence_range_at(
            index,
            documents,
            uri,
            path,
            pos,
            fqn.as_str(),
        ) {
            Some(range) => Ok(range),
            None => Err(RenameError::Nothing),
        },
        Ok(RenameTarget::Keyword { sites }) => match select_site(&sites, path, pos) {
            Some(range) => Ok(range),
            None => Err(RenameError::Nothing),
        },
        Err(e) => Err(e),
    };
    assert(says(r, prepared(index@, documents@, ov, dv, uri@, path@, pos, files)));
    r
}

/// Whether `name` can be the name of a symbol.
pub open spec fn valid_name(name: Seq<char>) -> bool {
    &&& name.len() > 0
    &&& !ascii_digit(name[0])
    &&& forall|i: int| 0 <= i < name.len() ==> ident_char(#[trigger] name[i]) && name[i] != '/'
}

/// Whether `name` can be the name of a symbol.
pub fn is_valid_symbol_name(name: &str) -> (r: bool)
    ensures
        r == valid_name(name@),
{
    let chars = chars_of(name);
    if chars.len() == 0 || is_ascii_digit(chars[0]) {
        return false;
    }
    let mut i: usize = 0;
    while i < chars.len()
        invariant
            i <= chars@.len(),
            chars@ == name@,
            forall|j: int| 0 <= j < i ==> ident_char(#[trigger] name@[j]) && name@[j] != '/',
        decreases chars@.len() - i,
    {
        if !is_clj_ident_char(chars[i]) || chars[i] == '/' {
            assert(!(ident_char(name@[i as int]) && name@[i as int] != '/'));
            return false;
        }
        i += 1;
    }
    true
}

/// Whether one of the locals has the name.
pub open spec fn binds(locals: Seq<BindingView>, name: Seq<char>) -> bool {
    exists|i: int| 0 <= i < locals.len() && (#[trigger] locals[i]).name == name
}

/// Whether the name is bound at the declaration of the local, or at a usage.
pub open spec fn bound_at_site(root: FormView, refs: LocalRefsView, name: Seq<char>) -> bool {
    ||| binds(visible(root, refs.declaration.start), name)
    ||| exists|i: int|
        0 <= i < refs.usages.len() && binds(
            visible(root, (#[trigger] refs.usages[i]).start),
            name,
        )
}

fn is_bound(locals: &Vec<LocalBinding>, name: &str) -> (r: bool)
    ensures
        r == binds(locals.deep_view(), name@),
{
    let ghost all = locals.deep_view();
    let mut i: usize = 0;
    while i < locals.len()
        invariant
            i <= locals@.len(),
            all == locals.deep_view(),
            forall|j: int| 0 <= j < i ==> (#[trigger] all[j]).name != name@,
        decreases locals@.len() - i,
    {
        assert(all[i as int] == locals@[i as int].deep_view());
        if str_eq(locals[i].name.as_str(), name) {
            return true;
        }
        i += 1;
    }
    false
}

/// Whether a new name of a local would capture, or be captured: it is bound at the
/// declaration of the local, or at a usage.
pub fn captures(root: &Form, refs: &LocalRefs, new_name: &str) -> (r: bool)
    ensures
        r == bound_at_site(root@, refs.deep_view(), new_name@),
{
    if is_bound(&locals_in_tree(root, refs.declaration.start), new_name) {
        return true;
    }
    let mut i: usize = 0;
    while i < refs.usages.len()
        invariant
            i <= refs.usages@.len(),
            forall|j: int|
                0 <= j < i ==> !binds(
                    visible(root@, (#[trigger] refs.usages@[j]).start),
                    new_name@,
                ),
        decreases refs.usages@.len() - i,
    {
        if is_bound(&locals_in_tree(root, refs.usages[i].start), new_name) {
            assert(binds(visible(root@, refs.deep_view().usages[i as int].start), new_name@));
            return true;
        }
        i += 1;
    }
    false
}

/// An edit of a file.
#[derive(Clone, Debug)]
pub struct FileEdit {
    pub file: String,
    pub edit: TextEdit,
}

/// What a [`FileEdit`] says.
pub ghost struct FileEditView {
    pub file: Seq<char>,
    pub edit: TextEditView,
}

impl DeepView for FileEdit {
    type V = FileEditView;

    open spec fn deep_view(&self) -> FileEditView {
        FileEditView { file: self.file@, edit: self.edit.deep_view() }
    }
}

/// The edits that put the new name at places.
pub open spec fn edits_at(places: Seq<LocationView>, new_text: Seq<char>) -> Seq<FileEditView> {
    Seq::new(
        places.len(),
        |i: int|
            FileEditView {
                file: places[i].file,
                edit: TextEditView { range: places[i].range, new_text },
            },
    )
}

/// The places that the rename of a keyword rewrites.
pub open spec fn site_places(sites: Seq<SiteView>) -> Seq<LocationView> {
    Seq::new(
        sites.len(),
        |i: int| LocationView { file: sites[i].file, range: sites[i].name },
    )
}

/// The first symbol from `i` on that is `fqn`.
pub open spec fn range_of(syms: Seq<SymbolView>, fqn: Seq<char>, i: nat) -> Option<Range>
    decreases syms.len() - i,
{
    if i >= syms.len() {
        None
    } else if syms[i as int].fqn == fqn {
        Some(syms[i as int].name_range)
    } else {
        range_of(syms, fqn, i + 1)
    }
}

/// Where a definition's name stands: in the open document of its file, where there is
/// one, as the index may not have the latest edits.
pub open spec fn definition_range(
    v: IndexView,
    store: StoreView,
    open: Seq<OpenView>,
    sym: SymbolView,
    fqn: Seq<char>,
) -> Range {
    match open_text(store, open, sym.file, 0) {
        Some(text) => match analysis_of(text, sym.file, v.config) {
            Some(a) => match range_of(a.symbols, fqn, 0) {
                Some(range) => range,
                None => sym.name_range,
            },
            None => sym.name_range,
        },
        None => sym.name_range,
    }
}

/// Where a definition's name stands, in the open document of its file where there is one.
pub fn live_definition_range(
    index: &Index,
    documents: &DocumentStore,
    open: &Vec<OpenDoc>,
    sym: &Symbol,
    fqn: &str,
) -> (r: Range)
    ensures
        r == definition_range(index@, documents@, open.deep_view(), sym.deep_view(), fqn@),
{
    let text = match find_open_text(documents, open, sym.file.as_str()) {
        Some(text) => text,
        None => return sym.name_range,
    };
    let (_, syms, _) = match extract_full_with(
        text.as_str(),
        sym.file.as_str(),
        index.extract_config(),
    ) {
        Ok((meta, syms, occs)) => (meta, syms, occs),
        Err(_) => return sym.name_range,
    };
    let ghost all = syms.deep_view();
    let mut i: usize = 0;
    while i < syms.len()
        invariant
            i <= syms@.len(),
            all == syms.deep_view(),
            range_of(all, fqn@, 0) == range_of(all, fqn@, i as nat),
            definition_range(index@, documents@, open.deep_view(), sym.deep_view(), fqn@) == (
            match range_of(all, fqn@, 0) {
                Some(range) => range,
                None => sym.name_range,
            }),
        decreases syms@.len() - i,
    {
        assert(all[i as int] == syms@[i as int].deep_view());
        if str_eq(syms[i].fqn.as_str(), fqn) {
            return syms[i].name_range;
        }
        i += 1;
    }
    sym.name_range
}

/// The places that the rename of a target rewrites.
pub open spec fn rewritten(
    v: IndexView,
    store: StoreView,
    open: Seq<OpenView>,
    path: Seq<char>,
    target: TargetView,
    files: Seq<Seq<char>>,
) -> Seq<LocationView> {
    match target {
        TargetView::Local { word: _, refs } => crate::handlers::references::local_places(
            path,
            refs,
            true,
        ),
        TargetView::Keyword { sites } => site_places(sites),
        TargetView::Global { fqn, sym } => {
            let found = usages(v, store, open, fqn, files);
            seq![
                LocationView {
                    file: sym.file,
                    range: definition_range(v, store, open, sym, fqn),
                },
            ] + all_places(found, found.len())
        },
    }
}

/// Why the new name is refused for the target.
pub open spec fn name_refused(
    store: StoreView,
    uri: Seq<char>,
    target: TargetView,
    new_name: Seq<char>,
) -> Option<ErrorView> {
    if target is Keyword && new_name.len() > 0 && new_name[0] == ':' {
        Some(ErrorView::Colon(new_name))
    } else if !valid_name(new_name) {
        Some(ErrorView::InvalidName(new_name))
    } else {
        match target {
            TargetView::Local { word, refs } => match store.tree(uri) {
                Some(root) => if bound_at_site(root, refs, new_name) {
                    Some(ErrorView::Captured { word, new_name })
                } else {
                    None
                },
                None => None,
            },
            _ => None,
        }
    }
}

/// The edits of a rename, or why it is refused.
pub open spec fn renamed(
    v: IndexView,
    store: StoreView,
    open: Seq<OpenView>,
    disk: Seq<(Seq<char>, Seq<char>)>,
    uri: Seq<char>,
    path: Seq<char>,
    pos: Position,
    new_name: Seq<char>,
    files: Seq<Seq<char>>,
) -> Result<Seq<FileEditView>, ErrorView> {
    match target_of(v, store, open, disk, uri, path, pos, files) {
        Err(e) => Err(e),
        Ok(target) => match name_refused(store, uri, target, new_name) {
            Some(e) => Err(e),
            None => Ok(edits_at(rewritten(v, store, open, path, target, files), new_name)),
        },
    }
}

fn build_edits(places: &Vec<Location>, new_text: &str) -> (r: Vec<FileEdit>)
    ensures
        r.deep_view() == edits_at(places.deep_view(), new_text@),
{
    let mut out: Vec<FileEdit> = Vec::new();
    let mut i: usize = 0;
    while i < places.len()
        invariant
            i <= places@.len(),
            out.deep_view() =~= edits_at(places.deep_view(), new_text@).take(i as int),
        decreases places@.len() - i,
    {
        push_item(
            &mut out,
            FileEdit {
                file: places[i].file.clone(),
                edit: TextEdit { range: places[i].range, new_text: new_text.to_owned() },
            },
        );
        i += 1;
    }
    assert(out.deep_view() =~= edits_at(places.deep_view(), new_text@));
    out
}

fn places_of_sites(sites: &Vec<KeywordSite>) -> (r: Vec<Location>)
    ensures
        r.deep_view() == site_places(sites.deep_view()),
{
    let mut out: Vec<Location> = Vec::new();
    let mut i: usize = 0;
    while i < sites.len()
        invariant
            i <= sites@.len(),
            out.deep_view() =~= site_places(sites.deep_view()).take(i as int),
        decreases sites@.len() - i,
    {
        push_item(&mut out, Location { file: sites[i].file.clone(), range: sites[i].name });
        i += 1;
    }
    assert(out.deep_view() =~= site_places(sites.deep_view()));
    out
}

fn refuse_name(documents: &DocumentStore, uri: &str, target: &RenameTarget, new_name: &str) -> (r:
    Option<RenameError>)
    ensures
        r.deep_view() == name_refused(documents@, uri@, target.deep_view(), new_name@),
{
    let is_keyword = match target {
        RenameTarget::Keyword { sites: _ } => true,
        _ => false,
    };
    if is_keyword && starts_with_char(new_name, ':') {
        return Some(RenameError::Colon(new_name.to_owned()));
    }
    if !is_valid_symbol_name(new_name) {
        return Some(RenameError::InvalidName(new_name.to_owned()));
    }
    match target {
        RenameTarget::Local { word, refs } => match documents.snapshot(uri) {
            Some(snapshot) => if captures(&snapshot.tree, refs, new_name) {
                Some(
                    RenameError::Captured { word: word.clone(), new_name: new_name.to_owned() },
                )
            } else {
                None
            },
            None => None,
        },
        _ => None,
    }
}

/// The edits of a rename at a position of the open document `uri`, which is the file
/// `path`, or why it is refused. `disk` holds the texts of files that are not open.
pub fn rename(
    index: &Index,
    documents: &DocumentStore,
    open: &Vec<OpenDoc>,
    disk: &Dict<String>,
    uri: &str,
    path: &str,
    pos: Position,
    new_name: &str,
) -> (r: Result<Vec<FileEdit>, RenameError>)
    ensures
        exists|files: Seq<Seq<char>>|
            lists_files(index@, files) && says(
                r,
                #[trigger] renamed(
                    index@,
                    documents@,
                    open.deep_view(),
                    disk.deep_view(),
                    uri@,
                    path@,
                    pos,
                    new_name@,
                    files,
                ),
            ),
{
    let ghost (ov, dv) = (open.deep_view(), disk.deep_view());
    let outcome = rename_target(index, documents, open, disk, uri, path, pos);
    let ghost files = choose|files: Seq<Seq<char>>|
        lists_files(index@, files) && says(
            outcome,
            #[trigger] target_of(index@, documents@, ov, dv, uri@, path@, pos, files),
        );
    let ghost goal = renamed(index@, documents@, ov, dv, uri@, path@, pos, new_name@, files);
    let target = match outcome {
        Ok(target) => target,
        Err(e) => {
            let r = Err(e);
            assert(says(r, goal));
            return r;
        },
    };
    if let Some(e) = refuse_name(documents, uri, &target, new_name) {
        let r = Err(e);
        assert(says(r, goal));
        return r;
    }
    match target {
        RenameTarget::Local { word: _, refs } => {
            let places = crate::handlers::references::local_references(path, &refs, true);
            let r = Ok(build_edits(&places, new_name));
            assert(says(r, goal));
            r
        },
        RenameTarget::Keyword { sites } => {
            let r = Ok(build_edits(&places_of_sites(&sites), new_name));
            assert(says(r, goal));
            r
        },
        RenameTarget::Global { fqn, sym } => {
            let found = occurrences_for(index, documents, open, fqn.as_str());
            let ghost files2 = choose|files: Seq<Seq<char>>|
                lists_files(index@, files) && found.deep_view() == #[trigger] usages(
                    index@,
                    documents@,
                    ov,
                    fqn@,
                    files,
                );
            let mut places: Vec<Location> = Vec::new();
            assert(places.deep_view() =~= seq![]);
            push_item(
                &mut places,
                Location {
                    file: sym.file.clone(),
                    range: live_definition_range(index, documents, open, &sym, fqn.as_str()),
                },
            );
            add_places(&mut places, &found);
            let ghost t = TargetView::Global { fqn: fqn@, sym: sym.deep_view() };
            assert(places.deep_view() =~= rewritten(index@, documents@, ov, path@, t, files2));
            let r = Ok(build_edits(&places, new_name));
            assert(target_of(index@, documents@, ov, dv, uri@, path@, pos, files2) == Ok::<
                TargetView,
                ErrorView,
            >(t));
            assert(says(
                r,
                renamed(index@, documents@, ov, dv, uri@, path@, pos, new_name@, files2),
            ));
            r
        },
    }
}

/// The rename of a keyword keeps the notation of each place: what it replaces is the
/// name at the end of the token, and what stays in front of it is the marker and the
/// qualifier that were written there.
pub proof fn law_keyword_rename_keeps_notation(
    range: Range,
    token: Seq<char>,
    name: Seq<char>,
    new_name: Seq<char>,
)
    requires
        name_part(range, token, name) is Some,
    ensures
        ({
            let head = token.take(token.len() - name.len());
            &&& token == head + name
            &&& head.len() > 0 && head[0] == ':'
            &&& head.last() == '/' || head.last() == ':'
            &&& name_part(range, token, name)->0.end == range.end
            &&& ends_with_name(head + new_name, new_name)
        }),
{
    let head = token.take(token.len() - name.len());
    assert(token =~= head + name);
    let renamed = head + new_name;
    assert(renamed.take(renamed.len() - new_name.len()) =~= head);
    assert(renamed.subrange(renamed.len() - new_name.len(), renamed.len() as int) =~= new_name);
}

/// A keyword is renamed everywhere or nowhere: where the rename goes ahead, every place
/// of the keyword in a project file has a site.
pub proof fn law_keyword_rename_is_all_or_nothing(
    v: IndexView,
    store: StoreView,
    open: Seq<OpenView>,
    disk: Seq<(Seq<char>, Seq<char>)>,
    fqn: Seq<char>,
    name: Seq<char>,
    places: Seq<LocationView>,
    n: nat,
    i: int,
)
    requires
        0 <= i < n <= places.len(),
        sites_of(v, store, open, disk, fqn, name, places, n) is Ok,
        v.occurrences.dom().contains(places[i].file),
    ensures
        site_at(v, store, open, disk, fqn, name, places[i]) matches Ok(Some(site)) && has_site(
            sites_of(v, store, open, disk, fqn, name, places, n)->Ok_0,
            site.file,
            site.name,
        ),
{
    lemma_place_has_site(v, store, open, disk, fqn, name, places, n, i);
}

/// Where no place of a keyword is refused, each that has a site has it among the sites.
proof fn lemma_place_has_site(
    v: IndexView,
    store: StoreView,
    open: Seq<OpenView>,
    disk: Seq<(Seq<char>, Seq<char>)>,
    fqn: Seq<char>,
    name: Seq<char>,
    places: Seq<LocationView>,
    n: nat,
    i: int,
)
    requires
        0 <= i < n <= places.len(),
        sites_of(v, store, open, disk, fqn, name, places, n) is Ok,
    ensures
        site_at(v, store, open, disk, fqn, name, places[i]) matches Ok(found) && (
        found matches Some(site) ==> has_site(
            sites_of(v, store, open, disk, fqn, name, places, n)->Ok_0,
            site.file,
            site.name,
        )),
    decreases n,
{
    let m = (n - 1) as nat;
    let before = sites_of(v, store, open, disk, fqn, name, places, m)->Ok_0;
    let after = sites_of(v, store, open, disk, fqn, name, places, n)->Ok_0;
    if i < m {
        lemma_place_has_site(
            v,
            store,
            open,
            disk,
            fqn,
            name,
            places,
            m,
            i,
        );
        if let Ok(Some(site)) = site_at(v, store, open, disk, fqn, name, places[i]) {
            let k = choose|k: int|
                0 <= k < before.len() && (#[trigger] before[k]).file == site.file
                    && before[k].name == site.name;
            assert(after[k] == before[k]);
        }
    } else {
        if let Ok(Some(site)) = site_at(v, store, open, disk, fqn, name, places[i]) {
            if !has_site(before, site.file, site.name) {
                assert(after[before.len() as int] == site);
            }
        }
    }
}

/// Where a rename is refused whatever the new name, the editor is not offered one; where
/// the editor is offered one, only the new name can be refused. That holds whatever the
/// orders `files` and `again` in which the project files are gone through the two times.
pub proof fn law_prepare_agrees_with_rename(
    v: IndexView,
    store: StoreView,
    open: Seq<OpenView>,
    disk: Seq<(Seq<char>, Seq<char>)>,
    uri: Seq<char>,
    path: Seq<char>,
    pos: Position,
    new_name: Seq<char>,
    files: Seq<Seq<char>>,
    again: Seq<Seq<char>>,
)
    requires
        lists_files(v, files),
        lists_files(v, again),
    ensures
        target_of(v, store, open, disk, uri, path, pos, files) matches Err(e) ==> {
            &&& prepared(v, store, open, disk, uri, path, pos, files) == Err::<Range, ErrorView>(e)
            &&& renamed(v, store, open, disk, uri, path, pos, new_name, files) == Err::<
                Seq<FileEditView>,
                ErrorView,
            >(e)
            &&& prepared(v, store, open, disk, uri, path, pos, again) is Err
            &&& renamed(v, store, open, disk, uri, path, pos, new_name, again) is Err
        },
        prepared(v, store, open, disk, uri, path, pos, files) is Ok ==> (renamed(
            v,
            store,
            open,
            disk,
            uri,
            path,
            pos,
            new_name,
            again,
        ) matches Err(e) ==> e is Colon || e is InvalidName || e is Captured),
{
    lemma_targets_agree(v, store, open, disk, uri, path, pos, files, again);
}

/// The order in which the project files are gone through does not matter to a rename: it
/// goes ahead in one order where it does in the other, and makes the same edits.
pub proof fn law_rename_whatever_the_order(
    v: IndexView,
    store: StoreView,
    open: Seq<OpenView>,
    disk: Seq<(Seq<char>, Seq<char>)>,
    uri: Seq<char>,
    path: Seq<char>,
    pos: Position,
    new_name: Seq<char>,
    files: Seq<Seq<char>>,
    again: Seq<Seq<char>>,
)
    requires
        lists_files(v, files),
        lists_files(v, again),
    ensures
        renamed(v, store, open, disk, uri, path, pos, new_name, files) is Ok <==> renamed(
            v,
            store,
            open,
            disk,
            uri,
            path,
            pos,
            new_name,
            again,
        ) is Ok,
        renamed(v, store, open, disk, uri, path, pos, new_name, files) matches Ok(edits) ==> {
            let others = renamed(v, store, open, disk, uri, path, pos, new_name, again)->Ok_0;
            forall|e: FileEditView| #[trigger] edits.contains(e) <==> others.contains(e)
        },
{
    lemma_targets_agree(v, store, open, disk, uri, path, pos, files, again);
    if renamed(v, store, open, disk, uri, path, pos, new_name, files) is Ok {
        let target = target_of(v, store, open, disk, uri, path, pos, files)->Ok_0;
        let same = target_of(v, store, open, disk, uri, path, pos, again)->Ok_0;
        let places = rewritten(v, store, open, path, target, files);
        let others = rewritten(v, store, open, path, same, again);
        assert forall|at: LocationView| #[trigger] places.contains(at) implies others.contains(
            at,
        ) by {
            lemma_rewritten_within(v, store, open, path, target, same, files, again, at);
        }
        assert forall|at: LocationView| #[trigger] others.contains(at) implies places.contains(
            at,
        ) by {
            lemma_rewritten_within(v, store, open, path, same, target, again, files, at);
        }
        lemma_edits_within(places, others, new_name);
        lemma_edits_within(others, places, new_name);
    }
}

/// Whether two targets are one but for the order of the sites.
spec fn alike(a: TargetView, b: TargetView) -> bool {
    match (a, b) {
        (TargetView::Keyword { sites }, TargetView::Keyword { sites: others }) => {
            forall|file: Seq<char>, name: Range| #[trigger]
                has_site(sites, file, name) <==> has_site(others, file, name)
        },
        _ => a == b,
    }
}

/// What is targeted does not depend on the order of the files.
proof fn lemma_targets_agree(
    v: IndexView,
    store: StoreView,
    open: Seq<OpenView>,
    disk: Seq<(Seq<char>, Seq<char>)>,
    uri: Seq<char>,
    path: Seq<char>,
    pos: Position,
    files: Seq<Seq<char>>,
    again: Seq<Seq<char>>,
)
    requires
        lists_files(v, files),
        lists_files(v, again),
    ensures
        target_of(v, store, open, disk, uri, path, pos, files) is Ok <==> target_of(
            v,
            store,
            open,
            disk,
            uri,
            path,
            pos,
            again,
        ) is Ok,
        target_of(v, store, open, disk, uri, path, pos, files) matches Ok(target) ==> alike(
            target,
            target_of(v, store, open, disk, uri, path, pos, again)->Ok_0,
        ),
{
    if let Some(fqn) = fqn_at(v, store, uri, path, pos) {
        if let Some((_, name)) = split_first(without_colons(fqn), '/') {
            let places = keyword_places(v, store, open, fqn, files);
            let others = keyword_places(v, store, open, fqn, again);
            lemma_keyword_places_within(v, store, open, fqn, files, again);
            lemma_keyword_places_within(v, store, open, fqn, again, files);
            let n = places.len();
            let m = others.len();
            if sites_of(v, store, open, disk, fqn, name, others, m) is Ok {
                lemma_sites_within(v, store, open, disk, fqn, name, places, others, n);
            }
            if sites_of(v, store, open, disk, fqn, name, places, n) is Ok {
                lemma_sites_within(v, store, open, disk, fqn, name, others, places, m);
                let sites = sites_of(v, store, open, disk, fqn, name, places, n)->Ok_0;
                let same = sites_of(v, store, open, disk, fqn, name, others, m)->Ok_0;
                if sites.len() > 0 {
                    assert(has_site(sites, sites[0].file, sites[0].name));
                }
                if same.len() > 0 {
                    assert(has_site(same, same[0].file, same[0].name));
                }
            }
        }
    }
}

/// Every edit at places stands among those at places that hold them all.
proof fn lemma_edits_within(
    places: Seq<LocationView>,
    others: Seq<LocationView>,
    new_text: Seq<char>,
)
    requires
        forall|at: LocationView| #[trigger] places.contains(at) ==> others.contains(at),
    ensures
        forall|e: FileEditView| #[trigger]
            edits_at(places, new_text).contains(e) ==> edits_at(others, new_text).contains(e),
{
    let edits = edits_at(places, new_text);
    assert forall|e: FileEditView| #[trigger] edits.contains(e) implies edits_at(
        others,
        new_text,
    ).contains(e) by {
        let at = places[edits.index_of(e)];
        assert(places.contains(at));
        assert(edits_at(others, new_text)[others.index_of(at)] == e);
    }
}

/// What the rename of a target rewrites does not depend on the order of the files.
proof fn lemma_rewritten_within(
    v: IndexView,
    store: StoreView,
    open: Seq<OpenView>,
    path: Seq<char>,
    target: TargetView,
    same: TargetView,
    files: Seq<Seq<char>>,
    again: Seq<Seq<char>>,
    at: LocationView,
)
    requires
        lists_files(v, files),
        lists_files(v, again),
        alike(target, same),
        rewritten(v, store, open, path, target, files).contains(at),
    ensures
        rewritten(v, store, open, path, same, again).contains(at),
{
    let places = rewritten(v, store, open, path, target, files);
    let others = rewritten(v, store, open, path, same, again);
    let i = places.index_of(at);
    match target {
        TargetView::Local { word: _, refs: _ } => {},
        TargetView::Keyword { sites } => {
            assert(has_site(sites, sites[i].file, sites[i].name));
            let found = same->Keyword_sites;
            let k = choose|k: int|
                0 <= k < found.len() && (#[trigger] found[k]).file == at.file && found[k].name
                    == at.range;
            assert(others[k] == at);
        },
        TargetView::Global { fqn, sym: _ } => {
            let found = usages(v, store, open, fqn, files);
            let refound = usages(v, store, open, fqn, again);
            if i == 0 {
                assert(others[0] == at);
            } else {
                assert(all_places(found, found.len())[i - 1] == at);
                lemma_usages_within(v, store, open, fqn, files, again, at);
                let k = all_places(refound, refound.len()).index_of(at);
                assert(others[k + 1] == at);
            }
        },
    }
}

/// The sites of places are among those of places that hold them all.
proof fn lemma_sites_within(
    v: IndexView,
    store: StoreView,
    open: Seq<OpenView>,
    disk: Seq<(Seq<char>, Seq<char>)>,
    fqn: Seq<char>,
    name: Seq<char>,
    places: Seq<LocationView>,
    others: Seq<LocationView>,
    n: nat,
)
    requires
        n <= places.len(),
        forall|at: LocationView| #[trigger] places.contains(at) ==> others.contains(at),
        sites_of(v, store, open, disk, fqn, name, others, others.len()) is Ok,
    ensures
        sites_of(v, store, open, disk, fqn, name, places, n) is Ok,
        forall|file: Seq<char>, part: Range| #[trigger]
            has_site(
                sites_of(v, store, open, disk, fqn, name, places, n)->Ok_0,
                file,
                part,
            ) ==> has_site(
                sites_of(v, store, open, disk, fqn, name, others, others.len())->Ok_0,
                file,
                part,
            ),
    decreases n,
{
    if n > 0 {
        let m = (n - 1) as nat;
        lemma_sites_within(v, store, open, disk, fqn, name, places, others, m);
        assert(places.contains(places[m as int]));
        let j = others.index_of(places[m as int]);
        lemma_place_has_site(v, store, open, disk, fqn, name, others, others.len(), j);
        let before = sites_of(v, store, open, disk, fqn, name, places, m)->Ok_0;
        let sites = sites_of(v, store, open, disk, fqn, name, places, n)->Ok_0;
        let all = sites_of(v, store, open, disk, fqn, name, others, others.len())->Ok_0;
        assert forall|file: Seq<char>, part: Range| #[trigger]
            has_site(sites, file, part) implies has_site(all, file, part) by {
            let k = choose|k: int|
                0 <= k < sites.len() && (#[trigger] sites[k]).file == file && sites[k].name
                    == part;
            if k < before.len() {
                assert(before[k] == sites[k]);
                assert(has_site(before, file, part));
            }
        }
    }
}

/// The places of a keyword do not depend on the order of the files.
proof fn lemma_keyword_places_within(
    v: IndexView,
    store: StoreView,
    open: Seq<OpenView>,
    fqn: Seq<char>,
    files: Seq<Seq<char>>,
    again: Seq<Seq<char>>,
)
    requires
        lists_files(v, files),
        lists_files(v, again),
    ensures
        forall|at: LocationView| #[trigger]
            keyword_places(v, store, open, fqn, files).contains(at) ==> keyword_places(
                v,
                store,
                open,
                fqn,
                again,
            ).contains(at),
{
    let places = keyword_places(v, store, open, fqn, files);
    let others = keyword_places(v, store, open, fqn, again);
    let found = usages(v, store, open, fqn, files);
    let refound = usages(v, store, open, fqn, again);
    let used = all_places(found, found.len());
    let reused = all_places(refound, refound.len());
    let first = places.len() - used.len();
    assert forall|at: LocationView| #[trigger] places.contains(at) implies others.contains(
        at,
    ) by {
        let i = places.index_of(at);
        if i < first {
            assert(others[i] == at);
        } else {
            assert(used[i - first] == at);
            lemma_usages_within(v, store, open, fqn, files, again, at);
            assert(others[first + reused.index_of(at)] == at);
        }
    }
}

/// The places of usages do not depend on the order of the files.
proof fn lemma_usages_within(
    v: IndexView,
    store: StoreView,
    open: Seq<OpenView>,
    fqn: Seq<char>,
    files: Seq<Seq<char>>,
    again: Seq<Seq<char>>,
    at: LocationView,
)
    requires
        lists_files(v, files),
        lists_files(v, again),
        ({
            let found = usages(v, store, open, fqn, files);
            all_places(found, found.len()).contains(at)
        }),
    ensures
        ({
            let found = usages(v, store, open, fqn, again);
            all_places(found, found.len()).contains(at)
        }),
{
    let opened = live(v, store, open, open.len());
    let found = usages(v, store, open, fqn, files);
    let refound = usages(v, store, open, fqn, again);
    let indexed = indexed_files(v, opened, fqn, files, files.len());
    let reindexed = indexed_files(v, opened, fqn, again, again.len());
    let j = lemma_place_is_of_a_file(found, found.len(), at);
    if j < indexed.len() {
        assert(indexed[j] == found[j]);
        let i = lemma_indexed_is_listed(v, opened, fqn, files, files.len(), j);
        assert(files.contains(files[i]));
        assert(again.contains(files[i]));
        let k = again.index_of(files[i]);
        lemma_listed_is_indexed(v, opened, fqn, again, again.len(), k, found[j]);
        let m = reindexed.index_of(found[j]);
        assert(refound[m] == found[j]);
        lemma_all_places(refound, refound.len(), m, at);
    } else {
        let m = reindexed.len() + (j - indexed.len());
        assert(refound[m] == found[j]);
        lemma_all_places(refound, refound.len(), m, at);
    }
}

/// A place of usages is one of a file.
proof fn lemma_place_is_of_a_file(files: Seq<FileView>, n: nat, at: LocationView) -> (j: int)
    requires
        n <= files.len(),
        all_places(files, n).contains(at),
    ensures
        0 <= j < n,
        places(files[j].file, files[j].occurrences, files[j].occurrences.len()).contains(at),
    decreases n,
{
    let f = files[n - 1];
    let before = all_places(files, (n - 1) as nat);
    let last = places(f.file, f.occurrences, f.occurrences.len());
    let i = all_places(files, n).index_of(at);
    if i < before.len() {
        assert(before[i] == at);
        lemma_place_is_of_a_file(files, (n - 1) as nat, at)
    } else {
        assert(last[i - before.len()] == at);
        n - 1
    }
}

/// What the listing makes of one file: its usages, where it has any and is not open.
spec fn indexed_file(
    v: IndexView,
    opened: Seq<(Seq<char>, Seq<OccurrenceView>)>,
    fqn: Seq<char>,
    file: Seq<char>,
    f: FileView,
) -> bool {
    &&& dict_get(opened, file) is None
    &&& at(v.occurrences, file) matches Some(occs) && f == (FileView {
        file,
        occurrences: meaning(occs, fqn, occs.len()),
    })
    &&& f.occurrences.len() > 0
}

proof fn lemma_indexed_is_listed(
    v: IndexView,
    opened: Seq<(Seq<char>, Seq<OccurrenceView>)>,
    fqn: Seq<char>,
    files: Seq<Seq<char>>,
    n: nat,
    j: int,
) -> (i: int)
    requires
        n <= files.len(),
        0 <= j < indexed_files(v, opened, fqn, files, n).len(),
    ensures
        0 <= i < n,
        indexed_file(v, opened, fqn, files[i], indexed_files(v, opened, fqn, files, n)[j]),
    decreases n,
{
    let before = indexed_files(v, opened, fqn, files, (n - 1) as nat);
    if j < before.len() {
        lemma_indexed_is_listed(v, opened, fqn, files, (n - 1) as nat, j)
    } else {
        n - 1
    }
}

proof fn lemma_listed_is_indexed(
    v: IndexView,
    opened: Seq<(Seq<char>, Seq<OccurrenceView>)>,
    fqn: Seq<char>,
    files: Seq<Seq<char>>,
    n: nat,
    i: int,
    f: FileView,
)
    requires
        0 <= i < n <= files.len(),
        indexed_file(v, opened, fqn, files[i], f),
    ensures
        indexed_files(v, opened, fqn, files, n).contains(f),
    decreases n,
{
    let before = indexed_files(v, opened, fqn, files, (n - 1) as nat);
    let after = indexed_files(v, opened, fqn, files, n);
    if i < n - 1 {
        lemma_listed_is_indexed(v, opened, fqn, files, (n - 1) as nat, i, f);
        assert(after[before.index_of(f)] == f);
    } else {
        assert(after.last() == f);
    }
}

/// Whether the document `uri` is open, and the only open one of the file `path`.
pub open spec fn opened_once(open: Seq<OpenView>, uri: Seq<char>, path: Seq<char>) -> bool {
    exists|i: int|
        0 <= i < open.len() && (#[trigger] open[i]).uri == uri && open[i].path == path
            && only_at(open, path, i)
}

/// Whether the file `path` is open at `i` alone.
pub open spec fn only_at(open: Seq<OpenView>, path: Seq<char>, i: int) -> bool {
    forall|j: int| 0 <= j < open.len() && j != i ==> (#[trigger] open[j]).path != path
}

/// Whether what the document `uri` defines as `fqn` is one definition, the one that the
/// index knows.
pub open spec fn defined_once(
    v: IndexView,
    store: StoreView,
    uri: Seq<char>,
    path: Seq<char>,
    fqn: Seq<char>,
    sym: SymbolView,
) -> bool {
    match analysis_of(store.docs[uri], path, v.config) {
        Some(a) => forall|k: int|
            0 <= k < a.symbols.len() && (#[trigger] a.symbols[k]).fqn == fqn ==> sym.file == path
                && range_of(a.symbols, fqn, 0) == Some(a.symbols[k].name_range),
        None => true,
    }
}

/// Whether one of the edits replaces the range of the file.
pub open spec fn edits_range(edits: Seq<FileEditView>, file: Seq<char>, range: Range) -> bool {
    exists|i: int|
        0 <= i < edits.len() && (#[trigger] edits[i]).file == file && edits[i].edit.range == range
}

/// The range that the editor is offered is among those that the rename replaces, and every
/// edit writes the new name, whatever the orders `files` and `again` in which the project
/// files are gone through the two times. The names of vars in an EDN file are not among the
/// usages.
pub proof fn law_offered_range_is_renamed(
    v: IndexView,
    store: StoreView,
    open: Seq<OpenView>,
    disk: Seq<(Seq<char>, Seq<char>)>,
    uri: Seq<char>,
    path: Seq<char>,
    pos: Position,
    new_name: Seq<char>,
    files: Seq<Seq<char>>,
    again: Seq<Seq<char>>,
)
    requires
        lists_files(v, files),
        lists_files(v, again),
        prepared(v, store, open, disk, uri, path, pos, files) is Ok,
        target_of(v, store, open, disk, uri, path, pos, files) matches Ok(target) ==> {
            &&& name_refused(store, uri, target, new_name) is None
            &&& target matches TargetView::Global { fqn, sym } ==> {
                &&& opened_once(open, uri, path)
                &&& defined_once(v, store, uri, path, fqn, sym)
                &&& extension_of(path) != Some("edn"@)
            }
        },
    ensures
        renamed(v, store, open, disk, uri, path, pos, new_name, again) matches Ok(edits) && {
            &&& forall|i: int|
                0 <= i < edits.len() ==> (#[trigger] edits[i]).edit.new_text == new_name
            &&& edits_range(
                edits,
                path,
                prepared(v, store, open, disk, uri, path, pos, files)->Ok_0,
            )
        },
{
    lemma_offered_range_is_renamed(v, store, open, disk, uri, path, pos, new_name, files);
    law_rename_whatever_the_order(
        v,
        store,
        open,
        disk,
        uri,
        path,
        pos,
        new_name,
        files,
        again,
    );
    let range = prepared(v, store, open, disk, uri, path, pos, files)->Ok_0;
    let edits = renamed(v, store, open, disk, uri, path, pos, new_name, files)->Ok_0;
    let others = renamed(v, store, open, disk, uri, path, pos, new_name, again)->Ok_0;
    let i = choose|i: int|
        0 <= i < edits.len() && (#[trigger] edits[i]).file == path && edits[i].edit.range == range;
    assert(edits.contains(edits[i]));
    assert(others[others.index_of(edits[i])] == edits[i]);
}

/// With one order of the files.
proof fn lemma_offered_range_is_renamed(
    v: IndexView,
    store: StoreView,
    open: Seq<OpenView>,
    disk: Seq<(Seq<char>, Seq<char>)>,
    uri: Seq<char>,
    path: Seq<char>,
    pos: Position,
    new_name: Seq<char>,
    files: Seq<Seq<char>>,
)
    requires
        prepared(v, store, open, disk, uri, path, pos, files) is Ok,
        target_of(v, store, open, disk, uri, path, pos, files) matches Ok(target) ==> {
            &&& name_refused(store, uri, target, new_name) is None
            &&& target matches TargetView::Global { fqn, sym } ==> {
                &&& opened_once(open, uri, path)
                &&& defined_once(v, store, uri, path, fqn, sym)
                &&& extension_of(path) != Some("edn"@)
            }
        },
    ensures
        renamed(v, store, open, disk, uri, path, pos, new_name, files) matches Ok(edits) && {
            &&& forall|i: int|
                0 <= i < edits.len() ==> (#[trigger] edits[i]).edit.new_text == new_name
            &&& edits_range(
                edits,
                path,
                prepared(v, store, open, disk, uri, path, pos, files)->Ok_0,
            )
        },
{
    let target = target_of(v, store, open, disk, uri, path, pos, files)->Ok_0;
    let range = prepared(v, store, open, disk, uri, path, pos, files)->Ok_0;
    let places = rewritten(v, store, open, path, target, files);
    let edits = edits_at(places, new_name);
    match target {
        TargetView::Local { word: _, refs } => {
            lemma_usage_or_declaration(refs, pos, 0);
            if range == refs.declaration {
                assert(edits[0].edit.range == range);
            } else {
                let k = choose|k: int| 0 <= k < refs.usages.len() && #[trigger] refs.usages[k]
                    == range;
                assert(edits[k + 1].edit.range == range);
            }
        },
        TargetView::Keyword { sites } => {
            lemma_site_range(sites, path, pos, 0);
            let k = choose|k: int|
                0 <= k < sites.len() && (#[trigger] sites[k]).file == path && sites[k].name
                    == range;
            assert(edits[k].file == path && edits[k].edit.range == range);
        },
        TargetView::Global { fqn, sym } => {
            let text = store.docs[uri];
            let line = match nth_line(text, pos.line as nat) {
                Some(line) => line,
                None => seq![],
            };
            let a = analysis_of(text, path, v.config)->0;
            let found = usages(v, store, open, fqn, files);
            let i = choose|i: int|
                0 <= i < open.len() && (#[trigger] open[i]).uri == uri && open[i].path == path
                    && only_at(open, path, i);
            match symbol_range(a.symbols, fqn, line, pos, 0) {
                Some(_) => {
                    lemma_symbol_range(a.symbols, fqn, line, pos, 0);
                    lemma_open_text(store, open, uri, path, i, 0);
                    assert(edits[0].file == path && edits[0].edit.range == range);
                },
                None => {
                    lemma_usage_range(a.occurrences, fqn, line, pos, 0);
                    let k = choose|k: int|
                        0 <= k < a.occurrences.len() && (#[trigger] a.occurrences[k]).fqn == fqn
                            && a.occurrences[k].name_range == range;
                    lemma_usage_is_found(v, store, open, uri, path, fqn, files, a.occurrences, i, k);
                    let at = LocationView { file: path, range };
                    let all = all_places(found, found.len());
                    let m = all.index_of(at);
                    assert(places[m + 1] == at);
                    assert(edits[m + 1].file == path && edits[m + 1].edit.range == range);
                },
            }
        },
    }
}

proof fn lemma_usage_or_declaration(refs: LocalRefsView, pos: Position, i: nat)
    ensures
        usage_or_declaration(refs, pos, i) == refs.declaration || exists|k: int|
            0 <= k < refs.usages.len() && #[trigger] refs.usages[k] == usage_or_declaration(
                refs,
                pos,
                i,
            ),
    decreases refs.usages.len() - i,
{
    if i < refs.usages.len() {
        if refs.usages[i as int].holds(pos) {
            assert(refs.usages[i as int] == usage_or_declaration(refs, pos, i));
        } else {
            lemma_usage_or_declaration(refs, pos, i + 1);
        }
    }
}

proof fn lemma_site_range(sites: Seq<SiteView>, file: Seq<char>, pos: Position, i: nat)
    ensures
        site_range(sites, file, pos, i) matches Some(r) ==> exists|k: int|
            0 <= k < sites.len() && (#[trigger] sites[k]).file == file && sites[k].name == r,
    decreases sites.len() - i,
{
    if i < sites.len() {
        if sites[i as int].file == file && sites[i as int].token.holds(pos) {
        } else {
            lemma_site_range(sites, file, pos, i + 1);
        }
    }
}

proof fn lemma_symbol_range(
    syms: Seq<SymbolView>,
    fqn: Seq<char>,
    line: Seq<char>,
    pos: Position,
    i: nat,
)
    ensures
        symbol_range(syms, fqn, line, pos, i) matches Some(r) ==> exists|k: int|
            0 <= k < syms.len() && (#[trigger] syms[k]).fqn == fqn && syms[k].name_range == r,
    decreases syms.len() - i,
{
    if i < syms.len() {
        if syms[i as int].fqn == fqn && reaches(line, pos, syms[i as int].name_range) {
        } else {
            lemma_symbol_range(syms, fqn, line, pos, i + 1);
        }
    }
}

proof fn lemma_usage_range(
    occs: Seq<OccurrenceView>,
    fqn: Seq<char>,
    line: Seq<char>,
    pos: Position,
    i: nat,
)
    ensures
        usage_range(occs, fqn, line, pos, i) matches Some(r) ==> exists|k: int|
            0 <= k < occs.len() && (#[trigger] occs[k]).fqn == fqn && occs[k].name_range == r,
    decreases occs.len() - i,
{
    if i < occs.len() {
        if occs[i as int].fqn == fqn && reaches(line, pos, occs[i as int].name_range) {
        } else {
            lemma_usage_range(occs, fqn, line, pos, i + 1);
        }
    }
}

proof fn lemma_open_text(
    store: StoreView,
    open: Seq<OpenView>,
    uri: Seq<char>,
    path: Seq<char>,
    i: int,
    k: nat,
)
    requires
        0 <= k <= i < open.len(),
        open[i].uri == uri,
        open[i].path == path,
        only_at(open, path, i),
        store.text(uri) is Some,
    ensures
        open_text(store, open, path, k) == store.text(uri),
    decreases i - k,
{
    if k < i {
        lemma_open_text(store, open, uri, path, i, k + 1);
    }
}

/// What an open document uses is among the usages.
proof fn lemma_usage_is_found(
    v: IndexView,
    store: StoreView,
    open: Seq<OpenView>,
    uri: Seq<char>,
    path: Seq<char>,
    fqn: Seq<char>,
    files: Seq<Seq<char>>,
    occs: Seq<OccurrenceView>,
    i: int,
    k: int,
)
    requires
        0 <= i < open.len(),
        open[i].uri == uri,
        open[i].path == path,
        only_at(open, path, i),
        store.tree(uri) is Some,
        occs == occurrences_of(store.docs[uri], path, v.config),
        0 <= k < occs.len(),
        occs[k].fqn == fqn,
    ensures
        ({
            let found = usages(v, store, open, fqn, files);
            all_places(found, found.len()).contains(
                LocationView { file: path, range: occs[k].name_range },
            )
        }),
{
    let opened = live(v, store, open, open.len());
    let found = usages(v, store, open, fqn, files);
    lemma_live(v, store, open, uri, path, i, open.len());
    lemma_key_from(opened, path, 0);
    let m = key_from(opened, path, 0)->0;
    let kept = meaning(occs, fqn, occs.len());
    lemma_meaning(occs, fqn, occs.len(), k);
    let q = kept.index_of(occs[k]);
    let file = FileView { file: path, occurrences: kept };
    lemma_open_files(opened, fqn, opened.len(), m as int);
    let before = indexed_files(v, opened, fqn, files, files.len());
    let last = open_files(opened, fqn, opened.len());
    let j = last.index_of(file);
    assert(found[before.len() + j] == file);
    lemma_places(path, kept, kept.len(), q);
    lemma_all_places(
        found,
        found.len(),
        before.len() + j,
        LocationView { file: path, range: occs[k].name_range },
    );
}

proof fn lemma_live(
    v: IndexView,
    store: StoreView,
    open: Seq<OpenView>,
    uri: Seq<char>,
    path: Seq<char>,
    i: int,
    n: nat,
)
    requires
        0 <= i < n <= open.len(),
        open[i].uri == uri,
        open[i].path == path,
        only_at(open, path, i),
        store.tree(uri) is Some,
    ensures
        dict_get(live(v, store, open, n), path) == Some(
            occurrences_of(store.docs[uri], path, v.config),
        ),
    decreases n,
{
    let d = open[n - 1];
    let before = live(v, store, open, (n - 1) as nat);
    law_dict_get_after_put(
        before,
        d.path,
        occurrences_of(store.docs[d.uri], d.path, v.config),
        path,
    );
    if i < n - 1 {
        lemma_live(v, store, open, uri, path, i, (n - 1) as nat);
    }
}

proof fn lemma_meaning(occs: Seq<OccurrenceView>, fqn: Seq<char>, n: nat, k: int)
    requires
        0 <= k < n <= occs.len(),
        occs[k].fqn == fqn,
    ensures
        meaning(occs, fqn, n).contains(occs[k]),
    decreases n,
{
    let before = meaning(occs, fqn, (n - 1) as nat);
    crate::sort::lemma_push_contains(before, occs[n - 1], occs[k]);
    if k < n - 1 {
        lemma_meaning(occs, fqn, (n - 1) as nat, k);
    }
}

proof fn lemma_open_files(
    opened: Seq<(Seq<char>, Seq<OccurrenceView>)>,
    fqn: Seq<char>,
    n: nat,
    m: int,
)
    requires
        0 <= m < n <= opened.len(),
        meaning(opened[m].1, fqn, opened[m].1.len()).len() > 0,
    ensures
        open_files(opened, fqn, n).contains(
            FileView {
                file: opened[m].0,
                occurrences: meaning(opened[m].1, fqn, opened[m].1.len()),
            },
        ),
    decreases n,
{
    let before = open_files(opened, fqn, (n - 1) as nat);
    let (file, occs) = opened[n - 1];
    let last = FileView { file, occurrences: meaning(occs, fqn, occs.len()) };
    let want = FileView {
        file: opened[m].0,
        occurrences: meaning(opened[m].1, fqn, opened[m].1.len()),
    };
    crate::sort::lemma_push_contains(before, last, want);
    if m < n - 1 {
        lemma_open_files(opened, fqn, (n - 1) as nat, m);
    }
}

proof fn lemma_places(file: Seq<char>, occs: Seq<OccurrenceView>, n: nat, k: int)
    requires
        0 <= k < n <= occs.len(),
    ensures
        places(file, occs, n).contains(LocationView { file, range: occs[k].name_range }),
    decreases n,
{
    let before = places(file, occs, (n - 1) as nat);
    crate::sort::lemma_push_contains(
        before,
        LocationView { file, range: occs[n - 1].name_range },
        LocationView { file, range: occs[k].name_range },
    );
    if k < n - 1 {
        lemma_places(file, occs, (n - 1) as nat, k);
    }
}

proof fn lemma_all_places(files: Seq<FileView>, n: nat, j: int, at: LocationView)
    requires
        0 <= j < n <= files.len(),
        places(files[j].file, files[j].occurrences, files[j].occurrences.len()).contains(at),
    ensures
        all_places(files, n).contains(at),
    decreases n,
{
    let f = files[n - 1];
    let before = all_places(files, (n - 1) as nat);
    let last = places(f.file, f.occurrences, f.occurrences.len());
    let all = all_places(files, n);
    if j < n - 1 {
        lemma_all_places(files, (n - 1) as nat, j, at);
        assert(all[before.index_of(at)] == at);
    } else {
        assert(all[before.len() + last.index_of(at)] == at);
    }
}

/// A rename never starts from a file outside the project.
pub proof fn law_library_files_are_not_renamed(
    v: IndexView,
    store: StoreView,
    open: Seq<OpenView>,
    disk: Seq<(Seq<char>, Seq<char>)>,
    uri: Seq<char>,
    path: Seq<char>,
    pos: Position,
    new_name: Seq<char>,
    files: Seq<Seq<char>>,
)
    requires
        !v.occurrences.dom().contains(path),
    ensures
        renamed(v, store, open, disk, uri, path, pos, new_name, files) == Err::<
            Seq<FileEditView>,
            ErrorView,
        >(ErrorView::LibraryFile),
{
}

/// The rename of a local edits its own file alone, and every edit writes the new name.
pub proof fn law_local_rename_stays_in_its_file(
    v: IndexView,
    store: StoreView,
    open: Seq<OpenView>,
    disk: Seq<(Seq<char>, Seq<char>)>,
    uri: Seq<char>,
    path: Seq<char>,
    pos: Position,
    new_name: Seq<char>,
    files: Seq<Seq<char>>,
    i: int,
)
    requires
        local_at(store, uri, pos) is Some,
        renamed(v, store, open, disk, uri, path, pos, new_name, files) is Ok,
        0 <= i < renamed(v, store, open, disk, uri, path, pos, new_name, files)->Ok_0.len(),
    ensures
        renamed(v, store, open, disk, uri, path, pos, new_name, files)->Ok_0[i].file == path,
        renamed(v, store, open, disk, uri, path, pos, new_name, files)->Ok_0[i].edit.new_text
            == new_name,
{
}

/// A local is renamed only where the new name is free: no visible local has it, neither at
/// the declaration nor at any usage. What is edited then is the declaration and every usage,
/// in the local's file, and nothing else.
pub proof fn law_local_rename_is_not_captured(
    v: IndexView,
    store: StoreView,
    open: Seq<OpenView>,
    disk: Seq<(Seq<char>, Seq<char>)>,
    uri: Seq<char>,
    path: Seq<char>,
    pos: Position,
    new_name: Seq<char>,
    files: Seq<Seq<char>>,
    word: Seq<char>,
    refs: LocalRefsView,
    root: FormView,
)
    requires
        local_at(store, uri, pos) == Some((word, refs)),
        store.tree(uri) == Some(root),
        renamed(v, store, open, disk, uri, path, pos, new_name, files) is Ok,
    ensures
        !refs.destructured_key,
        forall|k: int|
            0 <= k < visible(root, refs.declaration.start).len() ==> (#[trigger] visible(
                root,
                refs.declaration.start,
            )[k]).name != new_name,
        forall|u: Range, k: int|
            refs.usages.contains(u) && 0 <= k < visible(root, u.start).len() ==> (
            #[trigger] visible(root, u.start)[k]).name != new_name,
        forall|e: FileEditView|
            #[trigger] renamed(
                v,
                store,
                open,
                disk,
                uri,
                path,
                pos,
                new_name,
                files,
            )->Ok_0.contains(e) <==> {
                &&& e.file == path
                &&& e.edit.new_text == new_name
                &&& e.edit.range == refs.declaration || refs.usages.contains(e.edit.range)
            },
{
    assert forall|u: Range, k: int|
        refs.usages.contains(u) && 0 <= k < visible(root, u.start).len() implies (
    #[trigger] visible(root, u.start)[k]).name != new_name by {
        let i = refs.usages.index_of(u);
        assert(!binds(visible(root, refs.usages[i].start), new_name));
    }
    let edits = renamed(v, store, open, disk, uri, path, pos, new_name, files)->Ok_0;
    assert forall|e: FileEditView| #[trigger] edits.contains(e) <==> {
        &&& e.file == path
        &&& e.edit.new_text == new_name
        &&& e.edit.range == refs.declaration || refs.usages.contains(e.edit.range)
    } by {
        if edits.contains(e) {
            let i = edits.index_of(e);
            if i > 0 {
                assert(refs.usages[i - 1] == e.edit.range);
            }
        }
        if e.file == path && e.edit.new_text == new_name {
            if e.edit.range == refs.declaration {
                assert(edits[0] == e);
            } else if refs.usages.contains(e.edit.range) {
                assert(edits[1 + refs.usages.index_of(e.edit.range)] == e);
            }
        }
    }
}

/// A local of a project file is renamed wherever that is harmless: it is no key of what it
/// destructures, the new name is one, and no local has it at the declaration or at a usage.
pub proof fn law_free_names_are_taken(
    v: IndexView,
    store: StoreView,
    open: Seq<OpenView>,
    disk: Seq<(Seq<char>, Seq<char>)>,
    uri: Seq<char>,
    path: Seq<char>,
    pos: Position,
    new_name: Seq<char>,
    files: Seq<Seq<char>>,
    word: Seq<char>,
    refs: LocalRefsView,
    root: FormView,
)
    requires
        v.occurrences.dom().contains(path),
        local_at(store, uri, pos) == Some((word, refs)),
        store.tree(uri) == Some(root),
        !refs.destructured_key,
        new_name.len() > 0,
        !ascii_digit(new_name[0]),
        forall|i: int|
            0 <= i < new_name.len() ==> ident_char(#[trigger] new_name[i]) && new_name[i] != '/',
    ensures
        renamed(v, store, open, disk, uri, path, pos, new_name, files) is Ok || renamed(
            v,
            store,
            open,
            disk,
            uri,
            path,
            pos,
            new_name,
            files,
        ) == Err::<Seq<FileEditView>, ErrorView>(ErrorView::Captured { word, new_name }),
        renamed(v, store, open, disk, uri, path, pos, new_name, files) is Err ==> {
            ||| exists|k: int|
                0 <= k < visible(root, refs.declaration.start).len() && (#[trigger] visible(
                    root,
                    refs.declaration.start,
                )[k]).name == new_name
            ||| exists|i: int, k: int|
                0 <= i < refs.usages.len() && 0 <= k < visible(root, refs.usages[i].start).len()
                    && (#[trigger] visible(root, refs.usages[i].start)[k]).name == new_name
        },
{
    if renamed(v, store, open, disk, uri, path, pos, new_name, files) is Err && !binds(
        visible(root, refs.declaration.start),
        new_name,
    ) {
        let i = choose|i: int|
            0 <= i < refs.usages.len() && binds(
                visible(root, (#[trigger] refs.usages[i]).start),
                new_name,
            );
        let all = visible(root, refs.usages[i].start);
        let k = choose|k: int| 0 <= k < all.len() && (#[trigger] all[k]).name == new_name;
        assert(visible(root, refs.usages[i].start)[k].name == new_name);
    }
}

/// Whatever is renamed gets a name that a symbol can have, and no edit writes anything else.
pub proof fn law_new_name_is_a_name(
    v: IndexView,
    store: StoreView,
    open: Seq<OpenView>,
    disk: Seq<(Seq<char>, Seq<char>)>,
    uri: Seq<char>,
    path: Seq<char>,
    pos: Position,
    new_name: Seq<char>,
    files: Seq<Seq<char>>,
)
    requires
        renamed(v, store, open, disk, uri, path, pos, new_name, files) is Ok,
    ensures
        v.occurrences.dom().contains(path),
        new_name.len() > 0,
        !ascii_digit(new_name[0]),
        forall|i: int|
            0 <= i < new_name.len() ==> ident_char(#[trigger] new_name[i]) && new_name[i] != '/',
        forall|i: int|
            0 <= i < renamed(v, store, open, disk, uri, path, pos, new_name, files)->Ok_0.len()
                ==> (#[trigger] renamed(
                v,
                store,
                open,
                disk,
                uri,
                path,
                pos,
                new_name,
                files,
            )->Ok_0[i]).edit.new_text == new_name,
{
}

/// A definition is renamed with all that uses it: what is replaced is its name and every
/// usage in the files of the project, shown or only indexed, and nothing else.
pub proof fn law_definition_is_renamed_with_all_usages(
    v: IndexView,
    store: StoreView,
    open: Seq<OpenView>,
    disk: Seq<(Seq<char>, Seq<char>)>,
    uri: Seq<char>,
    path: Seq<char>,
    pos: Position,
    new_name: Seq<char>,
    files: Seq<Seq<char>>,
    fqn: Seq<char>,
)
    requires
        lists_files(v, files),
        local_at(store, uri, pos) is None,
        fqn_at(v, store, uri, path, pos) == Some(fqn),
        fqn.len() > 0 ==> fqn[0] != ':',
        renamed(v, store, open, disk, uri, path, pos, new_name, files) is Ok,
    ensures
        v.symbols.dom().contains(fqn),
        v.symbols[fqn].source is Project,
        forall|file: Seq<char>, range: Range|
            #[trigger] edits_range(
                renamed(v, store, open, disk, uri, path, pos, new_name, files)->Ok_0,
                file,
                range,
            ) <==> is_usage(v, store, open, fqn, (LocationView { file, range })) || (file
                == v.symbols[fqn].file && range == definition_range(
                v,
                store,
                open,
                v.symbols[fqn],
                fqn,
            )),
{
    let sym = v.symbols[fqn];
    let found = usages(v, store, open, fqn, files);
    let all = all_places(found, found.len());
    let edits = renamed(v, store, open, disk, uri, path, pos, new_name, files)->Ok_0;
    let site = LocationView {
        file: sym.file,
        range: definition_range(v, store, open, sym, fqn),
    };
    assert forall|file: Seq<char>, range: Range| #[trigger]
        edits_range(edits, file, range) <==> is_usage(
            v,
            store,
            open,
            fqn,
            (LocationView { file, range }),
        ) || (file == site.file && range == site.range) by {
        let place = LocationView { file, range };
        lemma_usage_places(v, store, open, fqn, files, place);
        if edits_range(edits, file, range) {
            let i = choose|i: int|
                0 <= i < edits.len() && (#[trigger] edits[i]).file == file && edits[i].edit.range
                    == range;
            if i > 0 {
                assert(all[i - 1] == place);
            }
        }
        if all.contains(place) {
            let i = all.index_of(place);
            assert(edits[i + 1].file == file && edits[i + 1].edit.range == range);
        }
        if place == site {
            assert(edits[0].file == file && edits[0].edit.range == range);
        }
    }
}

/// Where a definition's name stands: where the open document of its file defines it first, and
/// where the index says while no document of the file is open or the document does not
/// define it.
pub proof fn law_definition_stands_where_it_is_shown(
    v: IndexView,
    store: StoreView,
    open: Seq<OpenView>,
    sym: SymbolView,
    fqn: Seq<char>,
    i: int,
    k: int,
)
    ensures
        (forall|j: int|
            0 <= j < open.len() && (#[trigger] open[j]).path == sym.file ==> !store.docs.dom().contains(
                open[j].uri,
            )) ==> definition_range(v, store, open, sym, fqn) == sym.name_range,
        0 <= i < open.len() && open[i].path == sym.file && store.docs.dom().contains(open[i].uri)
            && only_at(open, sym.file, i) ==> match analysis_of(
            store.docs[open[i].uri],
            sym.file,
            v.config,
        ) {
            Some(a) => {
                &&& 0 <= k < a.symbols.len() && a.symbols[k].fqn == fqn && (forall|j: int|
                    0 <= j < k ==> (#[trigger] a.symbols[j]).fqn != fqn) ==> definition_range(
                    v,
                    store,
                    open,
                    sym,
                    fqn,
                ) == a.symbols[k].name_range
                &&& (forall|j: int| 0 <= j < a.symbols.len() ==> (#[trigger] a.symbols[j]).fqn != fqn)
                    ==> definition_range(v, store, open, sym, fqn) == sym.name_range
            },
            None => definition_range(v, store, open, sym, fqn) == sym.name_range,
        },
{
    if forall|j: int|
        0 <= j < open.len() && (#[trigger] open[j]).path == sym.file ==> !store.docs.dom().contains(
            open[j].uri,
        ) {
        lemma_no_open_text(store, open, sym.file, 0);
    }
    if 0 <= i < open.len() && open[i].path == sym.file && store.docs.dom().contains(open[i].uri)
        && only_at(open, sym.file, i) {
        lemma_open_text_of(store, open, sym.file, i, 0);
        if let Some(a) = analysis_of(store.docs[open[i].uri], sym.file, v.config) {
            if 0 <= k < a.symbols.len() && a.symbols[k].fqn == fqn && (forall|j: int|
                0 <= j < k ==> (#[trigger] a.symbols[j]).fqn != fqn) {
                lemma_range_of(a.symbols, fqn, 0, k);
            }
            if forall|j: int| 0 <= j < a.symbols.len() ==> (#[trigger] a.symbols[j]).fqn != fqn {
                lemma_no_range_of(a.symbols, fqn, 0);
            }
        }
    }
}

proof fn lemma_no_open_text(store: StoreView, open: Seq<OpenView>, file: Seq<char>, i: nat)
    requires
        forall|j: int|
            0 <= j < open.len() && (#[trigger] open[j]).path == file ==> !store.docs.dom().contains(
                open[j].uri,
            ),
    ensures
        open_text(store, open, file, i) is None,
    decreases open.len() - i,
{
    if i < open.len() {
        assert(open[i as int].path == file ==> !store.docs.dom().contains(open[i as int].uri));
        lemma_no_open_text(store, open, file, i + 1);
    }
}

proof fn lemma_open_text_of(
    store: StoreView,
    open: Seq<OpenView>,
    file: Seq<char>,
    k: int,
    i: nat,
)
    requires
        i <= k < open.len(),
        open[k].path == file,
        store.docs.dom().contains(open[k].uri),
        only_at(open, file, k),
    ensures
        open_text(store, open, file, i) == Some(store.docs[open[k].uri]),
    decreases open.len() - i,
{
    if i < k {
        assert(open[i as int].path != file);
        lemma_open_text_of(store, open, file, k, i + 1);
    }
}

proof fn lemma_range_of(syms: Seq<SymbolView>, fqn: Seq<char>, i: nat, k: int)
    requires
        i <= k < syms.len(),
        syms[k].fqn == fqn,
        forall|j: int| 0 <= j < k ==> (#[trigger] syms[j]).fqn != fqn,
    ensures
        range_of(syms, fqn, i) == Some(syms[k].name_range),
    decreases syms.len() - i,
{
    if i < k {
        assert(syms[i as int].fqn != fqn);
        lemma_range_of(syms, fqn, i + 1, k);
    }
}

proof fn lemma_no_range_of(syms: Seq<SymbolView>, fqn: Seq<char>, i: nat)
    requires
        forall|j: int| 0 <= j < syms.len() ==> (#[trigger] syms[j]).fqn != fqn,
    ensures
        range_of(syms, fqn, i) is None,
    decreases syms.len() - i,
{
    if i < syms.len() {
        assert(syms[i as int].fqn != fqn);
        lemma_no_range_of(syms, fqn, i + 1);
    }
}

/// Whether the keyword is defined at a place: by an open document that is no configuration
/// file, or by the index where its file is not open.
pub open spec fn is_keyword_definition(
    v: IndexView,
    store: StoreView,
    open: Seq<OpenView>,
    fqn: Seq<char>,
    place: LocationView,
) -> bool {
    ||| exists|i: int, k: int|
        #[trigger] defines_at(v, store, open, fqn, i, k) && place == (LocationView {
            file: open[i].path,
            range: analysis_of(
                store.docs[open[i].uri],
                open[i].path,
                v.config,
            )->0.symbols[k].name_range,
        })
    ||| {
        &&& v.symbols.dom().contains(fqn)
        &&& place == (LocationView { file: v.symbols[fqn].file, range: v.symbols[fqn].name_range })
        &&& forall|i: int| 0 <= i < open.len() ==> (#[trigger] open[i]).path != place.file
    }
}

/// Whether the symbol at `k` of the open document at `i` defines `fqn`.
pub open spec fn defines_at(
    v: IndexView,
    store: StoreView,
    open: Seq<OpenView>,
    fqn: Seq<char>,
    i: int,
    k: int,
) -> bool {
    &&& 0 <= i < open.len()
    &&& extension_of(open[i].path) != Some("edn"@)
    &&& store.tree(open[i].uri) is Some
    &&& analysis_of(store.docs[open[i].uri], open[i].path, v.config) matches Some(a) && 0 <= k
        < a.symbols.len() && a.symbols[k].fqn == fqn
}

proof fn lemma_defined_at(
    syms: Seq<SymbolView>,
    fqn: Seq<char>,
    file: Seq<char>,
    n: nat,
    place: LocationView,
)
    requires
        n <= syms.len(),
    ensures
        defined_at(syms, fqn, file, n).contains(place) <==> exists|k: int|
            0 <= k < n && (#[trigger] syms[k]).fqn == fqn && place == (LocationView {
                file,
                range: syms[k].name_range,
            }),
    decreases n,
{
    if n > 0 {
        let before = defined_at(syms, fqn, file, (n - 1) as nat);
        let last = LocationView { file, range: syms[n - 1].name_range };
        lemma_defined_at(syms, fqn, file, (n - 1) as nat, place);
        crate::sort::lemma_push_contains(before, last, place);
        assert(syms[n - 1].name_range == last.range);
        if before.contains(place) {
            let k = choose|k: int|
                0 <= k < n - 1 && (#[trigger] syms[k]).fqn == fqn && place == (LocationView {
                    file,
                    range: syms[k].name_range,
                });
            assert(syms[k].fqn == fqn);
        }
        if exists|k: int|
            0 <= k < n && (#[trigger] syms[k]).fqn == fqn && place == (LocationView {
                file,
                range: syms[k].name_range,
            }) {
            let k = choose|k: int|
                0 <= k < n && (#[trigger] syms[k]).fqn == fqn && place == (LocationView {
                    file,
                    range: syms[k].name_range,
                });
            if k < n - 1 {
                assert(before.contains(place));
            }
        }
    } else {
        assert(defined_at(syms, fqn, file, n) =~= seq![]);
    }
}

proof fn lemma_open_definitions(
    v: IndexView,
    store: StoreView,
    open: Seq<OpenView>,
    fqn: Seq<char>,
    n: nat,
    place: LocationView,
)
    requires
        n <= open.len(),
    ensures
        open_definitions(v, store, open, fqn, n).contains(place) <==> exists|i: int, k: int|
            i < n && #[trigger] defines_at(v, store, open, fqn, i, k) && place == (LocationView {
                file: open[i].path,
                range: analysis_of(
                    store.docs[open[i].uri],
                    open[i].path,
                    v.config,
                )->0.symbols[k].name_range,
            }),
    decreases n,
{
    if n > 0 {
        let before = open_definitions(v, store, open, fqn, (n - 1) as nat);
        let d = open[n - 1];
        lemma_open_definitions(v, store, open, fqn, (n - 1) as nat, place);
        if let Some(a) = analysis_of(store.docs[d.uri], d.path, v.config) {
            let last = defined_at(a.symbols, fqn, d.path, a.symbols.len());
            lemma_concat_contains(before, last, place);
            lemma_defined_at(a.symbols, fqn, d.path, a.symbols.len(), place);
            if last.contains(place) && !(extension_of(d.path) == Some("edn"@) || store.tree(d.uri)
                is None) {
                let k = choose|k: int|
                    0 <= k < a.symbols.len() && (#[trigger] a.symbols[k]).fqn == fqn && place == (
                    LocationView { file: d.path, range: a.symbols[k].name_range });
                assert(defines_at(v, store, open, fqn, n - 1, k));
            }
        }
        if exists|i: int, k: int|
            i < n && #[trigger] defines_at(v, store, open, fqn, i, k) && place == (LocationView {
                file: open[i].path,
                range: analysis_of(
                    store.docs[open[i].uri],
                    open[i].path,
                    v.config,
                )->0.symbols[k].name_range,
            }) {
            let (i, k) = choose|i: int, k: int|
                i < n && #[trigger] defines_at(v, store, open, fqn, i, k) && place == (
                LocationView {
                    file: open[i].path,
                    range: analysis_of(
                        store.docs[open[i].uri],
                        open[i].path,
                        v.config,
                    )->0.symbols[k].name_range,
                });
            if i == n - 1 {
                let a = analysis_of(store.docs[d.uri], d.path, v.config)->0;
                assert(a.symbols[k].fqn == fqn);
            } else {
                assert(before.contains(place));
            }
        }
    } else {
        assert(open_definitions(v, store, open, fqn, n) =~= seq![]);
    }
}

/// The places of a keyword are its usages and its definitions.
pub proof fn law_keyword_places(
    v: IndexView,
    store: StoreView,
    open: Seq<OpenView>,
    fqn: Seq<char>,
    files: Seq<Seq<char>>,
    place: LocationView,
)
    requires
        lists_files(v, files),
    ensures
        keyword_places(v, store, open, fqn, files).contains(place) <==> is_usage(
            v,
            store,
            open,
            fqn,
            place,
        ) || is_keyword_definition(v, store, open, fqn, place),
{
    let found = usages(v, store, open, fqn, files);
    let used = all_places(found, found.len());
    let shown = open_definitions(v, store, open, fqn, open.len());
    let known = match at(v.symbols, fqn) {
        Some(sym) => if is_open(open, sym.file) {
            seq![]
        } else {
            seq![LocationView { file: sym.file, range: sym.name_range }]
        },
        None => seq![],
    };
    lemma_usage_places(v, store, open, fqn, files, place);
    lemma_open_definitions(v, store, open, fqn, open.len(), place);
    lemma_concat_contains(shown + known, used, place);
    lemma_concat_contains(shown, known, place);
    if known.len() > 0 {
        assert(known[0] == (LocationView {
            file: v.symbols[fqn].file,
            range: v.symbols[fqn].name_range,
        }));
    }
}

/// A keyword is renamed wherever it stands in the project: every usage and definition in a
/// project file gets an edit that replaces the name at the end of its token, and every edit
/// is of such a place.
pub proof fn law_keyword_is_renamed_wherever_it_stands(
    v: IndexView,
    store: StoreView,
    open: Seq<OpenView>,
    disk: Seq<(Seq<char>, Seq<char>)>,
    uri: Seq<char>,
    path: Seq<char>,
    pos: Position,
    new_name: Seq<char>,
    files: Seq<Seq<char>>,
    ns: Seq<char>,
    name: Seq<char>,
)
    requires
        lists_files(v, files),
        local_at(store, uri, pos) is None,
        !ns.contains('/'),
        ns.len() > 0 ==> ns[0] != ':',
        fqn_at(v, store, uri, path, pos) == Some(seq![':'] + ns + seq!['/'] + name),
        renamed(v, store, open, disk, uri, path, pos, new_name, files) is Ok,
    ensures
        new_name[0] != ':',
        v.namespaces.dom().contains(ns) ==> v.owns_namespace(ns),
        ({
            let fqn = seq![':'] + ns + seq!['/'] + name;
            let edits = renamed(v, store, open, disk, uri, path, pos, new_name, files)->Ok_0;
            &&& forall|place: LocationView|
                (#[trigger] is_usage(v, store, open, fqn, place) || is_keyword_definition(
                    v,
                    store,
                    open,
                    fqn,
                    place,
                )) && v.occurrences.dom().contains(place.file) ==> replaced_in(
                    edits,
                    store,
                    open,
                    disk,
                    place,
                    name,
                )
            &&& forall|e: FileEditView| #[trigger]
                edits.contains(e) ==> exists|place: LocationView|
                    #[trigger] replaces(store, open, disk, place, name, e) && (is_usage(
                        v,
                        store,
                        open,
                        fqn,
                        place,
                    ) || is_keyword_definition(v, store, open, fqn, place))
                        && v.occurrences.dom().contains(place.file)
        }),
{
    let fqn = seq![':'] + ns + seq!['/'] + name;
    let edits = renamed(v, store, open, disk, uri, path, pos, new_name, files)->Ok_0;
    let plain = ns + seq!['/'] + name;
    assert(fqn =~= seq![':'] + plain);
    reveal_with_fuel(colons_end, 3);
    assert(plain[0] != ':');
    assert(without_colons(fqn) =~= plain);
    law_split_at_the_first(ns, '/', name);
    let places = keyword_places(v, store, open, fqn, files);
    let n = places.len();
    let sites = sites_of(v, store, open, disk, fqn, name, places, n)->Ok_0;
    assert forall|place: LocationView|
        (#[trigger] is_usage(v, store, open, fqn, place) || is_keyword_definition(
            v,
            store,
            open,
            fqn,
            place,
        )) && v.occurrences.dom().contains(place.file) implies replaced_in(
        edits,
        store,
        open,
        disk,
        place,
        name,
    ) by {
        law_keyword_places(v, store, open, fqn, files, place);
        let i = places.index_of(place);
        lemma_place_has_site(v, store, open, disk, fqn, name, places, n, i);
        let site = site_at(v, store, open, disk, fqn, name, place)->Ok_0->0;
        let k = choose|k: int|
            0 <= k < sites.len() && (#[trigger] sites[k]).file == site.file && sites[k].name
                == site.name;
        assert(replaces(store, open, disk, place, name, edits[k]));
    }
    assert forall|e: FileEditView| #[trigger] edits.contains(e) implies exists|place: LocationView|
        #[trigger] replaces(store, open, disk, place, name, e) && (is_usage(
            v,
            store,
            open,
            fqn,
            place,
        ) || is_keyword_definition(v, store, open, fqn, place)) && v.occurrences.dom().contains(
            place.file,
        ) by {
        let i = edits.index_of(e);
        let k = lemma_site_has_place(v, store, open, disk, fqn, name, places, n, i);
        law_keyword_places(v, store, open, fqn, files, places[k]);
        assert(replaces(store, open, disk, places[k], name, e));
    }
}

/// Whether an edit replaces the name at the end of the token that stands at a place.
pub open spec fn replaces(
    store: StoreView,
    open: Seq<OpenView>,
    disk: Seq<(Seq<char>, Seq<char>)>,
    place: LocationView,
    name: Seq<char>,
    e: FileEditView,
) -> bool {
    &&& e.file == place.file
    &&& text_of(store, open, disk, place.file) matches Some(text) && name_part(
        place.range,
        token_or_empty(text, place.range),
        name,
    ) == Some(e.edit.range)
}

/// Whether one of the edits does.
pub open spec fn replaced_in(
    edits: Seq<FileEditView>,
    store: StoreView,
    open: Seq<OpenView>,
    disk: Seq<(Seq<char>, Seq<char>)>,
    place: LocationView,
    name: Seq<char>,
) -> bool {
    exists|i: int|
        0 <= i < edits.len() && replaces(store, open, disk, place, name, #[trigger] edits[i])
}

/// Every site is of a place.
proof fn lemma_site_has_place(
    v: IndexView,
    store: StoreView,
    open: Seq<OpenView>,
    disk: Seq<(Seq<char>, Seq<char>)>,
    fqn: Seq<char>,
    name: Seq<char>,
    places: Seq<LocationView>,
    n: nat,
    i: int,
) -> (k: int)
    requires
        n <= places.len(),
        sites_of(v, store, open, disk, fqn, name, places, n) is Ok,
        0 <= i < sites_of(v, store, open, disk, fqn, name, places, n)->Ok_0.len(),
    ensures
        0 <= k < n,
        site_at(v, store, open, disk, fqn, name, places[k]) == Ok::<Option<SiteView>, ErrorView>(
            Some(sites_of(v, store, open, disk, fqn, name, places, n)->Ok_0[i]),
        ),
    decreases n,
{
    let before = sites_of(v, store, open, disk, fqn, name, places, (n - 1) as nat)->Ok_0;
    if i < before.len() {
        lemma_site_has_place(v, store, open, disk, fqn, name, places, (n - 1) as nat, i)
    } else {
        n - 1
    }
}

/// What an edit of a keyword replaces is the name and nothing more: the token at the place
/// is a keyword that ends in the name, behind a `/` or the marker, and the edit covers as
/// many code units at its end as the name has.
pub proof fn law_keyword_edit_covers_the_name(range: Range, token: Seq<char>, name: Seq<char>, part: Range)
    requires
        name_part(range, token, name) == Some(part),
        utf16_len(name) <= u32::MAX,
    ensures
        part.end == range.end,
        part.start.line == range.end.line,
        part.start.character + utf16_len(name) == range.end.character,
        token.len() > name.len(),
        token[0] == ':',
        token.skip(token.len() - name.len()) == name,
        token[token.len() - name.len() - 1] == '/' || token[token.len() - name.len() - 1] == ':',
{
    assert(token.skip(token.len() - name.len()) =~= token.subrange(
        token.len() - name.len(),
        token.len() as int,
    ));
}

}
