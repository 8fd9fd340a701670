//! What the index records: symbols, their usages, and namespaces.

use vstd::prelude::*;
use crate::collect::{contains_str, copy_opt, copy_strs, dict_get, strs, Copied, Dict};
use crate::index::core_library::{core_name_list, core_names};
use crate::lsp::Range;
use crate::text::str_eq;

verus! {

/// Where a symbol comes from.
#[derive(Clone, Debug, PartialEq, Eq)]
pub enum SymbolSource {
    Project,
    /// A library archive.
    Jar(String),
    /// A library source directory on the classpath (git checkouts, local
    /// dependencies). Its files are real paths on disk.
    Dir(String),
}

/// What a [`SymbolSource`] says.
pub ghost enum SourceView {
    Project,
    Jar(Seq<char>),
    Dir(Seq<char>),
}

impl DeepView for SymbolSource {
    type V = SourceView;

    open spec fn deep_view(&self) -> SourceView {
        match self {
            SymbolSource::Project => SourceView::Project,
            SymbolSource::Jar(p) => SourceView::Jar(p@),
            SymbolSource::Dir(p) => SourceView::Dir(p@),
        }
    }
}

impl SymbolSource {
    /// Whether the symbol belongs to the project itself.
    pub fn is_project(&self) -> (r: bool)
        ensures
            r == (self.deep_view() is Project),
    {
        match self {
            SymbolSource::Project => true,
            _ => false,
        }
    }
}

impl Copied for SymbolSource {
    fn copied(&self) -> (r: Self) {
        match self {
            SymbolSource::Project => SymbolSource::Project,
            SymbolSource::Jar(p) => SymbolSource::Jar(p.clone()),
            SymbolSource::Dir(p) => SymbolSource::Dir(p.clone()),
        }
    }
}

/// The kind of form that defined a symbol.
#[derive(Clone, Copy, Debug, PartialEq, Eq, Structural)]
pub enum DefKind {
    Def,
    Defonce,
    Defn,
    DefnPrivate,
    Defmacro,
    Defmulti,
    Defmethod,
    Defprotocol,
    Defrecord,
    Deftype,
    Deftest,
    Declare,
    /// An Integrant component key, defined by `(defmethod ig/init-key ::x …)`.
    /// Its `fqn` is the keyword itself (`:my.ns/x`), apart from var names, which
    /// never start with `:`.
    IntegrantKey,
}

impl DeepView for DefKind {
    type V = DefKind;

    open spec fn deep_view(&self) -> DefKind {
        *self
    }
}

impl Copied for DefKind {
    fn copied(&self) -> (r: Self) {
        *self
    }
}

/// The kind of definition that the core form `head` makes.
pub open spec fn def_symbol_kind(head: Seq<char>) -> Option<DefKind> {
    if head == "def"@ {
        Some(DefKind::Def)
    } else if head == "defonce"@ {
        Some(DefKind::Defonce)
    } else if head == "defn"@ {
        Some(DefKind::Defn)
    } else if head == "defn-"@ {
        Some(DefKind::DefnPrivate)
    } else if head == "defmacro"@ {
        Some(DefKind::Defmacro)
    } else if head == "defmulti"@ {
        Some(DefKind::Defmulti)
    } else if head == "defmethod"@ {
        Some(DefKind::Defmethod)
    } else if head == "defprotocol"@ {
        Some(DefKind::Defprotocol)
    } else if head == "defrecord"@ {
        Some(DefKind::Defrecord)
    } else if head == "deftype"@ {
        Some(DefKind::Deftype)
    } else {
        None
    }
}

/// The kind of definition that the well-known macro `fqn` makes.
pub open spec fn macro_fqn_kind(fqn: Seq<char>) -> Option<DefKind> {
    if fqn == "clojure.test/deftest"@ || fqn == "clojure.test/deftest-"@ {
        Some(DefKind::Deftest)
    } else {
        None
    }
}

impl DefKind {
    /// The kind of definition that the core form `head` makes.
    pub fn from_def_symbol(head: &str) -> (r: Option<DefKind>)
        ensures
            r == def_symbol_kind(head@),
    {
        if str_eq(head, "def") {
            Some(DefKind::Def)
        } else if str_eq(head, "defonce") {
            Some(DefKind::Defonce)
        } else if str_eq(head, "defn") {
            Some(DefKind::Defn)
        } else if str_eq(head, "defn-") {
            Some(DefKind::DefnPrivate)
        } else if str_eq(head, "defmacro") {
            Some(DefKind::Defmacro)
        } else if str_eq(head, "defmulti") {
            Some(DefKind::Defmulti)
        } else if str_eq(head, "defmethod") {
            Some(DefKind::Defmethod)
        } else if str_eq(head, "defprotocol") {
            Some(DefKind::Defprotocol)
        } else if str_eq(head, "defrecord") {
            Some(DefKind::Defrecord)
        } else if str_eq(head, "deftype") {
            Some(DefKind::Deftype)
        } else {
            None
        }
    }

    /// The kind of definition that the well-known macro `fqn` makes.
    pub fn from_macro_fqn(fqn: &str) -> (r: Option<DefKind>)
        ensures
            r == macro_fqn_kind(fqn@),
    {
        if str_eq(fqn, "clojure.test/deftest") || str_eq(fqn, "clojure.test/deftest-") {
            Some(DefKind::Deftest)
        } else {
            None
        }
    }
}

/// A defined name.
#[derive(Clone, Debug)]
pub struct Symbol {
    pub name: String,
    pub fqn: String,
    pub ns: String,
    pub kind: DefKind,
    pub params: Vec<String>,
    pub doc: Option<String>,
    pub file: String,
    pub source: SymbolSource,
    pub range: Range,
    pub name_range: Range,
    /// Whether only its own namespace can reach it.
    pub private: bool,
}

/// What a [`Symbol`] says.
pub ghost struct SymbolView {
    pub name: Seq<char>,
    pub fqn: Seq<char>,
    pub ns: Seq<char>,
    pub kind: DefKind,
    pub params: Seq<Seq<char>>,
    pub doc: Option<Seq<char>>,
    pub file: Seq<char>,
    pub source: SourceView,
    pub range: Range,
    pub name_range: Range,
    pub private: bool,
}

impl DeepView for Symbol {
    type V = SymbolView;

    open spec fn deep_view(&self) -> SymbolView {
        SymbolView {
            name: self.name@,
            fqn: self.fqn@,
            ns: self.ns@,
            kind: self.kind,
            params: strs(self.params@),
            doc: self.doc.deep_view(),
            file: self.file@,
            source: self.source.deep_view(),
            range: self.range,
            name_range: self.name_range,
            private: self.private,
        }
    }
}

impl Copied for Symbol {
    fn copied(&self) -> (r: Self) {
        Symbol {
            name: self.name.clone(),
            fqn: self.fqn.clone(),
            ns: self.ns.clone(),
            kind: self.kind,
            params: copy_strs(&self.params),
            doc: copy_opt(&self.doc),
            file: self.file.clone(),
            source: self.source.copied(),
            range: self.range,
            name_range: self.name_range,
            private: self.private,
        }
    }
}

/// A resolved usage of a symbol in a project file. Of a qualified symbol,
/// `name_range` covers the name part alone (`core/add`: just `add`), so that a
/// rename never touches the alias. A keyword's (its fqn starts with `:`) covers
/// the whole token.
#[derive(Clone, Debug, PartialEq, Eq)]
pub struct Occurrence {
    pub fqn: String,
    pub name_range: Range,
}

/// What an [`Occurrence`] says.
pub ghost struct OccurrenceView {
    pub fqn: Seq<char>,
    pub name_range: Range,
}

impl DeepView for Occurrence {
    type V = OccurrenceView;

    open spec fn deep_view(&self) -> OccurrenceView {
        OccurrenceView { fqn: self.fqn@, name_range: self.name_range }
    }
}

impl Copied for Occurrence {
    fn copied(&self) -> (r: Self) {
        Occurrence { fqn: self.fqn.clone(), name_range: self.name_range }
    }
}

/// What a file's `ns` form says.
#[derive(Clone, Debug)]
pub struct NsMeta {
    pub name: String,
    pub file: String,
    /// `:as` alias to namespace.
    pub aliases: Dict<String>,
    /// Referred name to fully qualified name.
    pub refers: Dict<String>,
    /// Every namespace that the file requires, with or without `:as`/`:refer`.
    pub requires: Vec<String>,
    /// Simple class name to fully qualified class name.
    pub imports: Dict<String>,
    /// Namespaces referred in full.
    pub refer_all: Vec<String>,
    /// Core names that the file excludes.
    pub core_excludes: Vec<String>,
}

/// What an [`NsMeta`] says.
pub ghost struct NsMetaView {
    pub name: Seq<char>,
    pub file: Seq<char>,
    pub aliases: Seq<(Seq<char>, Seq<char>)>,
    pub refers: Seq<(Seq<char>, Seq<char>)>,
    pub requires: Seq<Seq<char>>,
    pub imports: Seq<(Seq<char>, Seq<char>)>,
    pub refer_all: Seq<Seq<char>>,
    pub core_excludes: Seq<Seq<char>>,
}

impl DeepView for NsMeta {
    type V = NsMetaView;

    open spec fn deep_view(&self) -> NsMetaView {
        NsMetaView {
            name: self.name@,
            file: self.file@,
            aliases: self.aliases.deep_view(),
            refers: self.refers.deep_view(),
            requires: strs(self.requires@),
            imports: self.imports.deep_view(),
            refer_all: strs(self.refer_all@),
            core_excludes: strs(self.core_excludes@),
        }
    }
}

impl Copied for NsMeta {
    fn copied(&self) -> (r: Self) {
        NsMeta {
            name: self.name.clone(),
            file: self.file.clone(),
            aliases: self.aliases.copied(),
            refers: self.refers.copied(),
            requires: copy_strs(&self.requires),
            imports: self.imports.copied(),
            refer_all: copy_strs(&self.refer_all),
            core_excludes: copy_strs(&self.core_excludes),
        }
    }
}

impl NsMetaView {
    /// The metadata of a file that says nothing yet.
    pub open spec fn blank(file: Seq<char>) -> NsMetaView {
        NsMetaView {
            name: Seq::empty(),
            file,
            aliases: Seq::empty(),
            refers: Seq::empty(),
            requires: Seq::empty(),
            imports: Seq::empty(),
            refer_all: Seq::empty(),
            core_excludes: Seq::empty(),
        }
    }

    /// Whether `prefix` means something in this file: its own namespace, an
    /// alias, or a required namespace.
    pub open spec fn prefix_resolves(self, prefix: Seq<char>) -> bool {
        prefix == self.name || dict_get(self.aliases, prefix) is Some || self.requires.contains(
            prefix,
        )
    }

    /// The namespace that `alias` stands for: an alias's, else the text itself.
    pub open spec fn alias_target(self, alias: Seq<char>) -> Seq<char> {
        match dict_get(self.aliases, alias) {
            Some(ns) => ns,
            None => alias,
        }
    }
}

impl NsMeta {
    /// The metadata of a file that says nothing yet.
    pub fn empty(file: &str) -> (r: NsMeta)
        ensures
            r.deep_view() == NsMetaView::blank(file@),
    {
        let r = NsMeta {
            name: String::new(),
            file: file.to_owned(),
            aliases: Dict::new(),
            refers: Dict::new(),
            requires: Vec::new(),
            imports: Dict::new(),
            refer_all: Vec::new(),
            core_excludes: Vec::new(),
        };
        assert(strs(r.requires@) =~= Seq::empty());
        assert(strs(r.refer_all@) =~= Seq::empty());
        assert(strs(r.core_excludes@) =~= Seq::empty());
        r
    }

    /// Whether `prefix` means something in this file: its own namespace, an
    /// `:as` alias, or a required namespace (a plain `[clojure.set]` too).
    pub fn resolves_prefix(&self, prefix: &str) -> (r: bool)
        ensures
            r == self.deep_view().prefix_resolves(prefix@),
    {
        str_eq(prefix, self.name.as_str()) || self.aliases.contains_key(prefix) || contains_str(
            &self.requires,
            prefix,
        )
    }

    /// The namespace that `alias` stands for: an alias's, else the text itself.
    pub fn resolve_alias<'a>(&'a self, alias: &'a str) -> (r: &'a str)
        ensures
            r@ == self.deep_view().alias_target(alias@),
    {
        match self.aliases.get(alias) {
            Some(ns) => ns.as_str(),
            None => alias,
        }
    }
}

/// A name of the core library, with its arguments and documentation.
#[derive(Clone, Debug)]
pub struct CoreSymbol {
    pub name: String,
    pub params: String,
    pub doc: String,
}

/// What a [`CoreSymbol`] says.
pub ghost struct CoreSymbolView {
    pub name: Seq<char>,
    pub params: Seq<char>,
    pub doc: Seq<char>,
}

impl DeepView for CoreSymbol {
    type V = CoreSymbolView;

    open spec fn deep_view(&self) -> CoreSymbolView {
        CoreSymbolView { name: self.name@, params: self.params@, doc: self.doc@ }
    }
}

impl Copied for CoreSymbol {
    fn copied(&self) -> (r: Self) {
        CoreSymbol {
            name: self.name.clone(),
            params: self.params.clone(),
            doc: self.doc.clone(),
        }
    }
}

/// What extraction has to know besides the text.
#[derive(Clone, Debug)]
pub struct ExtractConfig {
    /// Macros that define names, and the kind of definition that each makes.
    pub lint_as: Dict<DefKind>,
    /// The names that every namespace has from the core library.
    pub core_names: Vec<String>,
}

/// What an [`ExtractConfig`] says.
pub ghost struct ExtractConfigView {
    pub lint_as: Seq<(Seq<char>, DefKind)>,
    pub core_names: Seq<Seq<char>>,
}

impl DeepView for ExtractConfig {
    type V = ExtractConfigView;

    open spec fn deep_view(&self) -> ExtractConfigView {
        ExtractConfigView {
            lint_as: self.lint_as.deep_view(),
            core_names: strs(self.core_names@),
        }
    }
}

impl Default for ExtractConfig {
    fn default() -> (r: Self)
        ensures
            r.deep_view() == (ExtractConfigView {
                lint_as: Seq::empty(),
                core_names: core_name_list(),
            }),
    {
        ExtractConfig { lint_as: Dict::new(), core_names: core_names() }
    }
}

}
