//! Syntax trees of Clojure source text.
//!
//! The parser's tree is read once, node by node, into [`Form`], which holds as
//! plain values what the rest of the library asks of a node: its kind, its text,
//! where it stands, its namespace, name, marker and prefix, and its named
//! children.

use vstd::prelude::*;
use crate::lsp::{Position, Range};
use crate::text::{cuts, get_slice, slice, str_eq, utf16_count, utf16_len};

verus! {

/// What the parser says of a node and of the nodes below it.
pub ghost struct RawNode {
    pub kind: Seq<char>,
    pub named: bool,
    pub start_byte: usize,
    pub end_byte: usize,
    /// Row and byte column of the start.
    pub start_point: (usize, usize),
    /// Row and byte column of the end.
    pub end_point: (usize, usize),
    /// The children, each with the field that the grammar gives it.
    pub children: Seq<(Option<Seq<char>>, RawNode)>,
}

/// `tree_sitter::Tree`, a parsed text.
#[verifier::external_type_specification]
#[verifier::external_body]
pub struct ExTree(tree_sitter::Tree);

/// `tree_sitter::Node`, a node of a parsed text.
#[verifier::external_type_specification]
#[verifier::external_body]
pub struct ExNode<'tree>(tree_sitter::Node<'tree>);

/// What `tree_sitter::Parser::parse` makes of a text under the Clojure grammar.
pub uninterp spec fn parsed(source: Seq<char>) -> Option<RawNode>;

/// The nodes that a `tree_sitter::Tree` holds, from its root.
pub uninterp spec fn tree_root(tree: tree_sitter::Tree) -> RawNode;

/// The nodes that a `tree_sitter::Node` holds: itself and those below it.
pub uninterp spec fn node_of(node: tree_sitter::Node) -> RawNode;

/// `tree_sitter::Parser::parse`, under the grammar `tree_sitter_clojure::LANGUAGE`
/// and without an older tree: the tree is a function of the text alone.
#[verifier::external_body]
fn ts_parse(source: &str) -> (r: Option<tree_sitter::Tree>)
    ensures
        r is Some <==> parsed(source@) is Some,
        r matches Some(t) ==> parsed(source@) == Some(tree_root(t)),
{
    let mut parser = tree_sitter::Parser::new();
    parser.set_language(&tree_sitter_clojure::LANGUAGE.into()).ok()?;
    parser.parse(source, None)
}

/// `tree_sitter::Tree::root_node`: the root of the tree.
#[verifier::external_body]
fn ts_root(tree: &tree_sitter::Tree) -> (r: tree_sitter::Node<'_>)
    ensures
        node_of(r) == tree_root(*tree),
{
    tree.root_node()
}

/// `tree_sitter::Node::kind`: the name of the node's kind in the grammar.
#[verifier::external_body]
fn ts_kind(node: &tree_sitter::Node) -> (r: &'static str)
    ensures
        r@ == node_of(*node).kind,
{
    node.kind()
}

/// `tree_sitter::Node::is_named`: whether the node is a named rule of the grammar.
#[verifier::external_body]
fn ts_is_named(node: &tree_sitter::Node) -> (r: bool)
    ensures
        r == node_of(*node).named,
{
    node.is_named()
}

/// `tree_sitter::Node::start_byte`: the byte offset of the node's start.
#[verifier::external_body]
fn ts_start_byte(node: &tree_sitter::Node) -> (r: usize)
    ensures
        r == node_of(*node).start_byte,
{
    node.start_byte()
}

/// `tree_sitter::Node::end_byte`: the byte offset of the node's end.
#[verifier::external_body]
fn ts_end_byte(node: &tree_sitter::Node) -> (r: usize)
    ensures
        r == node_of(*node).end_byte,
{
    node.end_byte()
}

/// `tree_sitter::Node::start_position`: row and byte column of the node's start.
#[verifier::external_body]
fn ts_start_point(node: &tree_sitter::Node) -> (r: (usize, usize))
    ensures
        r == node_of(*node).start_point,
{
    let p = node.start_position();
    (p.row, p.column)
}

/// `tree_sitter::Node::end_position`: row and byte column of the node's end.
#[verifier::external_body]
fn ts_end_point(node: &tree_sitter::Node) -> (r: (usize, usize))
    ensures
        r == node_of(*node).end_point,
{
    let p = node.end_position();
    (p.row, p.column)
}

/// `tree_sitter::Node::child_count`: how many children the node has.
#[verifier::external_body]
fn ts_child_count(node: &tree_sitter::Node) -> (r: usize)
    ensures
        r == node_of(*node).children.len(),
{
    node.child_count()
}

/// `tree_sitter::Node::child`: the child at an index below the count.
#[verifier::external_body]
fn ts_child<'a>(node: &tree_sitter::Node<'a>, i: usize) -> (r: Option<tree_sitter::Node<'a>>)
    requires
        i < node_of(*node).children.len(),
    ensures
        r is Some && node_of(r->0) == node_of(*node).children[i as int].1,
{
    node.child(i)
}

/// The first of the children from `i` on that the grammar gives the field `field`.
pub open spec fn first_with_field(
    children: Seq<(Option<Seq<char>>, RawNode)>,
    field: Seq<char>,
    i: nat,
) -> Option<RawNode>
    decreases children.len() - i,
{
    if i >= children.len() {
        None
    } else if children[i as int].0 == Some(field) {
        Some(children[i as int].1)
    } else {
        first_with_field(children, field, i + 1)
    }
}

/// `tree_sitter::Node::child_by_field_name`: the first child with the given field.
#[verifier::external_body]
fn ts_field<'a>(node: &tree_sitter::Node<'a>, field: &str) -> (r: Option<tree_sitter::Node<'a>>)
    ensures
        r is Some <==> first_with_field(node_of(*node).children, field@, 0) is Some,
        r matches Some(c) ==> first_with_field(node_of(*node).children, field@, 0) == Some(
            node_of(c),
        ),
{
    node.child_by_field_name(field)
}

/// The kinds of node that the library tells apart.
#[derive(Clone, Copy, Debug, PartialEq, Eq, Structural)]
pub enum Kind {
    Source,
    Comment,
    DisExpr,
    NumLit,
    KwdLit,
    StrLit,
    CharLit,
    RegexLit,
    SymLit,
    ListLit,
    MapLit,
    VecLit,
    ReadCondLit,
    SplicingReadCondLit,
    NsMapLit,
    QuotingLit,
    SynQuotingLit,
    MetaLit,
    OldMetaLit,
    Other,
}

/// The kind that the grammar calls `name`.
pub open spec fn kind_named(name: Seq<char>) -> Kind {
    if name == "sym_lit"@ {
        Kind::SymLit
    } else if name == "kwd_lit"@ {
        Kind::KwdLit
    } else if name == "list_lit"@ {
        Kind::ListLit
    } else if name == "vec_lit"@ {
        Kind::VecLit
    } else if name == "map_lit"@ {
        Kind::MapLit
    } else if name == "str_lit"@ {
        Kind::StrLit
    } else if name == "num_lit"@ {
        Kind::NumLit
    } else if name == "comment"@ {
        Kind::Comment
    } else if name == "dis_expr"@ {
        Kind::DisExpr
    } else if name == "char_lit"@ {
        Kind::CharLit
    } else if name == "regex_lit"@ {
        Kind::RegexLit
    } else if name == "read_cond_lit"@ {
        Kind::ReadCondLit
    } else if name == "splicing_read_cond_lit"@ {
        Kind::SplicingReadCondLit
    } else if name == "ns_map_lit"@ {
        Kind::NsMapLit
    } else if name == "quoting_lit"@ {
        Kind::QuotingLit
    } else if name == "syn_quoting_lit"@ {
        Kind::SynQuotingLit
    } else if name == "meta_lit"@ {
        Kind::MetaLit
    } else if name == "old_meta_lit"@ {
        Kind::OldMetaLit
    } else if name == "source"@ {
        Kind::Source
    } else {
        Kind::Other
    }
}

/// The kind that the grammar calls `name`.
fn kind_from(name: &str) -> (r: Kind)
    ensures
        r == kind_named(name@),
{
    if str_eq(name, "sym_lit") {
        Kind::SymLit
    } else if str_eq(name, "kwd_lit") {
        Kind::KwdLit
    } else if str_eq(name, "list_lit") {
        Kind::ListLit
    } else if str_eq(name, "vec_lit") {
        Kind::VecLit
    } else if str_eq(name, "map_lit") {
        Kind::MapLit
    } else if str_eq(name, "str_lit") {
        Kind::StrLit
    } else if str_eq(name, "num_lit") {
        Kind::NumLit
    } else if str_eq(name, "comment") {
        Kind::Comment
    } else if str_eq(name, "dis_expr") {
        Kind::DisExpr
    } else if str_eq(name, "char_lit") {
        Kind::CharLit
    } else if str_eq(name, "regex_lit") {
        Kind::RegexLit
    } else if str_eq(name, "read_cond_lit") {
        Kind::ReadCondLit
    } else if str_eq(name, "splicing_read_cond_lit") {
        Kind::SplicingReadCondLit
    } else if str_eq(name, "ns_map_lit") {
        Kind::NsMapLit
    } else if str_eq(name, "quoting_lit") {
        Kind::QuotingLit
    } else if str_eq(name, "syn_quoting_lit") {
        Kind::SynQuotingLit
    } else if str_eq(name, "meta_lit") {
        Kind::MetaLit
    } else if str_eq(name, "old_meta_lit") {
        Kind::OldMetaLit
    } else if str_eq(name, "source") {
        Kind::Source
    } else {
        Kind::Other
    }
}

/// A field of a node that holds one token: what it says and where it stands.
#[derive(Debug)]
pub struct Part {
    pub text: String,
    pub range: Range,
}

/// What a [`Part`] says.
pub ghost struct PartView {
    pub text: Seq<char>,
    pub range: Range,
}

impl DeepView for Part {
    type V = PartView;

    open spec fn deep_view(&self) -> PartView {
        PartView { text: self.text@, range: self.range }
    }
}

/// The prefix of a namespaced map (`#:a{…}`): its kind, and its name.
#[derive(Debug)]
pub struct Prefix {
    pub kind: Kind,
    pub name: Option<Part>,
}

/// What a [`Prefix`] says.
pub ghost struct PrefixView {
    pub kind: Kind,
    pub name: Option<PartView>,
}

impl DeepView for Prefix {
    type V = PrefixView;

    open spec fn deep_view(&self) -> PrefixView {
        PrefixView { kind: self.kind, name: self.name.deep_view() }
    }
}

/// A node of a syntax tree.
#[derive(Debug)]
pub struct Form {
    pub kind: Kind,
    pub text: String,
    pub range: Range,
    /// Byte offset of the start.
    pub start: usize,
    /// Byte offset of the end.
    pub end: usize,
    /// Byte column of the start.
    pub column: usize,
    pub namespace: Option<Part>,
    pub name: Option<Part>,
    pub marker: Option<Part>,
    pub prefix: Option<Prefix>,
    /// The named children.
    pub children: Vec<Form>,
}

/// What a [`Form`] says.
pub ghost struct FormView {
    pub kind: Kind,
    pub text: Seq<char>,
    pub range: Range,
    pub start: usize,
    pub end: usize,
    pub column: usize,
    pub namespace: Option<PartView>,
    pub name: Option<PartView>,
    pub marker: Option<PartView>,
    pub prefix: Option<PrefixView>,
    pub children: Seq<FormView>,
}

impl View for Form {
    type V = FormView;

    open spec fn view(&self) -> FormView
        decreases self,
    {
        FormView {
            kind: self.kind,
            text: self.text@,
            range: self.range,
            start: self.start,
            end: self.end,
            column: self.column,
            namespace: self.namespace.deep_view(),
            name: self.name.deep_view(),
            marker: self.marker.deep_view(),
            prefix: self.prefix.deep_view(),
            children: Seq::new(
                self.children@.len(),
                |i: int|
                    if 0 <= i < self.children@.len() {
                        self.children@[i].view()
                    } else {
                        arbitrary()
                    },
            ),
        }
    }
}

/// The text between two byte offsets of `source`; empty where they do not cut it.
pub open spec fn text_at(source: Seq<char>, from: usize, to: usize) -> Seq<char> {
    if cuts(source, from as int, to as int) {
        slice(source, from as int, to as int)
    } else {
        Seq::empty()
    }
}

/// Columns of the parser count bytes; those of the protocol count UTF-16 units.
/// The part of the line before `byte` is measured anew; where it is no part of
/// the text, the byte column stands.
pub open spec fn position_at(point: (usize, usize), byte: usize, source: Seq<char>) -> Position {
    let column = if point.1 <= byte && cuts(source, byte - point.1, byte as int) {
        utf16_len(slice(source, byte - point.1, byte as int)) as int
    } else {
        point.1 as int
    };
    Position { line: point.0 as u32, character: column as u32 }
}

/// Where `byte` stands, given the parser's row and column for it.
pub(crate) fn point_to_position(point: (usize, usize), byte: usize, source: &str) -> (r: Position)
    ensures
        r == position_at(point, byte, source@),
{
    let column: u32 = if point.1 <= byte {
        match get_slice(source, byte - point.1, byte) {
            Some(prefix) => utf16_count(prefix) as u32,
            None => point.1 as u32,
        }
    } else {
        point.1 as u32
    };
    Position { line: point.0 as u32, character: column }
}

/// Where `raw` stands in `source`.
pub open spec fn raw_range(raw: RawNode, source: Seq<char>) -> Range {
    Range {
        start: position_at(raw.start_point, raw.start_byte, source),
        end: position_at(raw.end_point, raw.end_byte, source),
    }
}

fn range_in(node: &tree_sitter::Node, source: &str) -> (r: Range)
    ensures
        r == raw_range(node_of(*node), source@),
{
    Range {
        start: point_to_position(ts_start_point(node), ts_start_byte(node), source),
        end: point_to_position(ts_end_point(node), ts_end_byte(node), source),
    }
}

fn text_in(node: &tree_sitter::Node, source: &str) -> (r: String)
    ensures
        r@ == text_at(source@, node_of(*node).start_byte, node_of(*node).end_byte),
{
    match get_slice(source, ts_start_byte(node), ts_end_byte(node)) {
        Some(t) => t.to_owned(),
        None => String::new(),
    }
}

/// The token that `raw` holds in the field `field`.
pub open spec fn raw_part(raw: RawNode, field: Seq<char>, source: Seq<char>) -> Option<PartView> {
    match first_with_field(raw.children, field, 0) {
        Some(p) => Some(
            PartView {
                text: text_at(source, p.start_byte, p.end_byte),
                range: raw_range(p, source),
            },
        ),
        None => None,
    }
}

fn part_in(node: &tree_sitter::Node, field: &str, source: &str) -> (r: Option<Part>)
    ensures
        r.deep_view() == raw_part(node_of(*node), field@, source@),
{
    match ts_field(node, field) {
        Some(p) => Some(Part { text: text_in(&p, source), range: range_in(&p, source) }),
        None => None,
    }
}

/// The prefix that `raw` holds.
pub open spec fn raw_prefix(raw: RawNode, source: Seq<char>) -> Option<PrefixView> {
    match first_with_field(raw.children, "prefix"@, 0) {
        Some(p) => Some(
            PrefixView { kind: kind_named(p.kind), name: raw_part(p, "name"@, source) },
        ),
        None => None,
    }
}

fn prefix_in(node: &tree_sitter::Node, source: &str) -> (r: Option<Prefix>)
    ensures
        r.deep_view() == raw_prefix(node_of(*node), source@),
{
    match ts_field(node, "prefix") {
        Some(p) => Some(
            Prefix { kind: kind_from(ts_kind(&p)), name: part_in(&p, "name", source) },
        ),
        None => None,
    }
}

/// The form that a node of the parser's tree stands for.
pub open spec fn lowered(raw: RawNode, source: Seq<char>) -> FormView
    decreases raw, raw.children.len() + 1,
{
    FormView {
        kind: kind_named(raw.kind),
        text: text_at(source, raw.start_byte, raw.end_byte),
        range: raw_range(raw, source),
        start: raw.start_byte,
        end: raw.end_byte,
        column: raw.start_point.1,
        namespace: raw_part(raw, "namespace"@, source),
        name: raw_part(raw, "name"@, source),
        marker: raw_part(raw, "marker"@, source),
        prefix: raw_prefix(raw, source),
        children: lowered_children(raw, raw.children.len(), source),
    }
}

/// The forms that the named ones of the first `n` children stand for.
pub open spec fn lowered_children(raw: RawNode, n: nat, source: Seq<char>) -> Seq<FormView>
    decreases raw, n,
{
    if n == 0 || n > raw.children.len() {
        Seq::empty()
    } else {
        let before = lowered_children(raw, (n - 1) as nat, source);
        let child = raw.children[n - 1].1;
        if child.named {
            before.push(lowered(child, source))
        } else {
            before
        }
    }
}

/// The views of `forms`.
pub open spec fn views(forms: Seq<Form>) -> Seq<FormView> {
    Seq::new(forms.len(), |i: int| forms[i]@)
}

/// The children in a form's view are the views of its children.
pub broadcast proof fn lemma_children(f: Form)
    ensures
        #[trigger] f@.children == views(f.children@),
{
    reveal_with_fuel(<Form as View>::view, 2);
    assert(f@.children =~= views(f.children@));
}

/// Reads the tree below `node` into a form.
fn lower(node: tree_sitter::Node, source: &str) -> (r: Form)
    ensures
        r@ == lowered(node_of(node), source@),
    decreases node_of(node),
{
    let ghost raw = node_of(node);
    let mut children: Vec<Form> = Vec::new();
    let n: usize = ts_child_count(&node);
    let mut i: usize = 0;
    while i < n
        invariant
            raw == node_of(node),
            n == raw.children.len(),
            i <= n,
            views(children@) == lowered_children(raw, i as nat, source@),
        decreases n - i,
    {
        if let Some(child) = ts_child(&node, i) {
            if ts_is_named(&child) {
                assert(decreases_to!(raw => raw.children[i as int].1));
                let ghost before = children@;
                children.push(lower(child, source));
                assert(views(children@) =~= views(before).push(
                    lowered(raw.children[i as int].1, source@),
                ));
            }
        }
        i += 1;
    }
    let r = Form {
        kind: kind_from(ts_kind(&node)),
        text: text_in(&node, source),
        range: range_in(&node, source),
        start: ts_start_byte(&node),
        end: ts_end_byte(&node),
        column: ts_start_point(&node).1,
        namespace: part_in(&node, "namespace", source),
        name: part_in(&node, "name", source),
        marker: part_in(&node, "marker", source),
        prefix: prefix_in(&node, source),
        children,
    };
    proof {
        lemma_children(r);
    }
    r
}

/// The syntax tree of `source`, `None` where the parser gives none.
pub open spec fn syntax_of(source: Seq<char>) -> Option<FormView> {
    match parsed(source) {
        Some(raw) => Some(lowered(raw, source)),
        None => None,
    }
}

/// Parses `source`.
pub fn parse_source(source: &str) -> (r: Option<Form>)
    ensures
        r is Some <==> syntax_of(source@) is Some,
        r matches Some(f) ==> syntax_of(source@) == Some(f@),
{
    match ts_parse(source) {
        Some(tree) => Some(lower(ts_root(&tree), source)),
        None => None,
    }
}

/// The form that is reached from `f` by the children at the given places.
pub open spec fn form_at(f: FormView, path: Seq<int>) -> Option<FormView>
    decreases path.len(),
{
    if path.len() == 0 {
        Some(f)
    } else if 0 <= path[0] < f.children.len() {
        form_at(f.children[path[0]], path.drop_first())
    } else {
        None
    }
}

/// A path through a child is a path of the form.
pub proof fn lemma_path_through(f: FormView, i: int, path: Seq<int>)
    requires
        0 <= i < f.children.len(),
    ensures
        form_at(f, seq![i] + path) == form_at(f.children[i], path),
{
    assert((seq![i] + path).drop_first() =~= path);
}

}
