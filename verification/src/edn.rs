//! EDN values, as configuration files hold them.

use vstd::prelude::*;
use crate::chars::{
    alphanumeric, ascii_digit, is_alphanumeric, is_ascii_digit, is_numeric, is_whitespace, numeric,
    white_space,
};
use crate::collect::{push_str, strs};
use crate::text::{chars_of, matches_at, stands_at, str_eq};

verus! {

/// An EDN value. What no configuration is read from is not told apart.
#[derive(Debug)]
pub enum Edn {
    Text(String),
    Symbol(Name),
    Keyword(Name),
    Vector(Vec<Edn>),
    /// The entries, in the order of their keys.
    Table(Vec<(Edn, Edn)>),
    Other,
}

/// The name of a symbol or keyword.
#[derive(Clone, Debug, PartialEq, Eq)]
pub struct Name {
    pub namespace: Option<String>,
    pub name: String,
}

/// What a [`Name`] says.
pub ghost struct NameView {
    pub namespace: Option<Seq<char>>,
    pub name: Seq<char>,
}

impl DeepView for Name {
    type V = NameView;

    open spec fn deep_view(&self) -> NameView {
        NameView { namespace: self.namespace.deep_view(), name: self.name@ }
    }
}

/// What an [`Edn`] says.
pub ghost enum EdnView {
    Text(Seq<char>),
    Symbol(NameView),
    Keyword(NameView),
    Vector(Seq<EdnView>),
    Table(Seq<(EdnView, EdnView)>),
    Other,
}

impl View for Edn {
    type V = EdnView;

    open spec fn view(&self) -> EdnView
        decreases self,
    {
        match self {
            Edn::Text(s) => EdnView::Text(s@),
            Edn::Symbol(n) => EdnView::Symbol(n.deep_view()),
            Edn::Keyword(n) => EdnView::Keyword(n.deep_view()),
            Edn::Vector(items) => EdnView::Vector(
                Seq::new(
                    items@.len(),
                    |i: int|
                        if 0 <= i < items@.len() {
                            items@[i].view()
                        } else {
                            arbitrary()
                        },
                ),
            ),
            Edn::Table(entries) => EdnView::Table(
                Seq::new(
                    entries@.len(),
                    |i: int|
                        if 0 <= i < entries@.len() {
                            (entries@[i].0.view(), entries@[i].1.view())
                        } else {
                            arbitrary()
                        },
                ),
            ),
            Edn::Other => EdnView::Other,
        }
    }
}

/// What the values of a vector say.
pub open spec fn views(items: Seq<Edn>) -> Seq<EdnView> {
    items.map_values(|x: Edn| x@)
}

/// What the entries of a map say.
pub open spec fn entry_views(entries: Seq<(Edn, Edn)>) -> Seq<(EdnView, EdnView)> {
    entries.map_values(|e: (Edn, Edn)| (e.0@, e.1@))
}

/// A vector says what its items say, and a map what its entries do.
pub broadcast proof fn lemma_edn(v: Edn)
    ensures
        (#[trigger] v@) == (match v {
            Edn::Text(s) => EdnView::Text(s@),
            Edn::Symbol(n) => EdnView::Symbol(n.deep_view()),
            Edn::Keyword(n) => EdnView::Keyword(n.deep_view()),
            Edn::Vector(items) => EdnView::Vector(views(items@)),
            Edn::Table(entries) => EdnView::Table(entry_views(entries@)),
            Edn::Other => EdnView::Other,
        }),
{
    reveal_with_fuel(<Edn as View>::view, 2);
    match v {
        Edn::Vector(items) => {
            assert(v@->Vector_0 =~= views(items@));
        },
        Edn::Table(entries) => {
            assert(v@->Table_0 =~= entry_views(entries@));
        },
        _ => {},
    }
}

/// `edn_format::Value`, a parsed value.
#[verifier::external_type_specification]
#[verifier::external_body]
pub struct ExValue(edn_format::Value);

/// What `edn_format::parse_str` makes of a text; `None` where it is an error.
pub uninterp spec fn parsed_edn(text: Seq<char>) -> Option<EdnView>;

/// The value that an `edn_format::Value` holds, with those inside it.
pub uninterp spec fn edn_of(v: edn_format::Value) -> EdnView;

/// How many bytes a character takes.
pub open spec fn byte_width(c: char) -> nat {
    let n = c as u32;
    if n < 0x80 {
        1
    } else if n < 0x800 {
        2
    } else if n < 0x10000 {
        3
    } else {
        4
    }
}

/// Whether no character from `i` on lies across the end of the next `n` bytes.
pub open spec fn cuts_clean(text: Seq<char>, i: nat, n: nat) -> bool
    decreases n,
{
    if n == 0 || i >= text.len() {
        true
    } else {
        let w = byte_width(text[i as int]);
        w <= n && cuts_clean(text, i + 1, (n - w) as nat)
    }
}

/// The digits of the largest power of ten that can be written out on every machine.
/// `bigdecimal` compares two decimals by writing out the power of ten by which their scales
/// are apart. One of more digits takes over two gigabytes, more than fit in one piece where
/// addresses have 32 bits.
pub const MAX_POWER: i64 = 5_000_000_000;

/// Where the first `e` or `E` from `i` on stands.
pub open spec fn mark_from(atom: Seq<char>, i: nat) -> Option<nat>
    decreases atom.len() - i,
{
    if i >= atom.len() {
        None
    } else if atom[i as int] == 'e' || atom[i as int] == 'E' {
        Some(i)
    } else {
        mark_from(atom, i + 1)
    }
}

/// `i`, or what follows where one of the two characters stands there.
pub open spec fn behind_sign(atom: Seq<char>, i: nat, sign: char, other: char) -> nat {
    if i < atom.len() && (atom[i as int] == sign || atom[i as int] == other) {
        i + 1
    } else {
        i
    }
}

/// The number that the digits from `i` up to `n` write.
pub open spec fn number_in(atom: Seq<char>, i: nat, n: nat) -> nat
    decreases n,
{
    if n <= i {
        0
    } else {
        number_in(atom, i, (n - 1) as nat) * 10 + (atom[n - 1] as nat - '0' as nat) as nat
    }
}

/// The whole number that stands from `i` up to the end of a decimal, where it has a digit, is
/// made of digits and fits in 64 bits; a sign may come first.
pub open spec fn whole_from(atom: Seq<char>, i: nat) -> Option<int> {
    let first = behind_sign(atom, i, '+', '-');
    let end = (atom.len() - 1) as nat;
    let n = number_in(atom, first, end);
    let value = if first > i && atom[i as int] == '-' {
        -(n as int)
    } else {
        n as int
    };
    if first < end && (forall|k: int| first <= k < end ==> ascii_digit(#[trigger] atom[k]))
        && i64::MIN <= value <= i64::MAX {
        Some(value)
    } else {
        None
    }
}

/// The exponent of a decimal; `None` where what stands there is none.
pub open spec fn exponent_of(atom: Seq<char>) -> Option<int> {
    match mark_from(atom, 0) {
        Some(e) => whole_from(atom, behind_sign(atom, e + 1, '+', '+')),
        None => Some(0),
    }
}

/// Where the digits of a decimal end: at the mark of its exponent, or at the `M`.
pub open spec fn digits_end(atom: Seq<char>) -> nat {
    match mark_from(atom, 0) {
        Some(e) => e,
        None => (atom.len() - 1) as nat,
    }
}

/// How many bytes the characters from `i` up to `n` take.
pub open spec fn bytes_in(atom: Seq<char>, i: nat, n: nat) -> nat
    decreases n - i,
{
    if i >= n {
        0
    } else {
        byte_width(atom[i as int]) + bytes_in(atom, i + 1, n)
    }
}

/// How many bytes follow the first `.` from `i` on, up to `n`.
pub open spec fn fraction_from(atom: Seq<char>, i: nat, n: nat) -> nat
    decreases n - i,
{
    if i >= n {
        0
    } else if atom[i as int] == '.' {
        bytes_in(atom, i + 1, n)
    } else {
        fraction_from(atom, i + 1, n)
    }
}

/// Whether an atom reads as a number.
pub open spec fn reads_as_number(atom: Seq<char>) -> bool {
    atom.len() > 0 && (numeric(atom[0]) || ((atom[0] == '+' || atom[0] == '-') && atom.len() > 1
        && numeric(atom[1])))
}

/// Whether an atom is a decimal, which ends in `M`.
pub open spec fn is_decimal(atom: Seq<char>) -> bool {
    &&& reads_as_number(atom)
    &&& atom.last() == 'M'
    &&& forall|k: int|
        0 <= k < atom.len() - 1 ==> #[trigger] atom[k] != 'M' && atom[k] != '/' && atom[k] != ':'
}

/// The power of ten by which a decimal divides its digits, where it has an exponent that
/// is one.
pub open spec fn scale_of(atom: Seq<char>) -> Option<int> {
    if !is_decimal(atom) {
        None
    } else {
        match exponent_of(atom) {
            Some(e) => Some(fraction_from(atom, 0, digits_end(atom)) - e),
            None => None,
        }
    }
}

/// Whether an atom is a decimal with a scale that does not fit in 64 bits.
pub open spec fn oversized(atom: Seq<char>) -> bool {
    scale_of(atom) matches Some(scale) && scale > i64::MAX
}

/// The scale of the decimal that an atom is; nothing where it is none.
pub open spec fn scales_in(atom: Seq<char>) -> Seq<i64> {
    match scale_of(atom) {
        Some(scale) => if scale <= i64::MAX {
            seq![scale as i64]
        } else {
            seq![]
        },
        None => seq![],
    }
}

/// Whether the first scale is above the second by a power of ten too large to write out.
pub open spec fn far_apart(a: i64, b: i64) -> bool {
    a - b > MAX_POWER
}

/// Whether two of the scales are too far apart.
pub open spec fn any_far_apart(all: Seq<i64>) -> bool {
    exists|i: int, j: int|
        0 <= i < all.len() && 0 <= j < all.len() && far_apart(#[trigger] all[i], #[trigger] all[j])
}

/// Whether a character parts two forms.
pub open spec fn parts_forms(c: char) -> bool {
    white_space(c) || c == ','
}

/// Whether a character can stand in an atom.
pub open spec fn in_atom(c: char) -> bool {
    alphanumeric(c) || c == '.' || c == '*' || c == '+' || c == '!' || c == '-' || c == '_' || c
        == '?' || c == '$' || c == '%' || c == '&' || c == '=' || c == '<' || c == '>' || c == '/'
        || c == ':'
}

/// What a reader is in the middle of.
#[derive(Clone, Copy, Debug, PartialEq, Eq, Structural)]
pub enum Stage {
    /// Between two forms.
    Between,
    /// Behind a `#`.
    Dispatch,
    /// Behind the `\\` of a character.
    Character,
    /// Inside a string.
    Quoted,
    /// Inside an atom: a symbol, a keyword or a number.
    Atom,
}

/// A collection whose end has not been read, or the text itself.
pub ghost struct Frame {
    /// What closes the collection.
    pub closing: char,
    /// Whether it is a map, in which every other form is a key.
    pub map: bool,
    /// Whether the next form is compared with others: a key of a map or an element of a set.
    pub key: bool,
    /// The forms that are to come before the next element is read. What is discarded is
    /// one, and so is a tag.
    pub owed: nat,
    /// The scales of the decimals in what is compared.
    pub keys: Seq<i64>,
    /// The scales of the decimals in all that the collection holds.
    pub held: Seq<i64>,
}

impl Frame {
    /// The collection behind an element that holds decimals of these scales.
    pub open spec fn with_element(self, scales: Seq<i64>) -> Frame {
        Frame {
            key: if self.map {
                !self.key
            } else {
                self.key
            },
            keys: if self.key {
                self.keys + scales
            } else {
                self.keys
            },
            held: self.held + scales,
            ..self
        }
    }

    /// Whether a character closes the collection: no form is owed, and no value of a map.
    pub open spec fn closes(self, c: char) -> bool {
        self.closing == c && self.owed <= 1 && (self.map ==> self.key)
    }
}

/// A collection of which nothing has been read.
pub open spec fn opened(closing: char, map: bool, key: bool) -> Frame {
    Frame { closing, map, key, owed: 1, keys: seq![], held: seq![] }
}

/// How far a text has been read.
pub ghost struct Reading {
    pub stage: Stage,
    /// What has been read of an atom.
    pub atom: Seq<char>,
    /// The text, and the collections that are still to close, the innermost last.
    pub open: Seq<Frame>,
}

/// What follows the line that `i` stands in.
pub open spec fn behind_line(text: Seq<char>, i: nat) -> nat
    decreases text.len() - i,
{
    if i >= text.len() {
        text.len()
    } else if text[i as int] == '\n' {
        i + 1
    } else {
        behind_line(text, i + 1)
    }
}

/// `i`, or what follows where a comment stands there.
pub open spec fn behind_comment(text: Seq<char>, i: nat) -> nat {
    if i < text.len() && text[i as int] == ';' {
        behind_line(text, i)
    } else {
        i
    }
}

/// How many characters stand for the one that a literal names at `i`.
pub open spec fn literal_len(text: Seq<char>, i: nat) -> nat {
    if stands_at(text, "newline"@, i as int) {
        7
    } else if stands_at(text, "return"@, i as int) {
        6
    } else if stands_at(text, "space"@, i as int) {
        5
    } else if stands_at(text, "tab"@, i as int) {
        3
    } else if i + 5 <= text.len() && text[i as int] == 'u' {
        5
    } else {
        1
    }
}

/// What closes what a character opens.
pub open spec fn closer(c: char) -> Option<char> {
    if c == '(' {
        Some(')')
    } else if c == '[' {
        Some(']')
    } else if c == '{' {
        Some('}')
    } else {
        None
    }
}

/// The reading behind the end of a form that holds decimals of these scales; nothing where
/// it was the last.
pub open spec fn form_done(s: Reading, scales: Seq<i64>) -> Option<Reading> {
    let around = s.open.drop_last();
    let f = s.open.last();
    if f.owed > 1 {
        let owed = (f.owed - 1) as nat;
        Some(Reading { stage: Stage::Between, open: around.push(Frame { owed, ..f }), ..s })
    } else if s.open.len() <= 1 {
        None
    } else {
        Some(Reading { stage: Stage::Between, open: around.push(f.with_element(scales)), ..s })
    }
}

/// Where the reading goes on behind a form that ends at `j`.
pub open spec fn behind_form(j: nat, s: Reading, scales: Seq<i64>) -> Option<(nat, Reading)> {
    match form_done(s, scales) {
        Some(t) => Some((j, t)),
        None => None,
    }
}

/// `s` where one more form comes before the next element.
pub open spec fn with_form(s: Reading) -> Reading {
    let f = s.open.last();
    Reading {
        stage: Stage::Between,
        open: s.open.drop_last().push(Frame { owed: f.owed + 1, ..f }),
        ..s
    }
}

/// `s` at the start of a collection.
pub open spec fn inside(s: Reading, f: Frame) -> Reading {
    Reading { stage: Stage::Between, open: s.open.push(f), ..s }
}

/// Whether a character closes the innermost collection.
pub open spec fn closes_one(s: Reading, c: char) -> bool {
    s.open.len() > 1 && s.open.last().closes(c)
}

/// Where the reading goes on behind the character at `k`; nowhere behind the value or at
/// an error.
pub open spec fn read_on(text: Seq<char>, k: nat, s: Reading) -> Option<(nat, Reading)> {
    if k >= text.len() {
        None
    } else {
        let c = text[k as int];
        match s.stage {
            Stage::Between => if c == ';' {
                Some((k, s))
            } else if parts_forms(c) {
                Some((k + 1, s))
            } else if closer(c) is Some {
                Some((k + 1, inside(s, opened(closer(c)->0, c == '{', c == '{'))))
            } else if c == ')' || c == ']' || c == '}' {
                if closes_one(s, c) {
                    behind_form(
                        k + 1,
                        Reading { open: s.open.drop_last(), ..s },
                        s.open.last().held,
                    )
                } else {
                    None
                }
            } else if c == '"' {
                Some((k + 1, Reading { stage: Stage::Quoted, ..s }))
            } else if c == '\\' {
                Some((k + 1, Reading { stage: Stage::Character, ..s }))
            } else if c == '#' {
                Some((k + 1, Reading { stage: Stage::Dispatch, ..s }))
            } else if in_atom(c) {
                Some((k + 1, Reading { stage: Stage::Atom, atom: seq![c], ..s }))
            } else {
                None
            },
            Stage::Dispatch => if c == '_' {
                Some((k + 1, with_form(s)))
            } else if c == '{' {
                Some((k + 1, inside(s, opened('}', false, true))))
            } else {
                Some((k, with_form(s)))
            },
            Stage::Character => behind_form(k + literal_len(text, k), s, seq![]),
            Stage::Quoted => if c == '"' {
                behind_form(k + 1, s, seq![])
            } else if c == '\\' {
                if k + 2 <= text.len() {
                    Some((k + 2, s))
                } else {
                    None
                }
            } else {
                Some((k + 1, s))
            },
            Stage::Atom => if in_atom(c) {
                Some((k + 1, Reading { atom: s.atom.push(c), ..s }))
            } else {
                behind_form(k, s, scales_in(s.atom))
            },
        }
    }
}

/// Whether `edn_format::parse_str` may fail at `k` otherwise than by an error: at a character
/// literal `\u` whose four bytes are no whole characters, behind a decimal whose scale does
/// not fit, and at the end of a map or set in whose keys or elements two decimals are too
/// far apart.
pub open spec fn harms(text: Seq<char>, k: nat, s: Reading) -> bool {
    match s.stage {
        Stage::Between => k < text.len() && closes_one(s, text[k as int]) && any_far_apart(
            s.open.last().keys,
        ),
        Stage::Character => k < text.len() && text[k as int] == 'u' && !cuts_clean(text, k + 1, 4),
        Stage::Atom => !(k < text.len() && in_atom(text[k as int])) && oversized(s.atom),
        _ => false,
    }
}

/// What the reader looks at: a comment is passed over first, everywhere but in a string.
pub open spec fn looked_at(text: Seq<char>, i: nat, s: Reading) -> nat {
    if s.stage == Stage::Quoted {
        i
    } else {
        behind_comment(text, i)
    }
}

/// Whether a stage can end without a character's being read.
pub open spec fn rank(stage: Stage) -> nat {
    if stage == Stage::Between {
        0
    } else {
        1
    }
}

/// Whether nothing that is read from `i` on makes `edn_format::parse_str` fail.
pub open spec fn harmless_from(text: Seq<char>, i: nat, s: Reading) -> bool
    decreases text.len() - i, rank(s.stage),
{
    let k = looked_at(text, i, s);
    !harms(text, k, s) && match read_on(text, k, s) {
        Some((j, t)) => if i < j <= text.len() || (i == j <= text.len() && rank(t.stage) < rank(
            s.stage,
        )) {
            harmless_from(text, j, t)
        } else {
            true
        },
        None => true,
    }
}

/// A reader before the first character. Nothing closes the text itself.
pub open spec fn unread() -> Reading {
    Reading { stage: Stage::Between, atom: seq![], open: seq![opened(' ', false, false)] }
}

/// Whether `edn_format::parse_str` reads the first value of the text, or finds an error,
/// without failing otherwise. What follows the value is not read. What follows an error
/// inside an atom or a literal counts as read, and any two decimals in the keys of a map or
/// the elements of a set count as compared.
pub open spec fn readable(text: Seq<char>) -> bool {
    harmless_from(text, 0, unread())
}

fn width(c: char) -> (r: usize)
    ensures
        r == byte_width(c),
{
    let n: u32 = c as u32;
    if n < 0x80 {
        1
    } else if n < 0x800 {
        2
    } else if n < 0x10000 {
        3
    } else {
        4
    }
}

fn does_cut_clean(text: &[char], from: usize) -> (r: bool)
    requires
        from <= text@.len(),
    ensures
        r == cuts_clean(text@, from as nat, 4),
{
    let mut left: usize = 4;
    let mut i: usize = from;
    while left > 0 && i < text.len()
        invariant
            from <= i <= text@.len(),
            left <= 4,
            cuts_clean(text@, from as nat, 4) == cuts_clean(text@, i as nat, left as nat),
        decreases text@.len() - i,
    {
        let w: usize = width(text[i]);
        if w > left {
            return false;
        }
        left -= w;
        i += 1;
    }
    true
}

fn find_mark(atom: &[char]) -> (r: Option<usize>)
    ensures
        match r {
            Some(e) => {
                &&& mark_from(atom@, 0) == Some(e as nat)
                &&& e < atom@.len()
                &&& atom@[e as int] == 'e' || atom@[e as int] == 'E'
            },
            None => mark_from(atom@, 0) is None,
        },
{
    let mut i: usize = 0;
    while i < atom.len()
        invariant
            i <= atom@.len(),
            mark_from(atom@, 0) == mark_from(atom@, i as nat),
        decreases atom@.len() - i,
    {
        if atom[i] == 'e' || atom[i] == 'E' {
            return Some(i);
        }
        i += 1;
    }
    None
}

fn skip_sign(atom: &[char], i: usize, sign: char, other: char) -> (r: usize)
    requires
        i <= atom@.len(),
    ensures
        r == behind_sign(atom@, i as nat, sign, other),
        i <= r <= atom@.len(),
{
    if i < atom.len() && (atom[i] == sign || atom[i] == other) {
        i + 1
    } else {
        i
    }
}

fn decimal(atom: &[char]) -> (r: bool)
    ensures
        r == is_decimal(atom@),
{
    let len: usize = atom.len();
    if len == 0 || atom[len - 1] != 'M' {
        return false;
    }
    let number = is_numeric(atom[0]) || ((atom[0] == '+' || atom[0] == '-') && len > 1
        && is_numeric(atom[1]));
    if !number {
        return false;
    }
    let mut k: usize = 0;
    while k < len - 1
        invariant
            k < len == atom@.len(),
            forall|m: int|
                0 <= m < k ==> #[trigger] atom@[m] != 'M' && atom@[m] != '/' && atom@[m] != ':',
        decreases len - k,
    {
        if atom[k] == 'M' || atom[k] == '/' || atom[k] == ':' {
            return false;
        }
        k += 1;
    }
    true
}

proof fn lemma_number_grows(atom: Seq<char>, i: nat, m: nat, n: nat)
    requires
        m <= n,
    ensures
        number_in(atom, i, m) <= number_in(atom, i, n),
    decreases n,
{
    if m < n {
        lemma_number_grows(atom, i, m, (n - 1) as nat);
    }
}

fn read_whole(atom: &[char], i: usize) -> (r: Option<i64>)
    requires
        i < atom@.len(),
        atom@.last() == 'M',
    ensures
        match r {
            Some(e) => whole_from(atom@, i as nat) == Some(e as int),
            None => whole_from(atom@, i as nat) is None,
        },
{
    let end: usize = atom.len() - 1;
    let first: usize = skip_sign(atom, i, '+', '-');
    if first >= end {
        return None;
    }
    let mut n: i128 = 0;
    let mut k: usize = first;
    while k < end
        invariant
            i <= first <= k <= end == atom@.len() - 1,
            first == behind_sign(atom@, i as nat, '+', '-'),
            n == number_in(atom@, first as nat, k as nat),
            0 <= n <= 0x8000_0000_0000_0000,
            forall|m: int| first <= m < k ==> ascii_digit(#[trigger] atom@[m]),
        decreases end - k,
    {
        if !is_ascii_digit(atom[k]) {
            assert(!ascii_digit(atom@[k as int]));
            return None;
        }
        n = n * 10 + (atom[k] as i128 - '0' as i128);
        k += 1;
        if n > 0x8000_0000_0000_0000 {
            proof {
                lemma_number_grows(atom@, first as nat, k as nat, end as nat);
            }
            return None;
        }
    }
    let value: i128 = if first > i && atom[i] == '-' {
        -n
    } else {
        n
    };
    if value > i64::MAX as i128 {
        None
    } else {
        Some(value as i64)
    }
}

fn count_bytes(atom: &[char], i: usize, n: usize) -> (r: i128)
    requires
        i <= n <= atom@.len(),
    ensures
        r == bytes_in(atom@, i as nat, n as nat),
        0 <= r <= 4 * (n - i),
{
    let mut sum: i128 = 0;
    let mut k: usize = i;
    while k < n
        invariant
            i <= k <= n <= atom@.len(),
            0 <= sum <= 4 * (k - i),
            bytes_in(atom@, i as nat, n as nat) == sum + bytes_in(atom@, k as nat, n as nat),
        decreases n - k,
    {
        let w: usize = width(atom[k]);
        sum += w as i128;
        k += 1;
    }
    sum
}

fn count_fraction(atom: &[char], n: usize) -> (r: i128)
    requires
        n <= atom@.len(),
    ensures
        r == fraction_from(atom@, 0, n as nat),
        0 <= r <= 4 * n,
{
    let mut i: usize = 0;
    while i < n
        invariant
            i <= n <= atom@.len(),
            fraction_from(atom@, 0, n as nat) == fraction_from(atom@, i as nat, n as nat),
        decreases n - i,
    {
        if atom[i] == '.' {
            return count_bytes(atom, i + 1, n);
        }
        i += 1;
    }
    0
}

fn measure_scale(atom: &[char]) -> (r: Option<i128>)
    ensures
        match r {
            Some(scale) => scale_of(atom@) == Some(scale as int) && scale >= i64::MIN,
            None => scale_of(atom@) is None,
        },
{
    if !decimal(atom) {
        return None;
    }
    let len: usize = atom.len();
    match find_mark(atom) {
        Some(e) => {
            assert(e < len - 1);
            let i: usize = skip_sign(atom, e + 1, '+', '+');
            match read_whole(atom, i) {
                Some(exponent) => Some(count_fraction(atom, e) - exponent as i128),
                None => None,
            }
        },
        None => Some(count_fraction(atom, len - 1)),
    }
}

fn is_oversized(atom: &[char]) -> (r: bool)
    ensures
        r == oversized(atom@),
{
    match measure_scale(atom) {
        Some(scale) => scale > i64::MAX as i128,
        None => false,
    }
}

fn find_scales(atom: &[char]) -> (r: Vec<i64>)
    ensures
        r@ == scales_in(atom@),
{
    let mut out: Vec<i64> = Vec::new();
    if let Some(scale) = measure_scale(atom) {
        if scale <= i64::MAX as i128 {
            out.push(scale as i64);
        }
    }
    assert(out@ =~= scales_in(atom@));
    out
}

fn find_far_apart(all: &[i64]) -> (r: bool)
    ensures
        r == any_far_apart(all@),
{
    let mut i: usize = 0;
    while i < all.len()
        invariant
            i <= all@.len(),
            forall|m: int, n: int|
                0 <= m < i && 0 <= n < all@.len() ==> !far_apart(
                    #[trigger] all@[m],
                    #[trigger] all@[n],
                ),
        decreases all@.len() - i,
    {
        let mut j: usize = 0;
        while j < all.len()
            invariant
                i < all@.len(),
                j <= all@.len(),
                forall|n: int| 0 <= n < j ==> !far_apart(all@[i as int], #[trigger] all@[n]),
            decreases all@.len() - j,
        {
            if all[i] as i128 - all[j] as i128 > MAX_POWER as i128 {
                assert(far_apart(all@[i as int], all@[j as int]));
                return true;
            }
            j += 1;
        }
        i += 1;
    }
    false
}

fn is_in_atom(c: char) -> (r: bool)
    ensures
        r == in_atom(c),
{
    is_alphanumeric(c) || c == '.' || c == '*' || c == '+' || c == '!' || c == '-' || c == '_' || c
        == '?' || c == '$' || c == '%' || c == '&' || c == '=' || c == '<' || c == '>' || c == '/'
        || c == ':'
}

fn skip_line(text: &[char], from: usize) -> (r: usize)
    requires
        from <= text@.len(),
    ensures
        r == behind_line(text@, from as nat),
        from <= r <= text@.len(),
        from < text@.len() ==> from < r,
{
    let mut i: usize = from;
    while i < text.len()
        invariant
            from <= i <= text@.len(),
            behind_line(text@, from as nat) == behind_line(text@, i as nat),
        decreases text@.len() - i,
    {
        if text[i] == '\n' {
            return i + 1;
        }
        i += 1;
    }
    i
}

fn measure_literal(text: &[char], i: usize) -> (r: usize)
    requires
        i < text@.len(),
    ensures
        r == literal_len(text@, i as nat),
        0 < r <= text@.len() - i,
{
    proof {
        reveal_strlit("newline");
        reveal_strlit("return");
        reveal_strlit("space");
        reveal_strlit("tab");
    }
    if matches_at(text, &chars_of("newline"), i) {
        7
    } else if matches_at(text, &chars_of("return"), i) {
        6
    } else if matches_at(text, &chars_of("space"), i) {
        5
    } else if matches_at(text, &chars_of("tab"), i) {
        3
    } else if text.len() - i >= 5 && text[i] == 'u' {
        5
    } else {
        1
    }
}

/// A collection that is being read.
struct Opened {
    closing: char,
    map: bool,
    key: bool,
    owed: usize,
    keys: Vec<i64>,
    held: Vec<i64>,
}

impl View for Opened {
    type V = Frame;

    closed spec fn view(&self) -> Frame {
        Frame {
            closing: self.closing,
            map: self.map,
            key: self.key,
            owed: self.owed as nat,
            keys: self.keys@,
            held: self.held@,
        }
    }
}

impl Opened {
    fn new(closing: char, map: bool, key: bool) -> (r: Self)
        ensures
            r@ == opened(closing, map, key),
    {
        let r = Opened { closing, map, key, owed: 1, keys: Vec::new(), held: Vec::new() };
        assert(r.keys@ =~= seq![] && r.held@ =~= seq![]);
        r
    }

    fn add(&mut self, scales: &[i64])
        ensures
            final(self)@ == old(self)@.with_element(scales@),
    {
        if self.key {
            add_all(&mut self.keys, scales);
        }
        add_all(&mut self.held, scales);
        if self.map {
            self.key = !self.key;
        }
    }
}

fn add_all(out: &mut Vec<i64>, scales: &[i64])
    ensures
        final(out)@ == old(out)@ + scales@,
{
    let ghost before = out@;
    let mut i: usize = 0;
    while i < scales.len()
        invariant
            i <= scales@.len(),
            out@ =~= before + scales@.take(i as int),
        decreases scales@.len() - i,
    {
        out.push(scales[i]);
        i += 1;
    }
    assert(scales@.take(i as int) =~= scales@);
}

/// A reader of a text that goes by its characters alone.
struct Reader {
    stage: Stage,
    atom: Vec<char>,
    open: Vec<Opened>,
}

impl View for Reader {
    type V = Reading;

    closed spec fn view(&self) -> Reading {
        Reading {
            stage: self.stage,
            atom: self.atom@,
            open: self.open@.map_values(|f: Opened| f@),
        }
    }
}

impl Reader {
    fn take(&mut self) -> (r: Opened)
        requires
            old(self)@.open.len() > 0,
        ensures
            r@ == old(self)@.open.last(),
            final(self)@ == (Reading { open: old(self)@.open.drop_last(), ..old(self)@ }),
    {
        let r = self.open.pop().unwrap();
        assert(self@.open =~= old(self)@.open.drop_last());
        r
    }

    fn put(&mut self, f: Opened)
        ensures
            final(self)@ == (Reading { open: old(self)@.open.push(f@), ..old(self)@ }),
    {
        self.open.push(f);
        assert(self@.open =~= old(self)@.open.push(f@));
    }

    fn end_form(&mut self, scales: &[i64]) -> (r: bool)
        requires
            old(self)@.open.len() > 0,
        ensures
            match form_done(old(self)@, scales@) {
                Some(t) => r && final(self)@ == t,
                None => !r,
            },
    {
        let alone = self.open.len() <= 1;
        let mut f = self.take();
        self.stage = Stage::Between;
        if f.owed > 1 {
            f.owed -= 1;
        } else if alone {
            return false;
        } else {
            f.add(scales);
        }
        self.put(f);
        true
    }

    fn add_form(&mut self)
        requires
            old(self)@.open.len() > 0,
            old(self)@.open.last().owed < usize::MAX,
        ensures
            final(self)@ == with_form(old(self)@),
    {
        let mut f = self.take();
        f.owed += 1;
        self.stage = Stage::Between;
        self.put(f);
    }

    fn start(&mut self, stage: Stage)
        ensures
            final(self)@ == (Reading { stage, ..old(self)@ }),
    {
        self.stage = stage;
    }

    fn enter(&mut self, closing: char, map: bool, key: bool)
        ensures
            final(self)@ == inside(old(self)@, opened(closing, map, key)),
    {
        self.stage = Stage::Between;
        self.put(Opened::new(closing, map, key));
    }

    fn closes(&self, c: char) -> (r: bool)
        ensures
            r == closes_one(self@, c),
    {
        let n: usize = self.open.len();
        if n <= 1 {
            return false;
        }
        let f = &self.open[n - 1];
        assert(f@ == self@.open.last());
        f.closing == c && f.owed <= 1 && (!f.map || f.key)
    }

    fn leave(&mut self, closing: char) -> (r: bool)
        requires
            old(self)@.stage == Stage::Between,
        ensures
            match form_done(
                (Reading { open: old(self)@.open.drop_last(), ..old(self)@ }),
                old(self)@.open.last().held,
            ) {
                Some(t) => if closes_one(old(self)@, closing) {
                    r && final(self)@ == t
                } else {
                    !r
                },
                None => !r,
            },
    {
        if !self.closes(closing) {
            return false;
        }
        let f = self.take();
        self.end_form(&f.held)
    }

    fn between(&mut self, c: char, k: usize) -> (r: Option<usize>)
        requires
            old(self)@.stage == Stage::Between,
            k < usize::MAX,
        ensures
            forall|text: Seq<char>|
                k < text.len() && text[k as int] == c ==> match r {
                    Some(j) => #[trigger] read_on(text, k as nat, old(self)@) == Some(
                        (j as nat, final(self)@),
                    ),
                    None => read_on(text, k as nat, old(self)@) is None,
                },
    {
        if c == ';' {
            return Some(k);
        }
        if is_whitespace(c) || c == ',' {
            return Some(k + 1);
        }
        if c == '(' {
            self.enter(')', false, false);
        } else if c == '[' {
            self.enter(']', false, false);
        } else if c == '{' {
            self.enter('}', true, true);
        } else if c == ')' || c == ']' || c == '}' {
            if !self.leave(c) {
                return None;
            }
        } else if c == '"' {
            self.start(Stage::Quoted);
        } else if c == '\\' {
            self.start(Stage::Character);
        } else if c == '#' {
            self.start(Stage::Dispatch);
        } else if is_in_atom(c) {
            self.stage = Stage::Atom;
            self.atom = vec![c];
            assert(self.atom@ =~= seq![c]);
        } else {
            return None;
        }
        Some(k + 1)
    }

    fn advance(&mut self, text: &[char], k: usize) -> (r: Option<usize>)
        requires
            old(self)@.open.len() > 0,
            old(self)@.stage == Stage::Dispatch && k < text@.len() ==> old(self)@.open.last().owed
                < usize::MAX,
        ensures
            match r {
                Some(j) => read_on(text@, k as nat, old(self)@) == Some((j as nat, final(self)@)),
                None => read_on(text@, k as nat, old(self)@) is None,
            },
    {
        let len: usize = text.len();
        if k >= len {
            return None;
        }
        let c = text[k];
        match self.stage {
            Stage::Between => self.between(c, k),
            Stage::Dispatch => {
                if c == '_' {
                    self.add_form();
                    Some(k + 1)
                } else if c == '{' {
                    self.enter('}', false, true);
                    Some(k + 1)
                } else {
                    self.add_form();
                    Some(k)
                }
            },
            Stage::Character => {
                let n: usize = measure_literal(text, k);
                if self.end_form(&[]) {
                    Some(k + n)
                } else {
                    None
                }
            },
            Stage::Quoted => {
                if c == '"' {
                    if self.end_form(&[]) {
                        Some(k + 1)
                    } else {
                        None
                    }
                } else if c == '\\' {
                    if len - k >= 2 {
                        Some(k + 2)
                    } else {
                        None
                    }
                } else {
                    Some(k + 1)
                }
            },
            Stage::Atom => {
                if is_in_atom(c) {
                    self.atom.push(c);
                    Some(k + 1)
                } else {
                    let scales = find_scales(&self.atom);
                    if self.end_form(&scales) {
                        Some(k)
                    } else {
                        None
                    }
                }
            },
        }
    }

    fn does_harm(&self, text: &[char], k: usize) -> (r: bool)
        ensures
            r == harms(text@, k as nat, self@),
    {
        match self.stage {
            Stage::Between => if k < text.len() && self.closes(text[k]) {
                let n: usize = self.open.len();
                assert(self@.open.last() == self.open@[n - 1]@);
                find_far_apart(&self.open[n - 1].keys)
            } else {
                false
            },
            Stage::Character => k < text.len() && text[k] == 'u' && !does_cut_clean(text, k + 1),
            Stage::Atom => !(k < text.len() && is_in_atom(text[k])) && is_oversized(&self.atom),
            _ => false,
        }
    }
}

/// Whether every collection owes no more forms than there are characters before `i`, and
/// one more where the last of them is not a `#`.
spec fn owes_at_most(s: Reading, i: nat) -> bool {
    forall|m: int|
        0 <= m < s.open.len() ==> (#[trigger] s.open[m]).owed <= i + (if s.stage
            == Stage::Dispatch {
            0int
        } else {
            1
        })
}

proof fn lemma_read_on(text: Seq<char>, i: nat, k: nat, s: Reading)
    requires
        i <= k,
        s.open.len() > 0,
        owes_at_most(s, i),
    ensures
        match read_on(text, k, s) {
            Some((j, t)) => {
                &&& t.open.len() > 0
                &&& owes_at_most(t, j)
                &&& k <= j <= text.len()
                &&& k < j || rank(t.stage) < rank(s.stage) || text[k as int] == ';'
            },
            None => true,
        },
{
    reveal_strlit("newline");
    reveal_strlit("return");
    reveal_strlit("space");
    reveal_strlit("tab");
}

/// Whether the first value of the text is read, or an error is found, without the
/// parser's failing otherwise.
pub fn is_readable(text: &[char]) -> (r: bool)
    ensures
        r == readable(text@),
{
    let len: usize = text.len();
    let mut reader = Reader { stage: Stage::Between, atom: Vec::new(), open: Vec::new() };
    reader.put(Opened::new(' ', false, false));
    let mut i: usize = 0;
    assert(reader@.atom =~= unread().atom && reader@.open =~= unread().open);
    loop
        invariant
            i <= len == text@.len(),
            reader@.open.len() > 0,
            owes_at_most(reader@, i as nat),
            readable(text@) == harmless_from(text@, i as nat, reader@),
        decreases len - i, rank(reader@.stage),
    {
        let k: usize = if reader.stage != Stage::Quoted && i < len && text[i] == ';' {
            skip_line(text, i)
        } else {
            i
        };
        let ghost before = reader@;
        assert(k == looked_at(text@, i as nat, before));
        if reader.does_harm(text, k) {
            return false;
        }
        proof {
            lemma_read_on(text@, i as nat, k as nat, before);
        }
        match reader.advance(text, k) {
            Some(j) => {
                i = j;
            },
            None => {
                return true;
            },
        }
    }
}

/// `edn_format::parse_str`: the first value of the text, a function of the text alone. It
/// does not panic on a readable text whose brackets are not nested too deep for the stack,
/// where memory holds the powers of ten by which decimals are compared.
#[verifier::external_body]
fn edn_parse(text: &str) -> (r: Option<edn_format::Value>)
    requires
        readable(text@),
    ensures
        match r {
            Some(v) => parsed_edn(text@) == Some(edn_of(v)),
            None => parsed_edn(text@) is None,
        },
{
    edn_format::parse_str(text).ok()
}

/// `edn_format::Value::String`: the string that the value is.
#[verifier::external_body]
fn edn_text(v: &edn_format::Value) -> (r: Option<String>)
    ensures
        match r {
            Some(s) => edn_of(*v) == EdnView::Text(s@),
            None => !(edn_of(*v) is Text),
        },
{
    match v {
        edn_format::Value::String(s) => Some(s.clone()),
        _ => None,
    }
}

/// `edn_format::Value::Symbol`: the symbol that the value is.
#[verifier::external_body]
fn edn_symbol(v: &edn_format::Value) -> (r: Option<Name>)
    ensures
        match r {
            Some(n) => edn_of(*v) == EdnView::Symbol(n.deep_view()),
            None => !(edn_of(*v) is Symbol),
        },
{
    match v {
        edn_format::Value::Symbol(s) => Some(
            Name { namespace: s.namespace().map(str::to_string), name: s.name().to_string() },
        ),
        _ => None,
    }
}

/// `edn_format::Value::Keyword`: the keyword that the value is.
#[verifier::external_body]
fn edn_keyword(v: &edn_format::Value) -> (r: Option<Name>)
    ensures
        match r {
            Some(n) => edn_of(*v) == EdnView::Keyword(n.deep_view()),
            None => !(edn_of(*v) is Keyword),
        },
{
    match v {
        edn_format::Value::Keyword(k) => Some(
            Name { namespace: k.namespace().map(str::to_string), name: k.name().to_string() },
        ),
        _ => None,
    }
}

/// `edn_format::Value::Vector`: the items of the vector that the value is.
#[verifier::external_body]
fn edn_items(v: &edn_format::Value) -> (r: Option<&Vec<edn_format::Value>>)
    ensures
        match r {
            Some(items) => edn_of(*v) == EdnView::Vector(
                items@.map_values(|x: edn_format::Value| edn_of(x)),
            ),
            None => !(edn_of(*v) is Vector),
        },
{
    match v {
        edn_format::Value::Vector(items) => Some(items),
        _ => None,
    }
}

/// `edn_format::Value::Map`: the entries of the map that the value is, in the order in
/// which its `BTreeMap` lists them.
#[verifier::external_body]
fn edn_entries(v: &edn_format::Value) -> (r: Option<Vec<(&edn_format::Value, &edn_format::Value)>>)
    ensures
        match r {
            Some(entries) => edn_of(*v) == EdnView::Table(
                entries@.map_values(
                    |e: (&edn_format::Value, &edn_format::Value)| (edn_of(*e.0), edn_of(*e.1)),
                ),
            ),
            None => !(edn_of(*v) is Table),
        },
{
    match v {
        edn_format::Value::Map(m) => Some(m.iter().collect()),
        _ => None,
    }
}

fn convert(v: &edn_format::Value) -> (r: Edn)
    ensures
        r@ == edn_of(*v),
    decreases edn_of(*v),
{
    if let Some(s) = edn_text(v) {
        return Edn::Text(s);
    }
    if let Some(n) = edn_symbol(v) {
        return Edn::Symbol(n);
    }
    if let Some(n) = edn_keyword(v) {
        return Edn::Keyword(n);
    }
    if let Some(items) = edn_items(v) {
        let ghost all = items@.map_values(|x: edn_format::Value| edn_of(x));
        let mut out: Vec<Edn> = Vec::new();
        let mut i: usize = 0;
        while i < items.len()
            invariant
                i <= items@.len(),
                all == items@.map_values(|x: edn_format::Value| edn_of(x)),
                edn_of(*v) == EdnView::Vector(all),
                out@.len() == i,
                forall|k: int| 0 <= k < i ==> (#[trigger] out@[k])@ == all[k],
            decreases items@.len() - i,
        {
            assert(decreases_to!(edn_of(*v) => edn_of(*v)->Vector_0[i as int]));
            assert(all[i as int] == edn_of(items@[i as int]));
            out.push(convert(&items[i]));
            i += 1;
        }
        let r = Edn::Vector(out);
        assert(r@->Vector_0 =~= all);
        return r;
    }
    if let Some(entries) = edn_entries(v) {
        let ghost all = entries@.map_values(
            |e: (&edn_format::Value, &edn_format::Value)| (edn_of(*e.0), edn_of(*e.1)),
        );
        let mut out: Vec<(Edn, Edn)> = Vec::new();
        let mut i: usize = 0;
        while i < entries.len()
            invariant
                i <= entries@.len(),
                all == entries@.map_values(
                    |e: (&edn_format::Value, &edn_format::Value)| (edn_of(*e.0), edn_of(*e.1)),
                ),
                edn_of(*v) == EdnView::Table(all),
                out@.len() == i,
                forall|k: int|
                    0 <= k < i ==> ((#[trigger] out@[k]).0@, out@[k].1@) == all[k],
            decreases entries@.len() - i,
        {
            assert(decreases_to!(edn_of(*v) => edn_of(*v)->Table_0[i as int].0));
            assert(decreases_to!(edn_of(*v) => edn_of(*v)->Table_0[i as int].1));
            assert(all[i as int].0 == edn_of(*entries@[i as int].0));
            assert(all[i as int].1 == edn_of(*entries@[i as int].1));
            let key = convert(entries[i].0);
            let value = convert(entries[i].1);
            out.push((key, value));
            i += 1;
        }
        let r = Edn::Table(out);
        assert(r@->Table_0 =~= all);
        return r;
    }
    Edn::Other
}

/// The first value of a text; `None` where it is no EDN.
pub fn parse(text: &str) -> (r: Option<Edn>)
    requires
        readable(text@),
    ensures
        match r {
            Some(v) => parsed_edn(text@) == Some(v@),
            None => parsed_edn(text@) is None,
        },
{
    match edn_parse(text) {
        Some(v) => Some(convert(&v)),
        None => None,
    }
}

/// A keyword without a namespace.
pub open spec fn keyword(name: Seq<char>) -> NameView {
    NameView { namespace: None, name }
}

/// A keyword with a namespace.
pub open spec fn keyword_in(namespace: Seq<char>, name: Seq<char>) -> NameView {
    NameView { namespace: Some(namespace), name }
}

/// A keyword without a namespace.
pub fn kw(name: &str) -> (r: Name)
    ensures
        r.deep_view() == keyword(name@),
{
    Name { namespace: None, name: name.to_owned() }
}

/// A keyword with a namespace.
pub fn kw_ns(namespace: &str, name: &str) -> (r: Name)
    ensures
        r.deep_view() == keyword_in(namespace@, name@),
{
    Name { namespace: Some(namespace.to_owned()), name: name.to_owned() }
}

fn same_name(a: &Name, b: &Name) -> (r: bool)
    ensures
        r == (a.deep_view() == b.deep_view()),
{
    let same_namespace = match (&a.namespace, &b.namespace) {
        (Some(x), Some(y)) => str_eq(x.as_str(), y.as_str()),
        (None, None) => true,
        _ => false,
    };
    same_namespace && str_eq(a.name.as_str(), b.name.as_str())
}

/// The first entry from `i` on under a keyword.
pub open spec fn entry_at(entries: Seq<(EdnView, EdnView)>, key: NameView, i: nat) -> Option<EdnView>
    decreases entries.len() - i,
{
    if i >= entries.len() {
        None
    } else if entries[i as int].0 == EdnView::Keyword(key) {
        Some(entries[i as int].1)
    } else {
        entry_at(entries, key, i + 1)
    }
}

/// What a map holds under a keyword; what is no map holds nothing.
pub open spec fn value_at(v: EdnView, key: NameView) -> Option<EdnView> {
    match v {
        EdnView::Table(entries) => entry_at(entries, key, 0),
        _ => None,
    }
}

/// What a map holds under a keyword.
pub fn get<'a>(v: &'a Edn, key: &Name) -> (r: Option<&'a Edn>)
    ensures
        match r {
            Some(x) => value_at(v@, key.deep_view()) == Some(x@),
            None => value_at(v@, key.deep_view()) is None,
        },
{
    proof {
        lemma_edn(*v);
    }
    match v {
        Edn::Table(entries) => {
            let ghost all = entry_views(entries@);
            let mut i: usize = 0;
            while i < entries.len()
                invariant
                    i <= entries@.len() == all.len(),
                    all == entry_views(entries@),
                    v@ == EdnView::Table(all),
                    entry_at(all, key.deep_view(), 0) == entry_at(all, key.deep_view(), i as nat),
                decreases entries@.len() - i,
            {
                let ghost e = entries@[i as int];
                assert(all[i as int] == (e.0@, e.1@));
                proof {
                    lemma_edn(e.0);
                }
                let hit = match &entries[i].0 {
                    Edn::Keyword(n) => same_name(n, key),
                    _ => false,
                };
                if hit {
                    return Some(&entries[i].1);
                }
                i += 1;
            }
            None
        },
        _ => None,
    }
}

/// The string that a value is.
pub open spec fn text_of(v: Option<EdnView>) -> Option<Seq<char>> {
    match v {
        Some(EdnView::Text(s)) => Some(s),
        _ => None,
    }
}

/// The string that a value is.
pub fn as_str(v: &Edn) -> (r: Option<&str>)
    ensures
        match r {
            Some(s) => text_of(Some(v@)) == Some(s@),
            None => text_of(Some(v@)) is None,
        },
{
    proof {
        lemma_edn(*v);
    }
    match v {
        Edn::Text(s) => Some(s.as_str()),
        _ => None,
    }
}

/// The string that a map holds under a keyword.
pub fn str_at(v: &Edn, key: &Name) -> (r: Option<String>)
    ensures
        r.deep_view() == text_of(value_at(v@, key.deep_view())),
{
    match get(v, key) {
        Some(x) => match as_str(x) {
            Some(s) => Some(s.to_owned()),
            None => None,
        },
        None => None,
    }
}

/// The strings among the first `n` values.
pub open spec fn texts_in(items: Seq<EdnView>, n: nat) -> Seq<Seq<char>>
    decreases n,
{
    if n == 0 {
        seq![]
    } else {
        match text_of(Some(items[n - 1])) {
            Some(s) => texts_in(items, (n - 1) as nat).push(s),
            None => texts_in(items, (n - 1) as nat),
        }
    }
}

/// The strings of the vector that a map holds under a keyword; `None` where it holds no
/// vector there.
pub open spec fn texts_at(v: EdnView, key: NameView) -> Option<Seq<Seq<char>>> {
    match value_at(v, key) {
        Some(EdnView::Vector(items)) => Some(texts_in(items, items.len())),
        _ => None,
    }
}

/// The strings of the vector that a map holds under a keyword.
pub fn str_vec_at(v: &Edn, key: &Name) -> (r: Option<Vec<String>>)
    ensures
        match r {
            Some(list) => texts_at(v@, key.deep_view()) == Some(strs(list@)),
            None => texts_at(v@, key.deep_view()) is None,
        },
{
    match get(v, key) {
        Some(x) => match x {
            Edn::Vector(items) => {
                proof {
                    lemma_edn(*x);
                }
                let ghost all = views(items@);
                let mut out: Vec<String> = Vec::new();
                assert(strs(out@) =~= seq![]);
                let mut i: usize = 0;
                while i < items.len()
                    invariant
                        i <= items@.len() == all.len(),
                        all == views(items@),
                        strs(out@) == texts_in(all, i as nat),
                    decreases items@.len() - i,
                {
                    assert(all[i as int] == items@[i as int]@);
                    if let Some(s) = as_str(&items[i]) {
                        push_str(&mut out, s.to_owned());
                    }
                    i += 1;
                }
                Some(out)
            },
            _ => {
                proof {
                    lemma_edn(*x);
                }
                None
            },
        },
        None => None,
    }
}

}
