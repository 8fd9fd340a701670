//! What is kept of an archive between runs.

use vstd::prelude::*;
use crate::collect::{push_item, Copied};
use crate::index::model::{NsMeta, NsMetaView, Symbol, SymbolView};
use crate::path::{join, joined};
use crate::text::{concat2, str_eq};

verus! {

/// The layout of an entry. An entry of another layout is not used, for the archive's
/// time of change says nothing about who wrote the entry.
pub const CACHE_FORMAT_VERSION: u32 = 4;

/// What is kept of one archive.
#[derive(Clone, Debug)]
pub struct JarCacheEntry {
    pub format_version: u32,
    /// When the archive was last changed, in seconds.
    pub mtime: u64,
    pub namespaces: Vec<NsMeta>,
    pub symbols: Vec<Symbol>,
}

/// What a [`JarCacheEntry`] says.
pub ghost struct CacheView {
    pub format_version: u32,
    pub mtime: u64,
    pub namespaces: Seq<NsMetaView>,
    pub symbols: Seq<SymbolView>,
}

impl DeepView for JarCacheEntry {
    type V = CacheView;

    open spec fn deep_view(&self) -> CacheView {
        CacheView {
            format_version: self.format_version,
            mtime: self.mtime,
            namespaces: self.namespaces.deep_view(),
            symbols: self.symbols.deep_view(),
        }
    }
}

/// Whether an entry still describes an archive that was last changed at `mtime`.
pub open spec fn fresh(entry: CacheView, mtime: Option<u64>) -> bool {
    entry.format_version == CACHE_FORMAT_VERSION && mtime == Some(entry.mtime)
}

/// Whether an entry still describes an archive that was last changed at `mtime`.
pub fn is_fresh(entry: &JarCacheEntry, mtime: Option<u64>) -> (r: bool)
    ensures
        r == fresh(entry.deep_view(), mtime),
{
    if entry.format_version != CACHE_FORMAT_VERSION {
        return false;
    }
    match mtime {
        Some(now) => entry.mtime == now,
        None => false,
    }
}

/// The entry that was read, where it is still fresh.
pub fn load(read: Option<JarCacheEntry>, mtime: Option<u64>) -> (r: Option<JarCacheEntry>)
    ensures
        r == (match read {
            Some(entry) => if fresh(entry.deep_view(), mtime) {
                Some(entry)
            } else {
                None
            },
            None => None,
        }),
{
    match read {
        Some(entry) => if is_fresh(&entry, mtime) {
            Some(entry)
        } else {
            None
        },
        None => None,
    }
}

/// The symbols among the first `n` that belong to a namespace.
pub open spec fn symbols_in(symbols: Seq<SymbolView>, ns: Seq<char>, n: nat) -> Seq<SymbolView>
    decreases n,
{
    if n == 0 {
        seq![]
    } else {
        let before = symbols_in(symbols, ns, (n - 1) as nat);
        if symbols[n - 1].ns == ns {
            before.push(symbols[n - 1])
        } else {
            before
        }
    }
}

/// The namespaces of an entry, each with its symbols.
pub open spec fn unpacked(entry: CacheView) -> Seq<(NsMetaView, Seq<SymbolView>)> {
    entry.namespaces.map_values(
        |meta: NsMetaView| (meta, symbols_in(entry.symbols, meta.name, entry.symbols.len())),
    )
}

fn pick_symbols(symbols: &Vec<Symbol>, ns: &str) -> (r: Vec<Symbol>)
    ensures
        r.deep_view() == symbols_in(symbols.deep_view(), ns@, symbols@.len()),
{
    let ghost all = symbols.deep_view();
    let mut out: Vec<Symbol> = Vec::new();
    assert(out.deep_view() =~= seq![]);
    let mut i: usize = 0;
    while i < symbols.len()
        invariant
            i <= symbols@.len(),
            all == symbols.deep_view(),
            out.deep_view() == symbols_in(all, ns@, i as nat),
        decreases symbols@.len() - i,
    {
        assert(all[i as int] == symbols@[i as int].deep_view());
        if str_eq(symbols[i].ns.as_str(), ns) {
            push_item(&mut out, symbols[i].copied());
        }
        i += 1;
    }
    out
}

/// The namespaces of an entry, each with its symbols.
pub fn unpack(entry: &JarCacheEntry) -> (r: Vec<(NsMeta, Vec<Symbol>)>)
    ensures
        r.deep_view() == unpacked(entry.deep_view()),
{
    let ghost all = unpacked(entry.deep_view());
    let mut out: Vec<(NsMeta, Vec<Symbol>)> = Vec::new();
    let mut i: usize = 0;
    while i < entry.namespaces.len()
        invariant
            i <= entry.namespaces@.len(),
            all == unpacked(entry.deep_view()),
            out.deep_view() =~= all.take(i as int),
        decreases entry.namespaces@.len() - i,
    {
        let meta = entry.namespaces[i].copied();
        assert(entry.deep_view().namespaces[i as int] == entry.namespaces@[i as int].deep_view());
        let symbols = pick_symbols(&entry.symbols, meta.name.as_str());
        push_item(&mut out, (meta, symbols));
        i += 1;
    }
    assert(out.deep_view() =~= all);
    out
}

/// The symbols of the first `n` namespaces, one after the other.
pub open spec fn all_symbols(found: Seq<(NsMetaView, Seq<SymbolView>)>, n: nat) -> Seq<SymbolView>
    decreases n,
{
    if n == 0 {
        seq![]
    } else {
        all_symbols(found, (n - 1) as nat) + found[n - 1].1
    }
}

/// What is kept of an archive that was last changed at `mtime`.
pub open spec fn packed(found: Seq<(NsMetaView, Seq<SymbolView>)>, mtime: u64) -> CacheView {
    CacheView {
        format_version: CACHE_FORMAT_VERSION,
        mtime,
        namespaces: found.map_values(|f: (NsMetaView, Seq<SymbolView>)| f.0),
        symbols: all_symbols(found, found.len()),
    }
}

/// What is kept of an archive that was last changed at `mtime`.
pub fn pack(found: &Vec<(NsMeta, Vec<Symbol>)>, mtime: u64) -> (r: JarCacheEntry)
    ensures
        r.deep_view() == packed(found.deep_view(), mtime),
{
    let ghost all = found.deep_view();
    let ghost metas = all.map_values(|f: (NsMetaView, Seq<SymbolView>)| f.0);
    let mut namespaces: Vec<NsMeta> = Vec::new();
    let mut symbols: Vec<Symbol> = Vec::new();
    assert(symbols.deep_view() =~= seq![]);
    let mut i: usize = 0;
    while i < found.len()
        invariant
            i <= found@.len(),
            all == found.deep_view(),
            metas == all.map_values(|f: (NsMetaView, Seq<SymbolView>)| f.0),
            namespaces.deep_view() =~= metas.take(i as int),
            symbols.deep_view() == all_symbols(all, i as nat),
        decreases found@.len() - i,
    {
        assert(all[i as int] == found@[i as int].deep_view());
        push_item(&mut namespaces, found[i].0.copied());
        let ghost before = symbols.deep_view();
        let ghost syms = found@[i as int].1.deep_view();
        let mut j: usize = 0;
        assert(before + syms.take(0) =~= before);
        while j < found[i].1.len()
            invariant
                i < found@.len(),
                j <= found@[i as int].1@.len(),
                syms == found@[i as int].1.deep_view(),
                symbols.deep_view() =~= before + syms.take(j as int),
            decreases found@[i as int].1@.len() - j,
        {
            assert(syms[j as int] == found@[i as int].1@[j as int].deep_view());
            push_item(&mut symbols, found[i].1[j].copied());
            j += 1;
        }
        assert(syms.take(syms.len() as int) =~= syms);
        assert(symbols.deep_view() =~= all_symbols(all, (i + 1) as nat));
        i += 1;
    }
    assert(namespaces.deep_view() =~= metas);
    JarCacheEntry { format_version: CACHE_FORMAT_VERSION, mtime, namespaces, symbols }
}

/// The digit for a number below sixteen.
pub open spec fn hex_digit(n: nat) -> char {
    if n < 10 {
        ('0' as u32 + n) as char
    } else {
        ('a' as u32 + (n - 10)) as char
    }
}

fn hex_char(n: u64) -> (r: char)
    requires
        n < 16,
    ensures
        r == hex_digit(n as nat),
{
    match n {
        0 => '0',
        1 => '1',
        2 => '2',
        3 => '3',
        4 => '4',
        5 => '5',
        6 => '6',
        7 => '7',
        8 => '8',
        9 => '9',
        10 => 'a',
        11 => 'b',
        12 => 'c',
        13 => 'd',
        14 => 'e',
        _ => 'f',
    }
}

/// The last `digits` hexadecimal digits of a number.
pub open spec fn hex(n: nat, digits: nat) -> Seq<char>
    decreases digits,
{
    if digits == 0 {
        seq![]
    } else {
        hex(n / 16, (digits - 1) as nat).push(hex_digit(n % 16))
    }
}

fn hex_string(n: u64, digits: usize) -> (r: String)
    ensures
        r@ == hex(n as nat, digits as nat),
    decreases digits,
{
    if digits == 0 {
        let out = String::new();
        assert(out@ =~= seq![]);
        out
    } else {
        let mut out = hex_string(n / 16, digits - 1);
        out.push(hex_char(n % 16));
        out
    }
}

/// The file that keeps the entry of an archive, `hash` being the hash of its path.
pub open spec fn cache_file(cache_dir: Seq<char>, hash: u64) -> Seq<char> {
    joined(cache_dir, hex(hash as nat, 16) + ".bin"@)
}

/// The file that keeps the entry of an archive, `hash` being the hash of its path.
pub fn cache_file_path(cache_dir: &str, hash: u64) -> (r: String)
    ensures
        r@ == cache_file(cache_dir@, hash),
{
    let name = concat2(hex_string(hash, 16).as_str(), ".bin");
    join(cache_dir, name.as_str())
}

/// Whether no two of the first `n` namespaces have one name, and every symbol belongs to
/// the namespace that it stands with.
pub open spec fn apart(found: Seq<(NsMetaView, Seq<SymbolView>)>, n: nat) -> bool {
    &&& forall|i: int, j: int|
        0 <= i < j < n ==> (#[trigger] found[i]).0.name != (#[trigger] found[j]).0.name
    &&& forall|i: int, k: int|
        0 <= i < n && 0 <= k < found[i].1.len() ==> (#[trigger] found[i].1[k]).ns
            == found[i].0.name
}

/// What was packed for an archive is what is unpacked from it, where no two of its files
/// share a namespace. It is used exactly as long as the archive does not change.
pub proof fn law_cache_gives_back(
    found: Seq<(NsMetaView, Seq<SymbolView>)>,
    mtime: u64,
    now: Option<u64>,
)
    requires
        apart(found, found.len()),
    ensures
        unpacked(packed(found, mtime)) == found,
        fresh(packed(found, mtime), now) <==> now == Some(mtime),
{
    let entry = packed(found, mtime);
    let back = unpacked(entry);
    assert forall|i: int| 0 <= i < found.len() implies #[trigger] back[i] == found[i] by {
        lemma_symbols_in_pack(found, found.len(), i);
    }
    assert(back =~= found);
}

proof fn lemma_symbols_in_pack(found: Seq<(NsMetaView, Seq<SymbolView>)>, n: nat, i: int)
    requires
        n <= found.len(),
        0 <= i < found.len(),
        apart(found, found.len()),
    ensures
        symbols_in(all_symbols(found, n), found[i].0.name, all_symbols(found, n).len()) == (if i
            < n {
            found[i].1
        } else {
            seq![]
        }),
    decreases n,
{
    if n > 0 {
        let before = all_symbols(found, (n - 1) as nat);
        lemma_symbols_in_pack(found, (n - 1) as nat, i);
        lemma_symbols_in_concat(before, found[n - 1].1, found[i].0.name, found[n - 1].1.len());
        lemma_symbols_of_one(found[n - 1].1, found[n - 1].0.name, found[i].0.name, found[n - 1].1.len());
        assert(found[n - 1].1.take(found[n - 1].1.len() as int) =~= found[n - 1].1);
        assert(before + found[n - 1].1 =~= all_symbols(found, n));
        if i == n - 1 {
            assert(seq![] + found[i].1 =~= found[i].1);
        } else {
            if i < n - 1 {
                assert(found[i].0.name != found[n - 1].0.name);
            } else {
                assert(found[n - 1].0.name != found[i].0.name);
            }
            let had = symbols_in(before, found[i].0.name, before.len());
            assert(had + seq![] =~= had);
        }
    }
}

proof fn lemma_symbols_in_concat(a: Seq<SymbolView>, b: Seq<SymbolView>, ns: Seq<char>, n: nat)
    requires
        n <= b.len(),
    ensures
        symbols_in(a + b, ns, a.len() + n) == symbols_in(a, ns, a.len()) + symbols_in(b, ns, n),
    decreases n,
{
    if n > 0 {
        lemma_symbols_in_concat(a, b, ns, (n - 1) as nat);
        assert((a + b)[a.len() + n - 1] == b[n - 1]);
        assert(symbols_in(a + b, ns, a.len() + n) =~= symbols_in(a, ns, a.len()) + symbols_in(
            b,
            ns,
            n,
        ));
    } else {
        lemma_symbols_in_prefix(a, b, ns, a.len());
        assert(symbols_in(a, ns, a.len()) + seq![] =~= symbols_in(a, ns, a.len()));
    }
}

proof fn lemma_symbols_in_prefix(a: Seq<SymbolView>, b: Seq<SymbolView>, ns: Seq<char>, n: nat)
    requires
        n <= a.len(),
    ensures
        symbols_in(a + b, ns, n) == symbols_in(a, ns, n),
    decreases n,
{
    if n > 0 {
        lemma_symbols_in_prefix(a, b, ns, (n - 1) as nat);
        assert((a + b)[n - 1] == a[n - 1]);
    }
}

proof fn lemma_symbols_of_one(b: Seq<SymbolView>, own: Seq<char>, ns: Seq<char>, n: nat)
    requires
        n <= b.len(),
        forall|k: int| 0 <= k < b.len() ==> (#[trigger] b[k]).ns == own,
    ensures
        symbols_in(b, ns, n) == (if own == ns {
            b.take(n as int)
        } else {
            seq![]
        }),
    decreases n,
{
    if n > 0 {
        lemma_symbols_of_one(b, own, ns, (n - 1) as nat);
        assert(b[n - 1].ns == own);
        assert(b.take(n as int) =~= b.take(n - 1).push(b[n - 1]));
    } else {
        assert(b.take(0) =~= seq![]);
    }
}

}
