//! What holds of the index whatever is put into it, and in whatever order.

use vstd::prelude::*;
use crate::index::model::{CoreSymbolView, NsMetaView, OccurrenceView, SymbolView};
use crate::index::symbols::{at, core_named, fqns_of, with_lib_symbols, with_symbols, IndexView};

verus! {

proof fn lemma_lib_symbols_keep_project(
    m: Map<Seq<char>, SymbolView>,
    syms: Seq<SymbolView>,
    n: nat,
    fqn: Seq<char>,
)
    requires
        m.dom().contains(fqn),
        m[fqn].source is Project,
    ensures
        with_lib_symbols(m, syms, n).dom().contains(fqn),
        with_lib_symbols(m, syms, n)[fqn] == m[fqn],
    decreases n,
{
    if n > 0 && n <= syms.len() {
        lemma_lib_symbols_keep_project(m, syms, (n - 1) as nat, fqn);
    }
}

/// A library never shadows the project: taking in a library file leaves every
/// symbol of the project as it was.
pub proof fn law_lib_never_shadows_project(
    i: IndexView,
    meta: NsMetaView,
    syms: Seq<SymbolView>,
    fqn: Seq<char>,
)
    requires
        i.symbols.dom().contains(fqn),
        i.symbols[fqn].source is Project,
    ensures
        at(i.lib_inserted(meta, syms).symbols, fqn) == Some(i.symbols[fqn]),
{
    lemma_lib_symbols_keep_project(i.symbols, syms, syms.len(), fqn);
}

/// Where the last of the first `n` symbols with the name `fqn` stands.
pub open spec fn last_named(syms: Seq<SymbolView>, n: nat, fqn: Seq<char>) -> Option<nat>
    decreases n,
{
    if n == 0 || n > syms.len() {
        None
    } else if syms[n - 1].fqn == fqn {
        Some((n - 1) as nat)
    } else {
        last_named(syms, (n - 1) as nat, fqn)
    }
}

proof fn lemma_last_named(syms: Seq<SymbolView>, n: nat, fqn: Seq<char>)
    requires
        n <= syms.len(),
    ensures
        last_named(syms, n, fqn) matches Some(j) ==> j < n && syms[j as int].fqn == fqn,
        last_named(syms, n, fqn) is None ==> forall|j: int| 0 <= j < n ==> syms[j].fqn != fqn,
    decreases n,
{
    if n > 0 && syms[n - 1].fqn != fqn {
        lemma_last_named(syms, (n - 1) as nat, fqn);
    }
}

proof fn lemma_with_symbols(
    m: Map<Seq<char>, SymbolView>,
    syms: Seq<SymbolView>,
    n: nat,
    fqn: Seq<char>,
)
    requires
        n <= syms.len(),
    ensures
        at(with_symbols(m, syms, n), fqn) == (match last_named(syms, n, fqn) {
            Some(j) => Some(syms[j as int]),
            None => at(m, fqn),
        }),
    decreases n,
{
    if n > 0 {
        lemma_with_symbols(m, syms, (n - 1) as nat, fqn);
    }
}

/// A look-up finds what was taken in: the last definition of a name in a file is
/// the symbol of that name, the file is a project file of its namespace, and
/// other names keep what they had.
pub proof fn law_lookup_after_insert(
    i: IndexView,
    meta: NsMetaView,
    syms: Seq<SymbolView>,
    occurrences: Seq<OccurrenceView>,
    fqn: Seq<char>,
)
    ensures
        ({
            let j = i.file_inserted(meta, syms, occurrences);
            &&& at(j.symbols, fqn) == (match last_named(syms, syms.len(), fqn) {
                Some(n) => Some(syms[n as int]),
                None => at(i.symbols, fqn),
            })
            &&& at(j.namespaces, meta.name) == Some(meta)
            &&& at(j.file_to_ns, meta.file) == Some(meta.name)
            &&& at(j.occurrences, meta.file) == Some(occurrences)
            &&& j.owns_namespace(meta.name)
        }),
{
    lemma_with_symbols(i.symbols, syms, syms.len(), fqn);
}

/// The project wins in either order: whether a project file or a library file is
/// taken in first, a name that the project file defines means that definition,
/// and its namespace is the project's.
pub proof fn law_project_wins_in_either_order(
    i: IndexView,
    meta: NsMetaView,
    syms: Seq<SymbolView>,
    occurrences: Seq<OccurrenceView>,
    lib_meta: NsMetaView,
    lib_syms: Seq<SymbolView>,
    fqn: Seq<char>,
)
    requires
        forall|k: int| 0 <= k < syms.len() ==> (#[trigger] syms[k]).source is Project,
        fqns_of(syms).contains(fqn),
    ensures
        ({
            let a = i.file_inserted(meta, syms, occurrences).lib_inserted(lib_meta, lib_syms);
            let b = i.lib_inserted(lib_meta, lib_syms).file_inserted(meta, syms, occurrences);
            let defined = syms[last_named(syms, syms.len(), fqn)->0 as int];
            &&& last_named(syms, syms.len(), fqn) is Some
            &&& at(a.symbols, fqn) == Some(defined)
            &&& at(b.symbols, fqn) == Some(defined)
            &&& at(a.namespaces, meta.name) == Some(meta)
            &&& at(b.namespaces, meta.name) == Some(meta)
        }),
{
    let first = i.file_inserted(meta, syms, occurrences);
    let other = i.lib_inserted(lib_meta, lib_syms);
    lemma_last_named(syms, syms.len(), fqn);
    let k = choose|k: int| 0 <= k < fqns_of(syms).len() && fqns_of(syms)[k] == fqn;
    assert(syms[k].fqn == fqn);
    lemma_with_symbols(i.symbols, syms, syms.len(), fqn);
    lemma_with_symbols(other.symbols, syms, syms.len(), fqn);
    law_lib_never_shadows_project(first, lib_meta, lib_syms, fqn);
}

/// Removing a file undoes taking it in, where the index knew neither the file,
/// nor its namespace, nor its symbols.
pub proof fn law_remove_undoes_insert(
    i: IndexView,
    meta: NsMetaView,
    syms: Seq<SymbolView>,
    occurrences: Seq<OccurrenceView>,
)
    requires
        !i.occurrences.dom().contains(meta.file),
        !i.file_to_ns.dom().contains(meta.file),
        !i.ns_symbols.dom().contains(meta.name),
        !i.namespaces.dom().contains(meta.name),
        forall|k: int|
            0 <= k < syms.len() ==> !i.symbols.dom().contains((#[trigger] syms[k]).fqn),
    ensures
        i.file_inserted(meta, syms, occurrences).file_removed(meta.file) == i,
{
    let j = i.file_inserted(meta, syms, occurrences);
    let r = j.file_removed(meta.file);
    assert(r.occurrences =~= i.occurrences);
    assert(r.file_to_ns =~= i.file_to_ns);
    assert(r.ns_symbols =~= i.ns_symbols);
    assert(r.namespaces =~= i.namespaces);
    assert forall|k: Seq<char>| at(r.symbols, k) == at(i.symbols, k) by {
        lemma_with_symbols(i.symbols, syms, syms.len(), k);
        lemma_last_named(syms, syms.len(), k);
        match last_named(syms, syms.len(), k) {
            Some(n) => {
                assert(fqns_of(syms)[n as int] == k);
                assert(fqns_of(syms).contains(k));
                assert(!i.symbols.dom().contains(syms[n as int].fqn));
            },
            None => {
                if fqns_of(syms).contains(k) {
                    let n = choose|n: int| 0 <= n < fqns_of(syms).len() && fqns_of(syms)[n] == k;
                    assert(syms[n].fqn == k);
                }
            },
        }
    }
    lemma_same_map(r.symbols, i.symbols);
}

proof fn lemma_same_map<V>(a: Map<Seq<char>, V>, b: Map<Seq<char>, V>)
    requires
        forall|k: Seq<char>| at(a, k) == at(b, k),
    ensures
        a == b,
{
    assert forall|k: Seq<char>| a.dom().contains(k) <==> b.dom().contains(k) by {
        assert(at(a, k) == at(b, k));
    }
    assert forall|k: Seq<char>| a.dom().contains(k) implies a[k] == b[k] by {
        assert(at(a, k) == at(b, k));
    }
    assert(a =~= b);
}

/// Clearing the libraries keeps every symbol and every usage of the project,
/// leaves no symbol of a library, takes back the mark of let-go's core, and does
/// nothing more when done again.
pub proof fn law_clear_libs(i: IndexView, fqn: Seq<char>)
    ensures
        ({
            let c = i.libs_cleared();
            &&& at(c.symbols, fqn) == (if i.symbols.dom().contains(fqn)
                && i.symbols[fqn].source is Project {
                Some(i.symbols[fqn])
            } else {
                None
            })
            &&& c.occurrences == i.occurrences
            &&& !c.letgo_core
            &&& c.libs_cleared() == c
        }),
{
    let c = i.libs_cleared();
    let d = c.libs_cleared();
    assert(d.symbols =~= c.symbols);
    assert forall|ns: Seq<char>| c.ns_symbols.dom().contains(ns) implies c.keeps_namespace(
        c.symbols,
        ns,
    ) by {
        assert(i.keeps_namespace(c.symbols, ns));
        let fqns = i.ns_symbols[ns];
        if exists|k: int| 0 <= k < fqns.len() && c.symbols.dom().contains(#[trigger] fqns[k]) {
            let k = choose|k: int|
                0 <= k < fqns.len() && c.symbols.dom().contains(#[trigger] fqns[k]);
            assert(c.symbols.dom().contains(c.ns_symbols[ns][k]));
        } else {
            assert(i.owns_namespace(ns));
            assert(c.namespaces.dom().contains(ns));
        }
    }
    assert(d.ns_symbols =~= c.ns_symbols);
    assert(d.namespaces =~= c.namespaces);
    assert(d.file_to_ns =~= c.file_to_ns);
}

/// A new scan forgets the stale files and nothing else: a file that is neither
/// a stale project file nor in the scan keeps its registration, and, where the
/// scan registers every file that it holds usages of, no stale file is left.
pub proof fn law_merge_forgets_only_stale_files(
    i: IndexView,
    scan: IndexView,
    keep: Seq<Seq<char>>,
    file: Seq<char>,
)
    requires
        scan.occurrences.dom().contains(file) ==> scan.file_to_ns.dom().contains(file),
    ensures
        ({
            let stale = i.stale(scan, keep);
            let m = i.files_removed(stale).merged(scan);
            if stale.contains(file) {
                !m.occurrences.dom().contains(file) && !m.file_to_ns.dom().contains(file)
            } else if scan.file_to_ns.dom().contains(file) {
                at(m.file_to_ns, file) == at(scan.file_to_ns, file)
            } else {
                at(m.file_to_ns, file) == at(i.file_to_ns, file) && at(m.occurrences, file) == at(
                    i.occurrences,
                    file,
                )
            }
        }),
{
}

/// A file that is removed leaves nothing behind: no usages, no namespace of its own, and none of the
/// names that stood under it; what other files and namespaces hold stays.
pub proof fn law_removed_file_leaves_nothing(
    i: IndexView,
    path: Seq<char>,
    ns: Seq<char>,
    other: Seq<char>,
    fqn: Seq<char>,
)
    requires
        at(i.file_to_ns, path) == Some(ns),
    ensures
        at(i.file_removed(path).occurrences, path) is None,
        at(i.file_removed(path).file_to_ns, path) is None,
        at(i.file_removed(path).namespaces, ns) is None,
        at(i.file_removed(path).ns_symbols, ns) is None,
        other != path ==> {
            &&& at(i.file_removed(path).occurrences, other) == at(i.occurrences, other)
            &&& at(i.file_removed(path).file_to_ns, other) == at(i.file_to_ns, other)
        },
        other != ns ==> {
            &&& at(i.file_removed(path).namespaces, other) == at(i.namespaces, other)
            &&& at(i.file_removed(path).ns_symbols, other) == at(i.ns_symbols, other)
        },
        (at(i.ns_symbols, ns) matches Some(fqns) && fqns.contains(fqn)) ==> at(
            i.file_removed(path).symbols,
            fqn,
        ) is None,
        !(at(i.ns_symbols, ns) matches Some(fqns) && fqns.contains(fqn)) ==> at(
            i.file_removed(path).symbols,
            fqn,
        ) == at(i.symbols, fqn),
{
}

/// A path that the index knows no namespace of loses its usages and nothing else.
pub proof fn law_unknown_file_loses_its_usages(i: IndexView, path: Seq<char>)
    requires
        at(i.file_to_ns, path) is None,
    ensures
        i.file_removed(path) == (IndexView { occurrences: i.occurrences.remove(path), ..i }),
{
}

/// What a scan found stands in the merged index; what it did not find stays, unless it came from
/// a file that the scan no longer saw and that is not to be kept.
pub proof fn law_scan_is_merged(
    i: IndexView,
    scan: IndexView,
    keep: Seq<Seq<char>>,
    fqn: Seq<char>,
    ns: Seq<char>,
)
    ensures
        ({
            let m = i.files_removed(i.stale(scan, keep)).merged(scan);
            &&& scan.symbols.dom().contains(fqn) ==> at(m.symbols, fqn) == at(scan.symbols, fqn)
            &&& scan.namespaces.dom().contains(ns) ==> at(m.namespaces, ns) == at(
                scan.namespaces,
                ns,
            )
            &&& !scan.namespaces.dom().contains(ns) && (exists|p: Seq<char>|
                i.occurrences.dom().contains(p) && !scan.file_to_ns.dom().contains(p)
                    && !keep.contains(p) && #[trigger] at(i.file_to_ns, p) == Some(ns)) ==> at(
                m.namespaces,
                ns,
            ) is None
            &&& !scan.namespaces.dom().contains(ns) && !(exists|p: Seq<char>|
                i.occurrences.dom().contains(p) && !scan.file_to_ns.dom().contains(p)
                    && !keep.contains(p) && #[trigger] at(i.file_to_ns, p) == Some(ns)) ==> at(
                m.namespaces,
                ns,
            ) == at(i.namespaces, ns)
            &&& m.core_symbols == i.core_symbols && m.config == i.config && m.jdk == i.jdk
        }),
{
    let stale = i.stale(scan, keep);
    if exists|p: Seq<char>|
        i.occurrences.dom().contains(p) && !scan.file_to_ns.dom().contains(p) && !keep.contains(p)
            && #[trigger] at(i.file_to_ns, p) == Some(ns) {
        let p = choose|p: Seq<char>|
            i.occurrences.dom().contains(p) && !scan.file_to_ns.dom().contains(p) && !keep.contains(
                p,
            ) && #[trigger] at(i.file_to_ns, p) == Some(ns);
        assert(stale.contains(p));
        assert(i.namespaces_of(stale).contains(ns));
    } else {
        assert forall|p: Seq<char>| #[trigger] stale.contains(p) && i.file_to_ns.dom().contains(
            p,
        ) implies i.file_to_ns[p] != ns by {
            assert(at(i.file_to_ns, p) == Some(i.file_to_ns[p]));
        }
    }
}

/// A namespace with a name that a stale file defined forgets that name, unless the scan found it.
pub proof fn law_stale_names_are_forgotten(
    i: IndexView,
    scan: IndexView,
    keep: Seq<Seq<char>>,
    path: Seq<char>,
    ns: Seq<char>,
    fqn: Seq<char>,
)
    requires
        i.occurrences.dom().contains(path),
        !scan.file_to_ns.dom().contains(path),
        !keep.contains(path),
        at(i.file_to_ns, path) == Some(ns),
        at(i.ns_symbols, ns) matches Some(fqns) && fqns.contains(fqn),
        !scan.symbols.dom().contains(fqn),
    ensures
        at(i.files_removed(i.stale(scan, keep)).merged(scan).symbols, fqn) is None,
{
    let stale = i.stale(scan, keep);
    assert(stale.contains(path));
    assert(i.namespaces_of(stale).contains(ns));
    assert(i.symbols_of(i.namespaces_of(stale)).contains(fqn));
}

proof fn lemma_with_lib_symbols(
    m: Map<Seq<char>, SymbolView>,
    syms: Seq<SymbolView>,
    n: nat,
    fqn: Seq<char>,
)
    requires
        n <= syms.len(),
        forall|k: int| 0 <= k < syms.len() ==> !((#[trigger] syms[k]).source is Project),
    ensures
        (at(m, fqn) matches Some(s) && s.source is Project) ==> at(
            with_lib_symbols(m, syms, n),
            fqn,
        ) == at(m, fqn),
        !(at(m, fqn) matches Some(s) && s.source is Project) ==> {
            let now = at(with_lib_symbols(m, syms, n), fqn);
            &&& (exists|k: int| 0 <= k < n && (#[trigger] syms[k]).fqn == fqn) ==> exists|k: int|
                0 <= k < n && (#[trigger] syms[k]).fqn == fqn && now == Some(syms[k])
            &&& !(exists|k: int| 0 <= k < n && (#[trigger] syms[k]).fqn == fqn) ==> now == at(m, fqn)
        },
    decreases n,
{
    if n > 0 {
        lemma_with_lib_symbols(m, syms, (n - 1) as nat, fqn);
        let before = with_lib_symbols(m, syms, (n - 1) as nat);
        let s = syms[n - 1];
        if s.fqn == fqn && !(at(m, fqn) matches Some(t) && t.source is Project) {
            assert(at(with_lib_symbols(m, syms, n), fqn) == Some(syms[n - 1]));
        }
        if exists|k: int| 0 <= k < n - 1 && (#[trigger] syms[k]).fqn == fqn {
            let k = choose|k: int| 0 <= k < n - 1 && (#[trigger] syms[k]).fqn == fqn;
            assert(syms[k].fqn == fqn);
        }
    }
}

/// What a library defines can be looked up, where the project has neither the name nor the
/// namespace; its files do not become files of the project.
pub proof fn law_library_is_added(
    i: IndexView,
    meta: NsMetaView,
    syms: Seq<SymbolView>,
    fqn: Seq<char>,
)
    requires
        forall|k: int| 0 <= k < syms.len() ==> !((#[trigger] syms[k]).source is Project),
    ensures
        ({
            let j = i.lib_inserted(meta, syms);
            &&& j.occurrences == i.occurrences
            &&& i.owns_namespace(meta.name) ==> j == i
            &&& !i.owns_namespace(meta.name) ==> {
                &&& at(j.namespaces, meta.name) == Some(meta)
                &&& at(j.file_to_ns, meta.file) == Some(meta.name)
                &&& (at(j.symbols, fqn) matches Some(s) && s.source is Project) ==> at(
                    j.symbols,
                    fqn,
                ) == at(i.symbols, fqn)
                &&& (exists|k: int| 0 <= k < syms.len() && (#[trigger] syms[k]).fqn == fqn) ==> {
                    ||| at(i.symbols, fqn) matches Some(s) && s.source is Project && at(
                        j.symbols,
                        fqn,
                    ) == Some(s)
                    ||| exists|k: int|
                        0 <= k < syms.len() && (#[trigger] syms[k]).fqn == fqn && at(j.symbols, fqn)
                            == Some(syms[k])
                }
                &&& !(exists|k: int| 0 <= k < syms.len() && (#[trigger] syms[k]).fqn == fqn)
                    ==> at(j.symbols, fqn) == at(i.symbols, fqn)
            }
        }),
{
    lemma_with_lib_symbols(i.symbols, syms, syms.len(), fqn);
}

/// When the libraries are cleared, a namespace stays where one of its names is the project's, or
/// where it has none and stands in a file of the project.
pub proof fn law_project_namespaces_stay(i: IndexView, ns: Seq<char>, fqns: Seq<Seq<char>>)
    requires
        at(i.ns_symbols, ns) == Some(fqns),
        i.namespaces.dom().contains(ns),
    ensures
        (exists|k: int|
            0 <= k < fqns.len() && (at(i.symbols, #[trigger] fqns[k]) matches Some(s)
                && s.source is Project)) ==> at(i.libs_cleared().namespaces, ns) == at(
            i.namespaces,
            ns,
        ),
        fqns.len() > 0 && !(exists|k: int|
            0 <= k < fqns.len() && (at(i.symbols, #[trigger] fqns[k]) matches Some(s)
                && s.source is Project)) ==> at(i.libs_cleared().namespaces, ns) is None,
        fqns.len() == 0 ==> (at(i.libs_cleared().namespaces, ns) is Some <==> i.owns_namespace(ns)),
{
    let symbols = i.symbols.restrict(Set::new(|k: Seq<char>| i.symbols[k].source is Project));
    assert forall|k: int| 0 <= k < fqns.len() implies (symbols.dom().contains(#[trigger] fqns[k])
        <==> (at(i.symbols, fqns[k]) matches Some(s) && s.source is Project)) by {}
    if exists|k: int|
        0 <= k < fqns.len() && (at(i.symbols, #[trigger] fqns[k]) matches Some(s)
            && s.source is Project) {
        let k = choose|k: int|
            0 <= k < fqns.len() && (at(i.symbols, #[trigger] fqns[k]) matches Some(s)
                && s.source is Project);
        assert(symbols.dom().contains(fqns[k]));
        assert(i.keeps_namespace(symbols, ns));
    }
}

/// A configuration file has usages and no namespace that a name could stand in.
pub proof fn law_configuration_only_uses(
    i: IndexView,
    file: Seq<char>,
    occurrences: Seq<OccurrenceView>,
)
    ensures
        at(i.edn_inserted(file, occurrences).occurrences, file) == Some(occurrences),
        i.edn_inserted(file, occurrences).symbols == i.symbols,
        i.edn_inserted(file, occurrences).namespaces == i.namespaces,
        at(i.edn_inserted(file, occurrences).file_to_ns, file) is Some,
{
}

/// A name of the core library is looked up by its name, whatever stands around it.
pub proof fn law_core_names_are_looked_up(core: Seq<CoreSymbolView>, name: Seq<char>, from: nat)
    ensures
        core_named(core, name, from) is Some <==> exists|k: int|
            from <= k < core.len() && (#[trigger] core[k]).name == name,
        core_named(core, name, from) matches Some(s) ==> s.name == name && core.contains(s),
    decreases core.len() - from,
{
    if from < core.len() {
        if core[from as int].name == name {
            assert(core.contains(core[from as int]));
        } else {
            law_core_names_are_looked_up(core, name, from + 1);
        }
    }
}

}
