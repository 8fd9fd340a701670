//! What a Java interop form refers to: a class, a static member or a constructor of
//! the Java platform.

use vstd::prelude::*;
use crate::collect::{dict_get, Dict};
use crate::index::jdk::{class_named, ClassView, JdkIndex};
use crate::index::symbols::{at, Index, IndexView};
use crate::text::{
    chars_of, concat2, index_from, law_split_at_the_first, lemma_index_from, split_first, split_once,
    string_of,
};

verus! {

/// What an interop word refers to.
#[derive(Clone, Debug)]
pub struct JavaTarget {
    pub class_fqn: String,
    /// The method or field of a static member; `None` of a class or constructor.
    pub member: Option<String>,
    pub kind: JavaTargetKind,
}

/// The kind of thing that an interop word refers to.
#[derive(Clone, Copy, Debug, PartialEq, Eq, Structural)]
pub enum JavaTargetKind {
    /// A class: `String`, an imported `Instant`, `java.util.Date`.
    Class,
    /// A static member: `Math/sqrt`.
    StaticMember,
    /// A constructor: `(StringBuilder. …)`.
    Ctor,
}

/// What a [`JavaTarget`] says.
pub ghost struct TargetView {
    pub class_fqn: Seq<char>,
    pub member: Option<Seq<char>>,
    pub kind: JavaTargetKind,
}

impl DeepView for JavaTarget {
    type V = TargetView;

    open spec fn deep_view(&self) -> TargetView {
        TargetView {
            class_fqn: self.class_fqn@,
            member: self.member.deep_view(),
            kind: self.kind,
        }
    }
}

/// The class that `name` stands for: an imported one, then one named in full, then
/// one of `java.lang`.
pub open spec fn class_fqn_of(
    name: Seq<char>,
    imports: Seq<(Seq<char>, Seq<char>)>,
    classes: Seq<ClassView>,
) -> Option<Seq<char>> {
    let imported = dict_get(imports, name);
    let java_lang = "java.lang."@ + name;
    if imported is Some && class_named(classes, imported->0, 0) is Some {
        imported
    } else if index_from(name, '.', 0) is Some && class_named(classes, name, 0) is Some {
        Some(name)
    } else if class_named(classes, java_lang, 0) is Some {
        Some(java_lang)
    } else {
        None
    }
}

/// The class that `name` stands for.
pub fn resolve_class_fqn(name: &str, imports: &Dict<String>, jdk: &JdkIndex) -> (r: Option<String>)
    ensures
        r.deep_view() == class_fqn_of(name@, imports.deep_view(), jdk.deep_view().classes),
{
    if let Some(fqn) = imports.get(name) {
        if jdk.has_class(fqn.as_str()) {
            return Some(fqn.clone());
        }
    }
    if split_once(name, '.').is_some() && jdk.has_class(name) {
        return Some(name.to_owned());
    }
    let java_lang = concat2("java.lang.", name);
    if jdk.has_class(java_lang.as_str()) {
        return Some(java_lang);
    }
    None
}

/// What the namespace imports.
pub open spec fn imports_of(v: IndexView, ns: Seq<char>) -> Seq<(Seq<char>, Seq<char>)> {
    match at(v.namespaces, ns) {
        Some(meta) => meta.imports,
        None => Seq::empty(),
    }
}

/// The class that `name` stands for in the namespace.
pub open spec fn class_in(v: IndexView, name: Seq<char>, ns: Seq<char>) -> Option<Seq<char>> {
    match v.jdk {
        Some(jdk) => class_fqn_of(name, imports_of(v, ns), jdk.classes),
        None => None,
    }
}

/// The class that `name` stands for in the namespace `current_ns`.
pub fn resolve_class(index: &Index, name: &str, current_ns: &str) -> (r: Option<String>)
    ensures
        r.deep_view() == class_in(index@, name@, current_ns@),
{
    match index.jdk() {
        Some(jdk) => match index.ns_meta(current_ns) {
            Some(meta) => resolve_class_fqn(name, &meta.imports, jdk),
            None => resolve_class_fqn(name, &Dict::new(), jdk),
        },
        None => None,
    }
}

/// The target in a class that resolves.
pub open spec fn target_in(
    class_fqn: Option<Seq<char>>,
    member: Option<Seq<char>>,
    kind: JavaTargetKind,
) -> Option<TargetView> {
    match class_fqn {
        Some(class_fqn) => Some(TargetView { class_fqn, member, kind }),
        None => None,
    }
}

/// What an interop word refers to in the namespace.
pub open spec fn java_target(v: IndexView, word: Seq<char>, ns: Seq<char>) -> Option<TargetView> {
    if word.len() > 0 && word.last() == '.' {
        if word.len() == 1 {
            None
        } else {
            target_in(class_in(v, word.drop_last(), ns), None, JavaTargetKind::Ctor)
        }
    } else {
        match split_first(word, '/') {
            Some((class, member)) => if class.len() == 0 || member.len() == 0 || index_from(
                member,
                '/',
                0,
            ) is Some {
                None
            } else {
                target_in(class_in(v, class, ns), Some(member), JavaTargetKind::StaticMember)
            },
            None => target_in(class_in(v, word, ns), None, JavaTargetKind::Class),
        }
    }
}

fn target(class_fqn: Option<String>, member: Option<String>, kind: JavaTargetKind) -> (r: Option<
    JavaTarget,
>)
    ensures
        r.deep_view() == target_in(class_fqn.deep_view(), member.deep_view(), kind),
{
    match class_fqn {
        Some(class_fqn) => Some(JavaTarget { class_fqn, member, kind }),
        None => None,
    }
}

/// What an interop word refers to in the namespace `current_ns`; `None` where the
/// platform's sources are not indexed, or hold no such class.
pub fn resolve_java_word(index: &Index, word: &str, current_ns: &str) -> (r: Option<JavaTarget>)
    ensures
        r.deep_view() == java_target(index@, word@, current_ns@),
{
    let chars = chars_of(word);
    let n: usize = chars.len();
    if n > 0 && chars[n - 1] == '.' {
        if n == 1 {
            return None;
        }
        let class = string_of(&chars, 0, n - 1);
        assert(class@ =~= word@.drop_last());
        return target(
            resolve_class(index, class.as_str(), current_ns),
            None,
            JavaTargetKind::Ctor,
        );
    }
    match split_once(word, '/') {
        Some((class, member)) => {
            if class.as_str().is_empty() || member.as_str().is_empty() || split_once(
                member.as_str(),
                '/',
            ).is_some() {
                return None;
            }
            target(
                resolve_class(index, class.as_str(), current_ns),
                Some(member),
                JavaTargetKind::StaticMember,
            )
        },
        None => target(resolve_class(index, word, current_ns), None, JavaTargetKind::Class),
    }
}

/// An interop word never resolves where the platform's sources are not indexed, and
/// what it resolves to is a class of them.
pub proof fn law_java_targets_are_classes(v: IndexView, word: Seq<char>, ns: Seq<char>)
    ensures
        java_target(v, word, ns) matches Some(t) ==> v.jdk is Some && class_named(
            v.jdk->0.classes,
            t.class_fqn,
            0,
        ) is Some,
        java_target(v, word, ns) matches Some(t) ==> (t.member is Some <==> t.kind
            is StaticMember),
{
}

/// Whether the platform has the class.
pub open spec fn has_class(classes: Seq<ClassView>, fqn: Seq<char>) -> bool {
    exists|i: int| 0 <= i < classes.len() && (#[trigger] classes[i]).fqn == fqn
}

proof fn lemma_class_named(classes: Seq<ClassView>, fqn: Seq<char>, i: nat)
    ensures
        class_named(classes, fqn, i) is Some <==> exists|j: int|
            i <= j < classes.len() && (#[trigger] classes[j]).fqn == fqn,
    decreases classes.len() - i,
{
    if i < classes.len() {
        lemma_class_named(classes, fqn, i + 1);
        if exists|j: int| i <= j < classes.len() && (#[trigger] classes[j]).fqn == fqn {
            let j = choose|j: int| i <= j < classes.len() && (#[trigger] classes[j]).fqn == fqn;
            if j > i {
                assert(classes[j].fqn == fqn);
            }
        }
        if exists|j: int| i + 1 <= j < classes.len() && (#[trigger] classes[j]).fqn == fqn {
            let j = choose|j: int| i + 1 <= j < classes.len() && (#[trigger] classes[j]).fqn == fqn;
            assert(classes[j].fqn == fqn);
        }
        assert(classes[i as int].fqn == fqn ==> class_named(classes, fqn, i) is Some);
    }
}

/// A class name means what the namespace imports under it, else the class of that full
/// name, else the one of `java.lang`, each only where the platform has it.
pub proof fn law_imports_come_before_java_lang(
    v: IndexView,
    name: Seq<char>,
    ns: Seq<char>,
    classes: Seq<ClassView>,
)
    requires
        v.jdk matches Some(jdk) && jdk.classes == classes,
        v.namespaces.dom().contains(ns),
    ensures
        ({
            let imported = dict_get(v.namespaces[ns].imports, name);
            let java_lang = "java.lang."@ + name;
            &&& imported is Some && has_class(classes, imported->0) ==> class_in(v, name, ns)
                == imported
            &&& !(imported is Some && has_class(classes, imported->0)) && name.contains('.')
                && has_class(classes, name) ==> class_in(v, name, ns) == Some(name)
            &&& !(imported is Some && has_class(classes, imported->0)) && !(name.contains('.')
                && has_class(classes, name)) && has_class(classes, java_lang) ==> class_in(
                v,
                name,
                ns,
            ) == Some(java_lang)
            &&& class_in(v, name, ns) matches Some(fqn) ==> has_class(classes, fqn)
        }),
{
    let imported = dict_get(v.namespaces[ns].imports, name);
    lemma_index_from(name, '.', 0);
    if name.contains('.') {
        assert(name[name.index_of('.')] == '.');
    }
    if imported is Some {
        lemma_class_named(classes, imported->0, 0);
    }
    lemma_class_named(classes, name, 0);
    lemma_class_named(classes, "java.lang."@ + name, 0);
}

/// A class name that ends in a dot means its constructor, one in front of a slash a static
/// member of it, and one by itself the class.
pub proof fn law_notation_tells_the_target(
    v: IndexView,
    class: Seq<char>,
    member: Seq<char>,
    ns: Seq<char>,
    fqn: Seq<char>,
)
    requires
        class.len() > 0,
        !class.contains('/'),
        member.len() > 0,
        !member.contains('/'),
        member.last() != '.',
        class_in(v, class, ns) == Some(fqn),
    ensures
        class.last() != '.' ==> java_target(v, class, ns) == Some(
            TargetView { class_fqn: fqn, member: None, kind: JavaTargetKind::Class },
        ),
        java_target(v, class + seq!['.'], ns) == Some(
            TargetView { class_fqn: fqn, member: None, kind: JavaTargetKind::Ctor },
        ),
        java_target(v, class + seq!['/'] + member, ns) == Some(
            TargetView {
                class_fqn: fqn,
                member: Some(member),
                kind: JavaTargetKind::StaticMember,
            },
        ),
{
    law_split_at_the_first(class, '/', member);
    law_split_at_the_first(member, '/', seq![]);
    assert((class + seq!['.']).drop_last() =~= class);
    assert((class + seq!['/'] + member).last() == member.last());
}

}
