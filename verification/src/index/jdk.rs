//! The classes of the Java platform, as its sources declare them.

use vstd::prelude::*;
use crate::collect::{push_str, strs};
use crate::handlers::matching::has_prefix;
use crate::lsp::Range;
use crate::text::{rsplit_once, split_last, str_eq};

verus! {

/// A method or a field of a class.
#[derive(Clone, Debug)]
pub struct JavaMember {
    pub name: String,
    pub is_static: bool,
    pub return_type: Option<String>,
    pub params: Vec<String>,
    pub javadoc: Option<String>,
    pub name_range: Range,
}

/// A constructor of a class.
#[derive(Clone, Debug)]
pub struct JavaCtor {
    pub params: Vec<String>,
    pub javadoc: Option<String>,
    pub name_range: Range,
}

/// A class.
#[derive(Clone, Debug)]
pub struct JavaClassInfo {
    pub fqn: String,
    /// The source file in the archive.
    pub entry: String,
    pub decl_name_range: Range,
    pub extends: Option<String>,
    pub implements: Vec<String>,
    pub javadoc: Option<String>,
    pub methods: Vec<JavaMember>,
    pub fields: Vec<JavaMember>,
    pub ctors: Vec<JavaCtor>,
}

/// The classes of an archive of sources.
#[derive(Clone, Debug)]
pub struct JdkIndex {
    pub src_zip: String,
    pub classes: Vec<JavaClassInfo>,
}

/// What a [`JavaMember`] says.
pub ghost struct MemberView {
    pub name: Seq<char>,
    pub is_static: bool,
    pub return_type: Option<Seq<char>>,
    pub params: Seq<Seq<char>>,
    pub javadoc: Option<Seq<char>>,
    pub name_range: Range,
}

/// What a [`JavaCtor`] says.
pub ghost struct CtorView {
    pub params: Seq<Seq<char>>,
    pub javadoc: Option<Seq<char>>,
    pub name_range: Range,
}

/// What a [`JavaClassInfo`] says.
pub ghost struct ClassView {
    pub fqn: Seq<char>,
    pub entry: Seq<char>,
    pub decl_name_range: Range,
    pub extends: Option<Seq<char>>,
    pub implements: Seq<Seq<char>>,
    pub javadoc: Option<Seq<char>>,
    pub methods: Seq<MemberView>,
    pub fields: Seq<MemberView>,
    pub ctors: Seq<CtorView>,
}

/// What a [`JdkIndex`] says.
pub ghost struct JdkView {
    pub src_zip: Seq<char>,
    pub classes: Seq<ClassView>,
}

impl DeepView for JavaMember {
    type V = MemberView;

    open spec fn deep_view(&self) -> MemberView {
        MemberView {
            name: self.name@,
            is_static: self.is_static,
            return_type: self.return_type.deep_view(),
            params: strs(self.params@),
            javadoc: self.javadoc.deep_view(),
            name_range: self.name_range,
        }
    }
}

impl DeepView for JavaCtor {
    type V = CtorView;

    open spec fn deep_view(&self) -> CtorView {
        CtorView {
            params: strs(self.params@),
            javadoc: self.javadoc.deep_view(),
            name_range: self.name_range,
        }
    }
}

impl DeepView for JavaClassInfo {
    type V = ClassView;

    open spec fn deep_view(&self) -> ClassView {
        ClassView {
            fqn: self.fqn@,
            entry: self.entry@,
            decl_name_range: self.decl_name_range,
            extends: self.extends.deep_view(),
            implements: strs(self.implements@),
            javadoc: self.javadoc.deep_view(),
            methods: self.methods.deep_view(),
            fields: self.fields.deep_view(),
            ctors: self.ctors.deep_view(),
        }
    }
}

impl DeepView for JdkIndex {
    type V = JdkView;

    open spec fn deep_view(&self) -> JdkView {
        JdkView { src_zip: self.src_zip@, classes: self.classes.deep_view() }
    }
}

/// The first of the classes, from `i` on, that has the name.
pub open spec fn class_named(classes: Seq<ClassView>, fqn: Seq<char>, i: nat) -> Option<ClassView>
    decreases classes.len() - i,
{
    if i >= classes.len() {
        None
    } else if classes[i as int].fqn == fqn {
        Some(classes[i as int])
    } else {
        class_named(classes, fqn, i + 1)
    }
}

/// The last part of a dotted name.
pub open spec fn simple_name_of(fqn: Seq<char>) -> Seq<char> {
    match split_last(fqn, '.') {
        Some((_, simple)) => simple,
        None => fqn,
    }
}

/// The last part of a dotted name.
pub fn simple_name(fqn: &str) -> (r: String)
    ensures
        r@ == simple_name_of(fqn@),
{
    match rsplit_once(fqn, '.') {
        Some((_, simple)) => simple,
        None => fqn.to_owned(),
    }
}

/// The names of the first `n` classes whose simple names start with `prefix`.
pub open spec fn names_with_prefix(classes: Seq<ClassView>, prefix: Seq<char>, n: nat) -> Seq<
    Seq<char>,
>
    decreases n,
{
    if n == 0 {
        seq![]
    } else {
        let before = names_with_prefix(classes, prefix, (n - 1) as nat);
        if prefix.is_prefix_of(simple_name_of(classes[n - 1].fqn)) {
            before.push(classes[n - 1].fqn)
        } else {
            before
        }
    }
}

impl JdkIndex {
    /// The class `fqn`.
    pub fn class(&self, fqn: &str) -> (r: Option<&JavaClassInfo>)
        ensures
            match r {
                Some(c) => class_named(self.deep_view().classes, fqn@, 0) == Some(c.deep_view()),
                None => class_named(self.deep_view().classes, fqn@, 0) is None,
            },
    {
        let ghost all = self.classes.deep_view();
        let mut i: usize = 0;
        while i < self.classes.len()
            invariant
                i <= self.classes@.len(),
                all == self.classes.deep_view(),
                class_named(all, fqn@, 0) == class_named(all, fqn@, i as nat),
            decreases self.classes@.len() - i,
        {
            assert(all[i as int] == self.classes@[i as int].deep_view());
            if str_eq(self.classes[i].fqn.as_str(), fqn) {
                return Some(&self.classes[i]);
            }
            i += 1;
        }
        None
    }

    /// Whether there is a class `fqn`.
    pub fn has_class(&self, fqn: &str) -> (r: bool)
        ensures
            r == (class_named(self.deep_view().classes, fqn@, 0) is Some),
    {
        self.class(fqn).is_some()
    }

    /// The names of the classes whose simple names start with `prefix`.
    pub fn class_names_with_prefix(&self, prefix: &str) -> (r: Vec<String>)
        ensures
            strs(r@) == names_with_prefix(
                self.deep_view().classes,
                prefix@,
                self.deep_view().classes.len(),
            ),
    {
        let ghost all = self.classes.deep_view();
        let mut out: Vec<String> = Vec::new();
        assert(strs(out@) =~= Seq::empty());
        let mut i: usize = 0;
        while i < self.classes.len()
            invariant
                i <= self.classes@.len(),
                all == self.classes.deep_view(),
                strs(out@) == names_with_prefix(all, prefix@, i as nat),
            decreases self.classes@.len() - i,
        {
            assert(all[i as int] == self.classes@[i as int].deep_view());
            let simple = simple_name(self.classes[i].fqn.as_str());
            if has_prefix(simple.as_str(), prefix) {
                push_str(&mut out, self.classes[i].fqn.clone());
            }
            i += 1;
        }
        out
    }
}

/// The classes for what is typed are those whose simple name starts with it.
pub proof fn law_classes_start_with_the_prefix(
    classes: Seq<ClassView>,
    prefix: Seq<char>,
    n: nat,
    fqn: Seq<char>,
)
    requires
        n <= classes.len(),
    ensures
        names_with_prefix(classes, prefix, n).contains(fqn) <==> prefix.is_prefix_of(
            simple_name_of(fqn),
        ) && exists|k: int| 0 <= k < n && (#[trigger] classes[k]).fqn == fqn,
    decreases n,
{
    if n > 0 {
        law_classes_start_with_the_prefix(classes, prefix, (n - 1) as nat, fqn);
        crate::sort::lemma_push_contains(
            names_with_prefix(classes, prefix, (n - 1) as nat),
            classes[n - 1].fqn,
            fqn,
        );
    } else {
        assert(names_with_prefix(classes, prefix, n) =~= seq![]);
    }
}

}
