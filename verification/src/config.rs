//! Configuration layers: which instance stands behind an interface in which scope,
//! and which scope a component is built for.

use vstd::prelude::*;
use crate::assoc::{
    as_map, distinct_keys, lemma_as_map_empty, lemma_as_map_entry, lemma_as_map_finite,
    lemma_as_map_push, lemma_as_map_take, lemma_as_map_update,
};
use crate::text::{lowercase, to_lowercase};
use crate::types::{Architecture, ArchitectureView, Module, ModuleView};

verus! {

/// What a [`LibraryKey`] stands for in contracts.
pub struct LibraryKeyView {
    pub name: Seq<char>,
    pub arch: ArchitectureView,
    pub module: ModuleView,
}

/// An interface in a scope: the key under which an instance is declared.
#[derive(Debug, PartialEq, Eq, Hash)]
pub struct LibraryKey {
    /// The interface's name, in lowercase.
    pub name: String,
    pub arch: Architecture,
    pub module: Module,
}

impl View for LibraryKey {
    type V = LibraryKeyView;

    open spec fn view(&self) -> LibraryKeyView {
        LibraryKeyView { name: self.name@, arch: self.arch@, module: self.module@ }
    }
}

impl Clone for LibraryKey {
    fn clone(&self) -> (out: Self)
        ensures
            out@ == self@,
    {
        LibraryKey {
            name: self.name.clone(),
            arch: self.arch.clone(),
            module: self.module.clone(),
        }
    }
}

/// What a [`LibraryInstance`] stands for in contracts.
pub struct LibraryInstanceView {
    pub name: Seq<char>,
    pub path: Seq<char>,
}

/// The instance declared for an interface.
#[derive(Debug, PartialEq, Eq)]
pub struct LibraryInstance {
    /// The interface's name, in lowercase.
    pub name: String,
    /// The declaration as written: the instance's identifier, and after it, between
    /// `<` and `>`, the interfaces it requires.
    pub path: String,
}

impl View for LibraryInstance {
    type V = LibraryInstanceView;

    open spec fn view(&self) -> LibraryInstanceView {
        LibraryInstanceView { name: self.name@, path: self.path@ }
    }
}

impl Clone for LibraryInstance {
    fn clone(&self) -> (out: Self)
        ensures
            out@ == self@,
    {
        LibraryInstance { name: self.name.clone(), path: self.path.clone() }
    }
}

/// The declarations of a table as contracts see them: a map from key to instance.
pub type LibraryMap = Map<LibraryKeyView, LibraryInstanceView>;

/// The views of a table's entries, in the order in which they are kept.
pub open spec fn library_entries(entries: Seq<(LibraryKey, LibraryInstance)>) -> Seq<
    (LibraryKeyView, LibraryInstanceView),
> {
    Seq::new(entries.len(), |i: int| (entries[i].0@, entries[i].1@))
}

/// The key for `name` in a scope.
pub open spec fn key_of(name: Seq<char>, arch: ArchitectureView, module: ModuleView)
    -> LibraryKeyView {
    LibraryKeyView { name, arch, module }
}

/// The instance that a scoped lookup finds for the lowercase name `name`: the one
/// declared for the scope itself, else for the architecture with any module kind,
/// else for the module kind with any architecture, else for any scope.
pub open spec fn lookup(
    table: LibraryMap,
    name: Seq<char>,
    arch: ArchitectureView,
    module: ModuleView,
) -> Option<LibraryInstanceView> {
    if table.dom().contains(key_of(name, arch, module)) {
        Some(table[key_of(name, arch, module)])
    } else if table.dom().contains(key_of(name, arch, ModuleView::Common)) {
        Some(table[key_of(name, arch, ModuleView::Common)])
    } else if table.dom().contains(key_of(name, ArchitectureView::Common, module)) {
        Some(table[key_of(name, ArchitectureView::Common, module)])
    } else if table.dom().contains(key_of(name, ArchitectureView::Common, ModuleView::Common)) {
        Some(table[key_of(name, ArchitectureView::Common, ModuleView::Common)])
    } else {
        None
    }
}

/// The keys that a scoped lookup tries, the most specific first.
pub open spec fn search_order(name: Seq<char>, arch: ArchitectureView, module: ModuleView) -> Seq<
    LibraryKeyView,
> {
    seq![
        key_of(name, arch, module),
        key_of(name, arch, ModuleView::Common),
        key_of(name, ArchitectureView::Common, module),
        key_of(name, ArchitectureView::Common, ModuleView::Common),
    ]
}

/// A scoped lookup finds the declaration under the first key of the search order
/// that is declared, whatever is declared under the keys after it, and finds nothing
/// exactly where none of the keys is declared.
pub proof fn lemma_lookup_most_specific(
    table: LibraryMap,
    name: Seq<char>,
    arch: ArchitectureView,
    module: ModuleView,
)
    ensures
        forall|level: int|
            #![trigger search_order(name, arch, module)[level]]
            0 <= level < 4 && table.dom().contains(search_order(name, arch, module)[level]) && (
            forall|above: int|
                0 <= above < level ==> !table.dom().contains(
                    #[trigger] search_order(name, arch, module)[above],
                )) ==> lookup(table, name, arch, module) == Some(
                table[search_order(name, arch, module)[level]],
            ),
        lookup(table, name, arch, module) is None <==> (forall|level: int|
            0 <= level < 4 ==> !table.dom().contains(
                #[trigger] search_order(name, arch, module)[level],
            )),
{
    let order = search_order(name, arch, module);
    assert(order[0] == key_of(name, arch, module));
    assert(order[1] == key_of(name, arch, ModuleView::Common));
    assert(order[2] == key_of(name, ArchitectureView::Common, module));
    assert(order[3] == key_of(name, ArchitectureView::Common, ModuleView::Common));
}

/// The instances declared in one layer, each under its interface and scope.
#[derive(Debug)]
pub struct LibraryInstances {
    instances: Vec<(LibraryKey, LibraryInstance)>,
}

impl View for LibraryInstances {
    type V = LibraryMap;

    closed spec fn view(&self) -> LibraryMap {
        as_map(library_entries(self.instances@))
    }
}

impl LibraryInstances {
    /// No key is declared twice.
    #[verifier::type_invariant]
    spec fn keys_are_distinct(&self) -> bool {
        distinct_keys(library_entries(self.instances@))
    }

    /// A table holds finitely many declarations.
    pub proof fn lemma_finite(&self)
        ensures
            self@.dom().finite(),
    {
        lemma_as_map_finite(library_entries(self.instances@));
    }

    /// A table without declarations.
    pub fn new() -> (out: LibraryInstances)
        ensures
            out@ == LibraryMap::empty(),
    {
        let out = LibraryInstances { instances: Vec::new() };
        proof {
            lemma_as_map_empty::<LibraryKeyView, LibraryInstanceView>();
        }
        out
    }

    /// The place at which the key made of the three parts is kept, if it is declared.
    fn place(&self, name: &String, arch: &Architecture, module: &Module) -> (out: Option<usize>)
        ensures
            match out {
                Some(i) => {
                    &&& i < self.instances.len()
                    &&& self.instances[i as int].0@ == key_of(name@, arch@, module@)
                    &&& self@.dom().contains(key_of(name@, arch@, module@))
                    &&& self@[key_of(name@, arch@, module@)] == self.instances[i as int].1@
                },
                None => !self@.dom().contains(key_of(name@, arch@, module@)),
            },
    {
        proof {
            use_type_invariant(self);
        }
        let mut i: usize = 0;
        while i < self.instances.len()
            invariant
                i <= self.instances.len(),
                distinct_keys(library_entries(self.instances@)),
                forall|j: int|
                    0 <= j < i ==> (#[trigger] library_entries(self.instances@)[j]).0 != key_of(
                        name@,
                        arch@,
                        module@,
                    ),
            decreases self.instances.len() - i,
        {
            let key = &self.instances[i].0;
            if key.name == *name && key.arch.same(arch) && key.module.same(module) {
                proof {
                    lemma_as_map_entry(library_entries(self.instances@), i as int);
                }
                return Some(i);
            }
            i = i + 1;
        }
        None
    }

    /// The instance declared under exactly this name and scope, where `name` is in
    /// lowercase.
    pub fn lookup_key(&self, name: &String, arch: &Architecture, module: &Module) -> (out: Option<
        LibraryInstance,
    >)
        ensures
            match self@.get(key_of(name@, arch@, module@)) {
                Some(found) => out matches Some(o) && o@ == found,
                None => out is None,
            },
    {
        match self.place(name, arch, module) {
            Some(i) => {
                proof {
                    use_type_invariant(self);
                    lemma_as_map_entry(library_entries(self.instances@), i as int);
                }
                Some(self.instances[i].1.clone())
            },
            None => None,
        }
    }

    /// Declares `instance` under `key`; an earlier declaration under the same key is
    /// replaced.
    pub fn insert(&mut self, key: LibraryKey, instance: LibraryInstance)
        ensures
            final(self)@ == old(self)@.insert(key@, instance@),
    {
        proof {
            use_type_invariant(&*self);
        }
        let ghost before = library_entries(self.instances@);
        let place = self.place(&key.name, &key.arch, &key.module);
        let mut entries: Vec<(LibraryKey, LibraryInstance)> = Vec::new();
        std::mem::swap(&mut self.instances, &mut entries);
        match place {
            Some(i) => {
                proof {
                    lemma_as_map_update(before, i as int, instance@);
                }
                entries.set(i, (key, instance));
                assert(library_entries(entries@) =~= before.update(
                    i as int,
                    (before[i as int].0, instance@),
                ));
            },
            None => {
                proof {
                    lemma_as_map_push(before, key@, instance@);
                }
                entries.push((key, instance));
                assert(library_entries(entries@) =~= before.push((key@, instance@)));
            },
        }
        self.instances = entries;
    }

    /// Declares the instance `path` for the lowercase name `name` in a scope.
    pub fn declare_lowercase(
        &mut self,
        name: String,
        arch: Architecture,
        module: Module,
        path: String,
    )
        ensures
            final(self)@ == old(self)@.insert(
                key_of(name@, arch@, module@),
                LibraryInstanceView { name: name@, path: path@ },
            ),
    {
        let key = LibraryKey { name: name.clone(), arch, module };
        self.insert(key, LibraryInstance { name, path });
    }

    /// Declares the instance `path` for the interface `name` in a scope. The name
    /// is kept in lowercase.
    pub fn declare(&mut self, name: &str, arch: Architecture, module: Module, path: String)
        ensures
            final(self)@ == old(self)@.insert(
                key_of(lowercase(name@), arch@, module@),
                LibraryInstanceView { name: lowercase(name@), path: path@ },
            ),
    {
        let lowered = to_lowercase(name);
        let key = LibraryKey { name: lowered.clone(), arch, module };
        self.insert(key, LibraryInstance { name: lowered, path });
    }

    /// Looks `name`, given in lowercase, up in a scope: the most specific
    /// declaration that covers the scope is the one found.
    pub fn find(&self, name: &String, arch: &Architecture, module: &Module) -> (out: Option<
        LibraryInstance,
    >)
        ensures
            match lookup(self@, name@, arch@, module@) {
                Some(found) => out matches Some(o) && o@ == found,
                None => out is None,
            },
    {
        let any_arch = Architecture::Common;
        let any_module = Module::Common;
        if let Some(found) = self.lookup_key(name, arch, module) {
            return Some(found);
        }
        if let Some(found) = self.lookup_key(name, arch, &any_module) {
            return Some(found);
        }
        if let Some(found) = self.lookup_key(name, &any_arch, module) {
            return Some(found);
        }
        self.lookup_key(name, &any_arch, &any_module)
    }

    /// Looks the interface `name` up in a scope, whatever the case it is written in.
    pub fn get(&self, name: &str, arch: &Architecture, module: &Module) -> (out: Option<
        LibraryInstance,
    >)
        ensures
            match lookup(self@, lowercase(name@), arch@, module@) {
                Some(found) => out matches Some(o) && o@ == found,
                None => out is None,
            },
    {
        let lowered = to_lowercase(name);
        self.find(&lowered, arch, module)
    }

    /// Takes over the declarations of `other`; where both declare a key, that of
    /// `other` stands.
    pub fn merge(&mut self, other: LibraryInstances)
        ensures
            final(self)@ == old(self)@.union_prefer_right(other@),
    {
        proof {
            use_type_invariant(&other);
        }
        let ghost theirs = library_entries(other.instances@);
        let mut i: usize = 0;
        while i < other.instances.len()
            invariant
                i <= other.instances.len(),
                theirs == library_entries(other.instances@),
                distinct_keys(theirs),
                self@ == old(self)@.union_prefer_right(as_map(theirs.take(i as int))),
            decreases other.instances.len() - i,
        {
            proof {
                lemma_as_map_take(theirs, i as int);
            }
            self.insert(other.instances[i].0.clone(), other.instances[i].1.clone());
            i = i + 1;
        }
        assert(theirs.take(theirs.len() as int) =~= theirs);
    }

    /// Takes over the declarations of `lower` under the keys that are not declared
    /// here; what is declared here stays.
    pub fn fill(&mut self, lower: &LibraryInstances)
        ensures
            final(self)@ == lower@.union_prefer_right(old(self)@),
    {
        proof {
            use_type_invariant(lower);
        }
        let ghost theirs = library_entries(lower.instances@);
        let mut i: usize = 0;
        while i < lower.instances.len()
            invariant
                i <= lower.instances.len(),
                theirs == library_entries(lower.instances@),
                distinct_keys(theirs),
                self@ == as_map(theirs.take(i as int)).union_prefer_right(old(self)@),
            decreases lower.instances.len() - i,
        {
            proof {
                lemma_as_map_take(theirs, i as int);
            }
            let key = &lower.instances[i].0;
            if self.place(&key.name, &key.arch, &key.module).is_none() {
                self.insert(key.clone(), lower.instances[i].1.clone());
            }
            i = i + 1;
        }
        assert(theirs.take(theirs.len() as int) =~= theirs);
    }

    /// The declarations, each key once, as a list.
    pub fn entries(&self) -> (out: Vec<(LibraryKey, LibraryInstance)>)
        ensures
            distinct_keys(library_entries(out@)),
            as_map(library_entries(out@)) == self@,
    {
        proof {
            use_type_invariant(self);
        }
        let mut out: Vec<(LibraryKey, LibraryInstance)> = Vec::new();
        let mut i: usize = 0;
        while i < self.instances.len()
            invariant
                i <= self.instances.len(),
                library_entries(out@) == library_entries(self.instances@).take(i as int),
            decreases self.instances.len() - i,
        {
            let ghost before = library_entries(out@);
            let key = self.instances[i].0.clone();
            let instance = self.instances[i].1.clone();
            out.push((key, instance));
            assert(library_entries(out@) =~= before.push((key@, instance@)));
            i = i + 1;
        }
        assert(library_entries(self.instances@).take(self.instances.len() as int)
            =~= library_entries(self.instances@));
        out
    }
}

/// What a [`ComponentInstance`] stands for in contracts.
pub struct ComponentInstanceView {
    pub arch: ArchitectureView,
    pub module: ModuleView,
}

/// The scope a component is built for.
#[derive(Debug, PartialEq, Eq)]
pub struct ComponentInstance {
    pub arch: Architecture,
    pub module: Module,
}

impl View for ComponentInstance {
    type V = ComponentInstanceView;

    open spec fn view(&self) -> ComponentInstanceView {
        ComponentInstanceView { arch: self.arch@, module: self.module@ }
    }
}

impl Clone for ComponentInstance {
    fn clone(&self) -> (out: Self)
        ensures
            out@ == self@,
    {
        ComponentInstance { arch: self.arch.clone(), module: self.module.clone() }
    }
}

/// The scopes of a table as contracts see them: a map from a component's lowercase
/// name to its scope.
pub type ComponentMap = Map<Seq<char>, ComponentInstanceView>;

/// The views of a table's entries, in the order in which they are kept.
pub open spec fn component_entries(entries: Seq<(String, ComponentInstance)>) -> Seq<
    (Seq<char>, ComponentInstanceView),
> {
    Seq::new(entries.len(), |i: int| (entries[i].0@, entries[i].1@))
}

/// The scopes declared in one layer, each under its component's name.
#[derive(Debug)]
pub struct ComponentInstances {
    instances: Vec<(String, ComponentInstance)>,
}

impl View for ComponentInstances {
    type V = ComponentMap;

    closed spec fn view(&self) -> ComponentMap {
        as_map(component_entries(self.instances@))
    }
}

impl ComponentInstances {
    /// No component is declared twice.
    #[verifier::type_invariant]
    spec fn names_are_distinct(&self) -> bool {
        distinct_keys(component_entries(self.instances@))
    }

    /// A table holds finitely many components.
    pub proof fn lemma_finite(&self)
        ensures
            self@.dom().finite(),
    {
        lemma_as_map_finite(component_entries(self.instances@));
    }

    /// A table without components.
    pub fn new() -> (out: ComponentInstances)
        ensures
            out@ == ComponentMap::empty(),
    {
        let out = ComponentInstances { instances: Vec::new() };
        proof {
            lemma_as_map_empty::<Seq<char>, ComponentInstanceView>();
        }
        out
    }

    /// The place at which `name` is kept, if it is declared.
    fn place(&self, name: &String) -> (out: Option<usize>)
        ensures
            match out {
                Some(i) => {
                    &&& i < self.instances.len()
                    &&& self.instances[i as int].0@ == name@
                    &&& self@.dom().contains(name@)
                    &&& self@[name@] == self.instances[i as int].1@
                },
                None => !self@.dom().contains(name@),
            },
    {
        proof {
            use_type_invariant(self);
        }
        let mut i: usize = 0;
        while i < self.instances.len()
            invariant
                i <= self.instances.len(),
                distinct_keys(component_entries(self.instances@)),
                forall|j: int|
                    0 <= j < i ==> (#[trigger] component_entries(self.instances@)[j]).0 != name@,
            decreases self.instances.len() - i,
        {
            if self.instances[i].0 == *name {
                proof {
                    lemma_as_map_entry(component_entries(self.instances@), i as int);
                }
                return Some(i);
            }
            i = i + 1;
        }
        None
    }

    /// Declares `instance` as the scope of the component `name`, given in
    /// lowercase; an earlier declaration of the component is replaced.
    pub fn insert(&mut self, name: String, instance: ComponentInstance)
        ensures
            final(self)@ == old(self)@.insert(name@, instance@),
    {
        proof {
            use_type_invariant(&*self);
        }
        let ghost before = component_entries(self.instances@);
        let place = self.place(&name);
        let mut entries: Vec<(String, ComponentInstance)> = Vec::new();
        std::mem::swap(&mut self.instances, &mut entries);
        match place {
            Some(i) => {
                proof {
                    lemma_as_map_update(before, i as int, instance@);
                }
                entries.set(i, (name, instance));
                assert(component_entries(entries@) =~= before.update(
                    i as int,
                    (before[i as int].0, instance@),
                ));
            },
            None => {
                proof {
                    lemma_as_map_push(before, name@, instance@);
                }
                entries.push((name, instance));
                assert(component_entries(entries@) =~= before.push((name@, instance@)));
            },
        }
        self.instances = entries;
    }

    /// Declares the scope of the component `name`. The name is kept in lowercase.
    pub fn bind(&mut self, name: &str, instance: ComponentInstance)
        ensures
            final(self)@ == old(self)@.insert(lowercase(name@), instance@),
    {
        self.insert(to_lowercase(name), instance);
    }

    /// The scope declared for the component `name`, whatever the case it is
    /// written in.
    pub fn get(&self, name: &str) -> (out: Option<ComponentInstance>)
        ensures
            match self@.get(lowercase(name@)) {
                Some(found) => out matches Some(o) && o@ == found,
                None => out is None,
            },
    {
        let lowered = to_lowercase(name);
        match self.place(&lowered) {
            Some(i) => Some(self.instances[i].1.clone()),
            None => None,
        }
    }

    /// Takes over the scopes of `other`; where both declare a component, the scope
    /// of `other` stands.
    pub fn merge(&mut self, other: ComponentInstances)
        ensures
            final(self)@ == old(self)@.union_prefer_right(other@),
    {
        proof {
            use_type_invariant(&other);
        }
        let ghost theirs = component_entries(other.instances@);
        let mut i: usize = 0;
        while i < other.instances.len()
            invariant
                i <= other.instances.len(),
                theirs == component_entries(other.instances@),
                distinct_keys(theirs),
                self@ == old(self)@.union_prefer_right(as_map(theirs.take(i as int))),
            decreases other.instances.len() - i,
        {
            proof {
                lemma_as_map_take(theirs, i as int);
            }
            self.insert(other.instances[i].0.clone(), other.instances[i].1.clone());
            i = i + 1;
        }
        assert(theirs.take(theirs.len() as int) =~= theirs);
    }

    /// Takes over the scopes of `lower` for the components that are not declared
    /// here; what is declared here stays.
    pub fn fill(&mut self, lower: &ComponentInstances)
        ensures
            final(self)@ == lower@.union_prefer_right(old(self)@),
    {
        proof {
            use_type_invariant(lower);
        }
        let ghost theirs = component_entries(lower.instances@);
        let mut i: usize = 0;
        while i < lower.instances.len()
            invariant
                i <= lower.instances.len(),
                theirs == component_entries(lower.instances@),
                distinct_keys(theirs),
                self@ == as_map(theirs.take(i as int)).union_prefer_right(old(self)@),
            decreases lower.instances.len() - i,
        {
            proof {
                lemma_as_map_take(theirs, i as int);
            }
            if self.place(&lower.instances[i].0).is_none() {
                self.insert(lower.instances[i].0.clone(), lower.instances[i].1.clone());
            }
            i = i + 1;
        }
        assert(theirs.take(theirs.len() as int) =~= theirs);
    }

    /// The scopes, each component once, as a list.
    pub fn entries(&self) -> (out: Vec<(String, ComponentInstance)>)
        ensures
            distinct_keys(component_entries(out@)),
            as_map(component_entries(out@)) == self@,
    {
        proof {
            use_type_invariant(self);
        }
        let mut out: Vec<(String, ComponentInstance)> = Vec::new();
        let mut i: usize = 0;
        while i < self.instances.len()
            invariant
                i <= self.instances.len(),
                component_entries(out@) == component_entries(self.instances@).take(i as int),
            decreases self.instances.len() - i,
        {
            let ghost before = component_entries(out@);
            let name = self.instances[i].0.clone();
            let instance = self.instances[i].1.clone();
            out.push((name, instance));
            assert(component_entries(out@) =~= before.push((name@, instance@)));
            i = i + 1;
        }
        assert(component_entries(self.instances@).take(self.instances.len() as int)
            =~= component_entries(self.instances@));
        out
    }
}

} // verus!
