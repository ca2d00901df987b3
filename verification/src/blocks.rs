//! Blocks of declarations: how one block of a source becomes entries of a table.

use vstd::prelude::*;
use crate::assoc::{lemma_take_contains, views};
use crate::config::{
    ComponentInstance, ComponentInstanceView, ComponentInstances, ComponentMap,
    LibraryInstanceView, LibraryInstances, LibraryKeyView, LibraryMap,
};
use crate::source::{
    entries_view, items_view, lemma_list_view, ParseError, ParseErrorView, SourceValue,
    SourceValueView,
};
use crate::text::{lowercase, to_lowercase};
use crate::types::{
    architecture_from, module_from, Architecture, ArchitectureView, Module, ModuleView,
};

verus! {

/// The architectures that a list of source values declares, or the error of the
/// first value that declares none.
pub open spec fn architectures_of(items: Seq<SourceValueView>) -> Result<
    Seq<ArchitectureView>,
    ParseErrorView,
>
    decreases items.len(),
{
    if items.len() == 0 {
        Ok(Seq::empty())
    } else {
        match architectures_of(items.drop_last()) {
            Err(e) => Err(e),
            Ok(front) => match architecture_from(items.last()) {
                Err(e) => Err(e),
                Ok(a) => Ok(front.push(a)),
            },
        }
    }
}

/// The module kinds that a list of source values declares, or the error of the
/// first value that declares none.
pub open spec fn modules_of(items: Seq<SourceValueView>) -> Result<
    Seq<ModuleView>,
    ParseErrorView,
>
    decreases items.len(),
{
    if items.len() == 0 {
        Ok(Seq::empty())
    } else {
        match modules_of(items.drop_last()) {
            Err(e) => Err(e),
            Ok(front) => match module_from(items.last()) {
                Err(e) => Err(e),
                Ok(m) => Ok(front.push(m)),
            },
        }
    }
}

/// What a block of libraries says, read entry by entry.
pub struct LibraryBlock {
    /// The architectures of the entry `arch` that stands last; none where there is
    /// no such entry.
    pub archs: Seq<ArchitectureView>,
    /// The module kinds of the entry `module` that stands last; none where there
    /// is no such entry.
    pub modules: Seq<ModuleView>,
    /// The other entries in order: an interface's name as written, and its
    /// declaration.
    pub libraries: Seq<(Seq<char>, Seq<char>)>,
}

/// What the entry `key = value` adds to what a block of libraries said so far. A key
/// is `arch` or `module` whatever its case; every other key names an interface.
pub open spec fn library_entry(block: LibraryBlock, key: Seq<char>, value: SourceValueView)
    -> Result<LibraryBlock, ParseErrorView> {
    if lowercase(key) == "arch"@ {
        match value {
            SourceValueView::List(items) => match architectures_of(items) {
                Ok(archs) => Ok(LibraryBlock { archs, ..block }),
                Err(e) => Err(e),
            },
            _ => Err(ParseErrorView::ArchitecturesNotList),
        }
    } else if lowercase(key) == "module"@ {
        match value {
            SourceValueView::List(items) => match modules_of(items) {
                Ok(modules) => Ok(LibraryBlock { modules, ..block }),
                Err(e) => Err(e),
            },
            _ => Err(ParseErrorView::ModulesNotList),
        }
    } else {
        match value {
            SourceValueView::Text(path) => Ok(
                LibraryBlock { libraries: block.libraries.push((key, path)), ..block },
            ),
            _ => Err(ParseErrorView::InstanceNotText(key)),
        }
    }
}

/// What a block of libraries says, or the error of its first malformed entry.
pub open spec fn read_library_block(entries: Seq<(Seq<char>, SourceValueView)>) -> Result<
    LibraryBlock,
    ParseErrorView,
>
    decreases entries.len(),
{
    if entries.len() == 0 {
        Ok(LibraryBlock { archs: Seq::empty(), modules: Seq::empty(), libraries: Seq::empty() })
    } else {
        match read_library_block(entries.drop_last()) {
            Err(e) => Err(e),
            Ok(block) => library_entry(block, entries.last().0, entries.last().1),
        }
    }
}

/// `base` with the instance `path` declared for `name` in every scope made of one of
/// `archs` and one of `modules`.
pub open spec fn declared(
    base: LibraryMap,
    name: Seq<char>,
    path: Seq<char>,
    archs: Seq<ArchitectureView>,
    modules: Seq<ModuleView>,
) -> LibraryMap {
    Map::new(
        |k: LibraryKeyView|
            base.dom().contains(k) || (k.name == name && archs.contains(k.arch)
                && modules.contains(k.module)),
        |k: LibraryKeyView|
            if k.name == name && archs.contains(k.arch) && modules.contains(k.module) {
                LibraryInstanceView { name, path }
            } else {
                base[k]
            },
    )
}

/// The table that the declarations `libraries` make in the given scopes: each is
/// declared under its lowercase name, a later one over an earlier one.
pub open spec fn declarations(
    archs: Seq<ArchitectureView>,
    modules: Seq<ModuleView>,
    libraries: Seq<(Seq<char>, Seq<char>)>,
) -> LibraryMap
    decreases libraries.len(),
{
    if libraries.len() == 0 {
        Map::empty()
    } else {
        declared(
            declarations(archs, modules, libraries.drop_last()),
            lowercase(libraries.last().0),
            libraries.last().1,
            archs,
            modules,
        )
    }
}

/// The lowercase name of the `i`-th of `libraries`.
pub open spec fn name_at(libraries: Seq<(Seq<char>, Seq<char>)>, i: int) -> Seq<char> {
    lowercase(libraries[i].0)
}

/// Whether one of `libraries` has the lowercase name `name`.
pub open spec fn names_library(libraries: Seq<(Seq<char>, Seq<char>)>, name: Seq<char>) -> bool {
    exists|i: int| 0 <= i < libraries.len() && #[trigger] name_at(libraries, i) == name
}

/// The declarations made in scopes are the product of the scopes and the libraries:
/// a key is declared exactly where its architecture and its module kind are among
/// the scopes' and a library has its name.
pub proof fn lemma_declarations_are_a_product(
    archs: Seq<ArchitectureView>,
    modules: Seq<ModuleView>,
    libraries: Seq<(Seq<char>, Seq<char>)>,
    key: LibraryKeyView,
)
    ensures
        declarations(archs, modules, libraries).dom().contains(key) <==> (archs.contains(key.arch)
            && modules.contains(key.module) && names_library(libraries, key.name)),
    decreases libraries.len(),
{
    if libraries.len() > 0 {
        let front = libraries.drop_last();
        let last = libraries.len() - 1;
        lemma_declarations_are_a_product(archs, modules, front, key);
        if names_library(front, key.name) {
            let i = choose|i: int| 0 <= i < front.len() && #[trigger] name_at(front, i) == key.name;
            assert(name_at(libraries, i) == key.name);
        }
        if names_library(libraries, key.name) {
            let i = choose|i: int|
                0 <= i < libraries.len() && #[trigger] name_at(libraries, i) == key.name;
            if i < last {
                assert(name_at(front, i) == key.name);
            }
        }
        if name_at(libraries, last) == key.name {
            assert(names_library(libraries, key.name));
        }
    }
}

/// A declared key has the declaration of the last library of its name.
pub proof fn lemma_last_declaration_stands(
    archs: Seq<ArchitectureView>,
    modules: Seq<ModuleView>,
    libraries: Seq<(Seq<char>, Seq<char>)>,
    key: LibraryKeyView,
    i: int,
)
    requires
        archs.contains(key.arch),
        modules.contains(key.module),
        0 <= i < libraries.len(),
        name_at(libraries, i) == key.name,
        forall|j: int| i < j < libraries.len() ==> #[trigger] name_at(libraries, j) != key.name,
    ensures
        declarations(archs, modules, libraries).dom().contains(key),
        declarations(archs, modules, libraries)[key] == (LibraryInstanceView {
            name: key.name,
            path: libraries[i].1,
        }),
    decreases libraries.len(),
{
    let front = libraries.drop_last();
    let last = libraries.len() - 1;
    if i < last {
        assert(name_at(libraries, last) != key.name);
        assert forall|j: int| i < j < front.len() implies #[trigger] name_at(front, j)
            != key.name by {
            assert(name_at(libraries, j) != key.name);
        }
        lemma_last_declaration_stands(archs, modules, front, key, i);
    }
}

/// The architectures a block stands for: those it lists, or `Common` alone where it
/// lists none.
pub open spec fn block_archs(block: LibraryBlock) -> Seq<ArchitectureView> {
    if block.archs.len() == 0 {
        seq![ArchitectureView::Common]
    } else {
        block.archs
    }
}

/// The module kinds a block stands for: those it lists, or `Common` alone where it
/// lists none.
pub open spec fn block_modules(block: LibraryBlock) -> Seq<ModuleView> {
    if block.modules.len() == 0 {
        seq![ModuleView::Common]
    } else {
        block.modules
    }
}

/// The table that a block of libraries declares, or the error of its first
/// malformed entry.
pub open spec fn library_table(entries: Seq<(Seq<char>, SourceValueView)>) -> Result<
    LibraryMap,
    ParseErrorView,
> {
    match read_library_block(entries) {
        Err(e) => Err(e),
        Ok(block) => Ok(declarations(block_archs(block), block_modules(block), block.libraries)),
    }
}

/// An error met in the first entries of a block is the error of the block.
pub proof fn lemma_library_error_stays(entries: Seq<(Seq<char>, SourceValueView)>, n: int)
    requires
        0 <= n <= entries.len(),
        read_library_block(entries.take(n)) is Err,
    ensures
        read_library_block(entries) == read_library_block(entries.take(n)),
    decreases entries.len() - n,
{
    if n < entries.len() {
        assert(entries.take(n + 1).drop_last() =~= entries.take(n));
        lemma_library_error_stays(entries, n + 1);
    } else {
        assert(entries.take(n) =~= entries);
    }
}

/// An error met in the first values of a list of architectures is the error of the
/// list.
pub proof fn lemma_architecture_error_stays(items: Seq<SourceValueView>, n: int)
    requires
        0 <= n <= items.len(),
        architectures_of(items.take(n)) is Err,
    ensures
        architectures_of(items) == architectures_of(items.take(n)),
    decreases items.len() - n,
{
    if n < items.len() {
        assert(items.take(n + 1).drop_last() =~= items.take(n));
        lemma_architecture_error_stays(items, n + 1);
    } else {
        assert(items.take(n) =~= items);
    }
}

/// An error met in the first values of a list of module kinds is the error of the
/// list.
pub proof fn lemma_module_error_stays(items: Seq<SourceValueView>, n: int)
    requires
        0 <= n <= items.len(),
        modules_of(items.take(n)) is Err,
    ensures
        modules_of(items) == modules_of(items.take(n)),
    decreases items.len() - n,
{
    if n < items.len() {
        assert(items.take(n + 1).drop_last() =~= items.take(n));
        lemma_module_error_stays(items, n + 1);
    } else {
        assert(items.take(n) =~= items);
    }
}

/// Reads a list of architectures.
fn read_architectures(items: &Vec<SourceValue>) -> (out: Result<Vec<Architecture>, ParseError>)
    ensures
        match architectures_of(items_view(items@)) {
            Ok(archs) => out matches Ok(o) && views(o@) == archs,
            Err(e) => out matches Err(o) && o@ == e,
        },
{
    let ghost all = items_view(items@);
    let mut out: Vec<Architecture> = Vec::new();
    let mut i: usize = 0;
    assert(views(out@) =~= Seq::empty());
    while i < items.len()
        invariant
            i <= items.len(),
            all == items_view(items@),
            architectures_of(all.take(i as int)) == Ok::<_, ParseErrorView>(views(out@)),
        decreases items.len() - i,
    {
        let ghost before = views(out@);
        proof {
            assert(all.take(i + 1).drop_last() =~= all.take(i as int));
        }
        match Architecture::try_from(&items[i]) {
            Ok(arch) => {
                out.push(arch);
                assert(views(out@) =~= before.push(arch@));
            },
            Err(e) => {
                proof {
                    lemma_architecture_error_stays(all, i + 1);
                }
                return Err(e);
            },
        }
        i = i + 1;
    }
    assert(all.take(items.len() as int) =~= all);
    Ok(out)
}

/// Reads a list of module kinds.
fn read_modules(items: &Vec<SourceValue>) -> (out: Result<Vec<Module>, ParseError>)
    ensures
        match modules_of(items_view(items@)) {
            Ok(modules) => out matches Ok(o) && views(o@) == modules,
            Err(e) => out matches Err(o) && o@ == e,
        },
{
    let ghost all = items_view(items@);
    let mut out: Vec<Module> = Vec::new();
    let mut i: usize = 0;
    assert(views(out@) =~= Seq::empty());
    while i < items.len()
        invariant
            i <= items.len(),
            all == items_view(items@),
            modules_of(all.take(i as int)) == Ok::<_, ParseErrorView>(views(out@)),
        decreases items.len() - i,
    {
        let ghost before = views(out@);
        proof {
            assert(all.take(i + 1).drop_last() =~= all.take(i as int));
        }
        match Module::try_from(&items[i]) {
            Ok(module) => {
                out.push(module);
                assert(views(out@) =~= before.push(module@));
            },
            Err(e) => {
                proof {
                    lemma_module_error_stays(all, i + 1);
                }
                return Err(e);
            },
        }
        i = i + 1;
    }
    assert(all.take(items.len() as int) =~= all);
    Ok(out)
}

/// The declarations of a block as they are kept while it is read: names as written,
/// with their declarations.
pub open spec fn written(libraries: Seq<(String, String)>) -> Seq<(Seq<char>, Seq<char>)> {
    Seq::new(libraries.len(), |i: int| (libraries[i].0@, libraries[i].1@))
}

/// Declares `path` for the lowercase name `name` under one architecture and each of
/// the module kinds.
fn declare_for_architecture(
    table: &mut LibraryInstances,
    name: &String,
    path: &String,
    arch: &Architecture,
    modules: &Vec<Module>,
)
    ensures
        final(table)@ == declared(old(table)@, name@, path@, seq![arch@], views(modules@)),
{
    let ghost kinds = views(modules@);
    let mut j: usize = 0;
    while j < modules.len()
        invariant
            j <= modules.len(),
            kinds == views(modules@),
            table@ == declared(old(table)@, name@, path@, seq![arch@], kinds.take(j as int)),
        decreases modules.len() - j,
    {
        proof {
            lemma_take_contains(kinds, j as int);
        }
        table.declare_lowercase(name.clone(), arch.clone(), modules[j].clone(), path.clone());
        assert(seq![arch@].contains(arch@)) by {
            assert(seq![arch@][0] == arch@);
        }
        j = j + 1;
    }
    assert(kinds.take(modules.len() as int) =~= kinds);
}

/// Declares `path` for the lowercase name `name` in every scope made of one of
/// `archs` and one of `modules`.
fn declare_everywhere(
    table: &mut LibraryInstances,
    name: &String,
    path: &String,
    archs: &Vec<Architecture>,
    modules: &Vec<Module>,
)
    ensures
        final(table)@ == declared(old(table)@, name@, path@, views(archs@), views(modules@)),
{
    let ghost targets = views(archs@);
    let ghost kinds = views(modules@);
    let mut i: usize = 0;
    while i < archs.len()
        invariant
            i <= archs.len(),
            targets == views(archs@),
            kinds == views(modules@),
            table@ == declared(old(table)@, name@, path@, targets.take(i as int), kinds),
        decreases archs.len() - i,
    {
        proof {
            lemma_take_contains(targets, i as int);
        }
        declare_for_architecture(table, name, path, &archs[i], modules);
        assert(forall|a: ArchitectureView| seq![archs[i as int]@].contains(a) <==> a == archs[i as int]@)
            by {
            assert(seq![archs[i as int]@][0] == archs[i as int]@);
        }
        i = i + 1;
    }
    assert(targets.take(archs.len() as int) =~= targets);
}

/// Reads one block of libraries: the instances it declares, each in every scope that
/// the block's architectures and module kinds make.
///
/// The entry `arch` lists the architectures and the entry `module` the module kinds;
/// where one is missing or empty, `Common` stands for it. Every other entry declares
/// the instance of an interface. Tokens that name no known architecture or module
/// kind name a custom one. An entry of the wrong shape is an error.
pub fn process_library_table(table: &Vec<(String, SourceValue)>) -> (out: Result<
    LibraryInstances,
    ParseError,
>)
    ensures
        match library_table(entries_view(table@)) {
            Ok(declared) => out matches Ok(o) && o@ == declared,
            Err(e) => out matches Err(o) && o@ == e,
        },
{
    let ghost all = entries_view(table@);
    let mut arch_list: Vec<Architecture> = Vec::new();
    let mut module_list: Vec<Module> = Vec::new();
    let mut library_list: Vec<(String, String)> = Vec::new();
    let mut i: usize = 0;
    assert(views(arch_list@) =~= Seq::empty());
    assert(views(module_list@) =~= Seq::empty());
    assert(written(library_list@) =~= Seq::empty());
    while i < table.len()
        invariant
            i <= table.len(),
            all == entries_view(table@),
            read_library_block(all.take(i as int)) == Ok::<_, ParseErrorView>(
                LibraryBlock {
                    archs: views(arch_list@),
                    modules: views(module_list@),
                    libraries: written(library_list@),
                },
            ),
        decreases table.len() - i,
    {
        proof {
            assert(all.take(i + 1).drop_last() =~= all.take(i as int));
        }
        let name = &table[i].0;
        let value = &table[i].1;
        let lowered = to_lowercase(name.as_str());
        if lowered == "arch".to_owned() {
            match value {
                SourceValue::List(items) => {
                    proof {
                        lemma_list_view(*items);
                    }
                    match read_architectures(items) {
                        Ok(archs) => {
                            arch_list = archs;
                        },
                        Err(e) => {
                            proof {
                                lemma_library_error_stays(all, i + 1);
                            }
                            return Err(e);
                        },
                    }
                },
                _ => {
                    proof {
                        lemma_library_error_stays(all, i + 1);
                    }
                    return Err(ParseError::ArchitecturesNotList);
                },
            }
        } else if lowered == "module".to_owned() {
            match value {
                SourceValue::List(items) => {
                    proof {
                        lemma_list_view(*items);
                    }
                    match read_modules(items) {
                        Ok(modules) => {
                            module_list = modules;
                        },
                        Err(e) => {
                            proof {
                                lemma_library_error_stays(all, i + 1);
                            }
                            return Err(e);
                        },
                    }
                },
                _ => {
                    proof {
                        lemma_library_error_stays(all, i + 1);
                    }
                    return Err(ParseError::ModulesNotList);
                },
            }
        } else {
            match value {
                SourceValue::Text(path) => {
                    let ghost before = written(library_list@);
                    library_list.push((name.clone(), path.clone()));
                    assert(written(library_list@) =~= before.push((name@, path@)));
                },
                _ => {
                    proof {
                        lemma_library_error_stays(all, i + 1);
                    }
                    return Err(ParseError::InstanceNotText(name.clone()));
                },
            }
        }
        i = i + 1;
    }
    assert(all.take(table.len() as int) =~= all);
    let ghost block = LibraryBlock {
        archs: views(arch_list@),
        modules: views(module_list@),
        libraries: written(library_list@),
    };
    if arch_list.len() == 0 {
        arch_list.push(Architecture::Common);
    }
    if module_list.len() == 0 {
        module_list.push(Module::Common);
    }
    let mut instances = LibraryInstances::new();
    let mut n: usize = 0;
    while n < library_list.len()
        invariant
            n <= library_list.len(),
            views(arch_list@) == block_archs(block),
            views(module_list@) == block_modules(block),
            written(library_list@) == block.libraries,
            instances@ == declarations(
                block_archs(block),
                block_modules(block),
                block.libraries.take(n as int),
            ),
        decreases library_list.len() - n,
    {
        proof {
            assert(block.libraries.take(n + 1).drop_last() =~= block.libraries.take(n as int));
        }
        let lowered = to_lowercase(library_list[n].0.as_str());
        declare_everywhere(&mut instances, &lowered, &library_list[n].1, &arch_list, &module_list);
        n = n + 1;
    }
    assert(block.libraries.take(library_list.len() as int) =~= block.libraries);
    Ok(instances)
}

/// What a block of components says, read entry by entry.
pub struct ComponentBlock {
    /// The architecture of the entry `arch` that stands last; `Common` where there
    /// is no such entry.
    pub arch: ArchitectureView,
    /// The module kind of the entry `module` that stands last; `Common` where there
    /// is no such entry.
    pub module: ModuleView,
    /// The other keys in order: the names of the components, as written.
    pub names: Seq<Seq<char>>,
}

/// What the entry `key = value` adds to what a block of components said so far. A
/// key is `arch` or `module` whatever its case; every other key names a component,
/// and its value is not looked at.
pub open spec fn component_entry(block: ComponentBlock, key: Seq<char>, value: SourceValueView)
    -> Result<ComponentBlock, ParseErrorView> {
    if lowercase(key) == "arch"@ {
        match architecture_from(value) {
            Ok(arch) => Ok(ComponentBlock { arch, ..block }),
            Err(e) => Err(e),
        }
    } else if lowercase(key) == "module"@ {
        match module_from(value) {
            Ok(module) => Ok(ComponentBlock { module, ..block }),
            Err(e) => Err(e),
        }
    } else {
        Ok(ComponentBlock { names: block.names.push(key), ..block })
    }
}

/// What a block of components says, or the error of its first malformed entry.
pub open spec fn read_component_block(entries: Seq<(Seq<char>, SourceValueView)>) -> Result<
    ComponentBlock,
    ParseErrorView,
>
    decreases entries.len(),
{
    if entries.len() == 0 {
        Ok(
            ComponentBlock {
                arch: ArchitectureView::Common,
                module: ModuleView::Common,
                names: Seq::empty(),
            },
        )
    } else {
        match read_component_block(entries.drop_last()) {
            Err(e) => Err(e),
            Ok(block) => component_entry(block, entries.last().0, entries.last().1),
        }
    }
}

/// The table that binds each of `names`, by its lowercase form, to `scope`.
pub open spec fn bound(names: Seq<Seq<char>>, scope: ComponentInstanceView) -> ComponentMap
    decreases names.len(),
{
    if names.len() == 0 {
        Map::empty()
    } else {
        bound(names.drop_last(), scope).insert(lowercase(names.last()), scope)
    }
}

/// The table that a block of components declares, or the error of its first
/// malformed entry.
pub open spec fn component_table(entries: Seq<(Seq<char>, SourceValueView)>) -> Result<
    ComponentMap,
    ParseErrorView,
> {
    match read_component_block(entries) {
        Err(e) => Err(e),
        Ok(block) => Ok(
            bound(block.names, ComponentInstanceView { arch: block.arch, module: block.module }),
        ),
    }
}

/// An error met in the first entries of a block is the error of the block.
pub proof fn lemma_component_error_stays(entries: Seq<(Seq<char>, SourceValueView)>, n: int)
    requires
        0 <= n <= entries.len(),
        read_component_block(entries.take(n)) is Err,
    ensures
        read_component_block(entries) == read_component_block(entries.take(n)),
    decreases entries.len() - n,
{
    if n < entries.len() {
        assert(entries.take(n + 1).drop_last() =~= entries.take(n));
        lemma_component_error_stays(entries, n + 1);
    } else {
        assert(entries.take(n) =~= entries);
    }
}

/// Reads one block of components: every component it names is bound to the block's
/// scope.
///
/// The entry `arch` gives the architecture and the entry `module` the module kind;
/// where one is missing, `Common` stands for it. Every other key names a component.
/// An architecture or module kind that is not a string is an error.
pub fn process_component_table(table: &Vec<(String, SourceValue)>) -> (out: Result<
    ComponentInstances,
    ParseError,
>)
    ensures
        match component_table(entries_view(table@)) {
            Ok(declared) => out matches Ok(o) && o@ == declared,
            Err(e) => out matches Err(o) && o@ == e,
        },
{
    let ghost all = entries_view(table@);
    let mut arch = Architecture::Common;
    let mut module = Module::Common;
    let mut component_list: Vec<String> = Vec::new();
    let mut i: usize = 0;
    assert(component_list.deep_view() =~= Seq::empty());
    while i < table.len()
        invariant
            i <= table.len(),
            all == entries_view(table@),
            read_component_block(all.take(i as int)) == Ok::<_, ParseErrorView>(
                ComponentBlock {
                    arch: arch@,
                    module: module@,
                    names: component_list.deep_view(),
                },
            ),
        decreases table.len() - i,
    {
        proof {
            assert(all.take(i + 1).drop_last() =~= all.take(i as int));
        }
        let name = &table[i].0;
        let value = &table[i].1;
        let lowered = to_lowercase(name.as_str());
        if lowered == "arch".to_owned() {
            match Architecture::try_from(value) {
                Ok(a) => {
                    arch = a;
                },
                Err(e) => {
                    proof {
                        lemma_component_error_stays(all, i + 1);
                    }
                    return Err(e);
                },
            }
        } else if lowered == "module".to_owned() {
            match Module::try_from(value) {
                Ok(m) => {
                    module = m;
                },
                Err(e) => {
                    proof {
                        lemma_component_error_stays(all, i + 1);
                    }
                    return Err(e);
                },
            }
        } else {
            let ghost before = component_list.deep_view();
            component_list.push(name.clone());
            assert(component_list.deep_view() =~= before.push(name@));
        }
        i = i + 1;
    }
    assert(all.take(table.len() as int) =~= all);
    let ghost names = component_list.deep_view();
    let ghost scope = ComponentInstanceView { arch: arch@, module: module@ };
    let mut instances = ComponentInstances::new();
    let mut n: usize = 0;
    while n < component_list.len()
        invariant
            n <= component_list.len(),
            names == component_list.deep_view(),
            scope == (ComponentInstanceView { arch: arch@, module: module@ }),
            instances@ == bound(names.take(n as int), scope),
        decreases component_list.len() - n,
    {
        proof {
            assert(names.take(n + 1).drop_last() =~= names.take(n as int));
        }
        instances.bind(
            component_list[n].as_str(),
            ComponentInstance { arch: arch.clone(), module: module.clone() },
        );
        n = n + 1;
    }
    assert(names.take(component_list.len() as int) =~= names);
    Ok(instances)
}

} // verus!
