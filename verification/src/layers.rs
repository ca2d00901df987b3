//! Layers of configuration: reading one from a source, and composing several by
//! priority.

use vstd::prelude::*;
use crate::assoc::views;
use crate::blocks::{
    component_table, declarations, declared, library_table, process_component_table,
    process_library_table, written,
};
use crate::config::{
    ComponentInstances, ComponentMap, LibraryInstances, LibraryKeyView, LibraryMap,
};
use crate::text::lowercase;
use crate::types::{Architecture, ArchitectureView, Module, ModuleView};
use crate::source::{
    entries_view, items_view, lemma_list_view, lemma_table_view, parse_source, toml_document,
    ParseError, ParseErrorView, SourceValue, SourceValueView,
};

verus! {

/// What a [`Config`] stands for in contracts.
pub struct ConfigView {
    pub libraries: LibraryMap,
    pub components: ComponentMap,
}

/// One layer of configuration: the instances it declares and the scopes of the
/// components it knows.
#[derive(Debug)]
pub struct Config {
    /// The instances, by interface and scope.
    pub libraries: LibraryInstances,
    /// The scopes, by component.
    pub components: ComponentInstances,
}

impl View for Config {
    type V = ConfigView;

    open spec fn view(&self) -> ConfigView {
        ConfigView { libraries: self.libraries@, components: self.components@ }
    }
}

/// The layer that declares nothing.
pub open spec fn empty_config() -> ConfigView {
    ConfigView { libraries: Map::empty(), components: Map::empty() }
}

impl Default for Config {
    fn default() -> (out: Config)
        ensures
            out@ == empty_config(),
    {
        Config { libraries: LibraryInstances::new(), components: ComponentInstances::new() }
    }
}

/// Whether `key` names the section of libraries.
pub open spec fn is_libraries_key(key: Seq<char>) -> bool {
    key == "libraries"@ || key == "libraryinstances"@ || key == "LibraryInstances"@
}

/// Whether `key` names the section of components.
pub open spec fn is_components_key(key: Seq<char>) -> bool {
    key == "components"@ || key == "Components"@
}

/// The table that a section of libraries declares: its blocks in order, a later
/// block over an earlier one. `key` is the key the section stands under.
pub open spec fn library_section(items: Seq<SourceValueView>, key: Seq<char>) -> Result<
    LibraryMap,
    ParseErrorView,
>
    decreases items.len(),
{
    if items.len() == 0 {
        Ok(Map::empty())
    } else {
        match library_section(items.drop_last(), key) {
            Err(e) => Err(e),
            Ok(front) => match items.last() {
                SourceValueView::Table(entries) => match library_table(entries) {
                    Err(e) => Err(e),
                    Ok(block) => Ok(front.union_prefer_right(block)),
                },
                _ => Err(ParseErrorView::BlockNotTable(key)),
            },
        }
    }
}

/// The table that a section of components declares: its blocks in order, a later
/// block over an earlier one. `key` is the key the section stands under.
pub open spec fn component_section(items: Seq<SourceValueView>, key: Seq<char>) -> Result<
    ComponentMap,
    ParseErrorView,
>
    decreases items.len(),
{
    if items.len() == 0 {
        Ok(Map::empty())
    } else {
        match component_section(items.drop_last(), key) {
            Err(e) => Err(e),
            Ok(front) => match items.last() {
                SourceValueView::Table(entries) => match component_table(entries) {
                    Err(e) => Err(e),
                    Ok(block) => Ok(front.union_prefer_right(block)),
                },
                _ => Err(ParseErrorView::BlockNotTable(key)),
            },
        }
    }
}

/// The sections of a document that were read so far.
pub struct Sections {
    pub libraries: Option<LibraryMap>,
    pub components: Option<ComponentMap>,
}

/// What the entry `key = value` of a document adds to the sections read so far. A
/// section may stand once, and is a list of blocks; entries under other keys are
/// passed over.
pub open spec fn document_entry(sections: Sections, key: Seq<char>, value: SourceValueView)
    -> Result<Sections, ParseErrorView> {
    if is_libraries_key(key) {
        if sections.libraries is Some {
            Err(ParseErrorView::DuplicateSection(key))
        } else {
            match value {
                SourceValueView::List(items) => match library_section(items, key) {
                    Err(e) => Err(e),
                    Ok(libraries) => Ok(Sections { libraries: Some(libraries), ..sections }),
                },
                _ => Err(ParseErrorView::SectionNotList(key)),
            }
        }
    } else if is_components_key(key) {
        if sections.components is Some {
            Err(ParseErrorView::DuplicateSection(key))
        } else {
            match value {
                SourceValueView::List(items) => match component_section(items, key) {
                    Err(e) => Err(e),
                    Ok(components) => Ok(Sections { components: Some(components), ..sections }),
                },
                _ => Err(ParseErrorView::SectionNotList(key)),
            }
        }
    } else {
        Ok(sections)
    }
}

/// The sections of a document, or the error of its first malformed entry.
pub open spec fn read_document(entries: Seq<(Seq<char>, SourceValueView)>) -> Result<
    Sections,
    ParseErrorView,
>
    decreases entries.len(),
{
    if entries.len() == 0 {
        Ok(Sections { libraries: None, components: None })
    } else {
        match read_document(entries.drop_last()) {
            Err(e) => Err(e),
            Ok(sections) => document_entry(sections, entries.last().0, entries.last().1),
        }
    }
}

/// The declarations of a section, none where the section is missing.
pub open spec fn section_or_empty<K, V>(section: Option<Map<K, V>>) -> Map<K, V> {
    match section {
        Some(map) => map,
        None => Map::empty(),
    }
}

/// The layer that a document declares, or why the document is refused.
pub open spec fn config_of(document: SourceValueView) -> Result<ConfigView, ParseErrorView> {
    match document {
        SourceValueView::Table(entries) => match read_document(entries) {
            Err(e) => Err(e),
            Ok(sections) => Ok(
                ConfigView {
                    libraries: section_or_empty(sections.libraries),
                    components: section_or_empty(sections.components),
                },
            ),
        },
        _ => Err(ParseErrorView::DocumentNotTable),
    }
}

/// An error met in the first blocks of a section is the error of the section.
pub proof fn lemma_library_section_error_stays(
    items: Seq<SourceValueView>,
    key: Seq<char>,
    n: int,
)
    requires
        0 <= n <= items.len(),
        library_section(items.take(n), key) is Err,
    ensures
        library_section(items, key) == library_section(items.take(n), key),
    decreases items.len() - n,
{
    if n < items.len() {
        assert(items.take(n + 1).drop_last() =~= items.take(n));
        lemma_library_section_error_stays(items, key, n + 1);
    } else {
        assert(items.take(n) =~= items);
    }
}

/// An error met in the first blocks of a section is the error of the section.
pub proof fn lemma_component_section_error_stays(
    items: Seq<SourceValueView>,
    key: Seq<char>,
    n: int,
)
    requires
        0 <= n <= items.len(),
        component_section(items.take(n), key) is Err,
    ensures
        component_section(items, key) == component_section(items.take(n), key),
    decreases items.len() - n,
{
    if n < items.len() {
        assert(items.take(n + 1).drop_last() =~= items.take(n));
        lemma_component_section_error_stays(items, key, n + 1);
    } else {
        assert(items.take(n) =~= items);
    }
}

/// An error met in the first entries of a document is the error of the document.
pub proof fn lemma_document_error_stays(entries: Seq<(Seq<char>, SourceValueView)>, n: int)
    requires
        0 <= n <= entries.len(),
        read_document(entries.take(n)) is Err,
    ensures
        read_document(entries) == read_document(entries.take(n)),
    decreases entries.len() - n,
{
    if n < entries.len() {
        assert(entries.take(n + 1).drop_last() =~= entries.take(n));
        lemma_document_error_stays(entries, n + 1);
    } else {
        assert(entries.take(n) =~= entries);
    }
}

/// Reads a section of libraries.
fn read_library_section(items: &Vec<SourceValue>, key: &String) -> (out: Result<
    LibraryInstances,
    ParseError,
>)
    ensures
        match library_section(items_view(items@), key@) {
            Ok(declared) => out matches Ok(o) && o@ == declared,
            Err(e) => out matches Err(o) && o@ == e,
        },
{
    let ghost all = items_view(items@);
    let mut instances = LibraryInstances::new();
    let mut i: usize = 0;
    while i < items.len()
        invariant
            i <= items.len(),
            all == items_view(items@),
            library_section(all.take(i as int), key@) == Ok::<_, ParseErrorView>(instances@),
        decreases items.len() - i,
    {
        proof {
            assert(all.take(i + 1).drop_last() =~= all.take(i as int));
        }
        match &items[i] {
            SourceValue::Table(entries) => {
                proof {
                    lemma_table_view(*entries);
                }
                match process_library_table(entries) {
                    Ok(block) => {
                        instances.merge(block);
                    },
                    Err(e) => {
                        proof {
                            lemma_library_section_error_stays(all, key@, i + 1);
                        }
                        return Err(e);
                    },
                }
            },
            _ => {
                proof {
                    lemma_library_section_error_stays(all, key@, i + 1);
                }
                return Err(ParseError::BlockNotTable(key.clone()));
            },
        }
        i = i + 1;
    }
    assert(all.take(items.len() as int) =~= all);
    Ok(instances)
}

/// Reads a section of components.
fn read_component_section(items: &Vec<SourceValue>, key: &String) -> (out: Result<
    ComponentInstances,
    ParseError,
>)
    ensures
        match component_section(items_view(items@), key@) {
            Ok(declared) => out matches Ok(o) && o@ == declared,
            Err(e) => out matches Err(o) && o@ == e,
        },
{
    let ghost all = items_view(items@);
    let mut instances = ComponentInstances::new();
    let mut i: usize = 0;
    while i < items.len()
        invariant
            i <= items.len(),
            all == items_view(items@),
            component_section(all.take(i as int), key@) == Ok::<_, ParseErrorView>(instances@),
        decreases items.len() - i,
    {
        proof {
            assert(all.take(i + 1).drop_last() =~= all.take(i as int));
        }
        match &items[i] {
            SourceValue::Table(entries) => {
                proof {
                    lemma_table_view(*entries);
                }
                match process_component_table(entries) {
                    Ok(block) => {
                        instances.merge(block);
                    },
                    Err(e) => {
                        proof {
                            lemma_component_section_error_stays(all, key@, i + 1);
                        }
                        return Err(e);
                    },
                }
            },
            _ => {
                proof {
                    lemma_component_section_error_stays(all, key@, i + 1);
                }
                return Err(ParseError::BlockNotTable(key.clone()));
            },
        }
        i = i + 1;
    }
    assert(all.take(items.len() as int) =~= all);
    Ok(instances)
}

/// The view of a section that may be missing.
pub open spec fn section_view<T: View>(section: Option<T>) -> Option<T::V> {
    match section {
        Some(table) => Some(table@),
        None => None,
    }
}

/// The layer in which every key has the declaration of the first of `layers` that
/// declares it: the layers stand in the order of their priority, the highest first.
pub open spec fn effective(layers: Seq<ConfigView>) -> ConfigView
    decreases layers.len(),
{
    if layers.len() == 0 {
        empty_config()
    } else {
        let above = effective(layers.drop_last());
        ConfigView {
            libraries: layers.last().libraries.union_prefer_right(above.libraries),
            components: layers.last().components.union_prefer_right(above.components),
        }
    }
}

/// Layers that each declare finitely much compose into a layer that declares
/// finitely much.
pub proof fn lemma_effective_is_finite(layers: Seq<ConfigView>)
    requires
        forall|i: int|
            0 <= i < layers.len() ==> (#[trigger] layers[i]).libraries.dom().finite()
                && layers[i].components.dom().finite(),
    ensures
        effective(layers).libraries.dom().finite(),
        effective(layers).components.dom().finite(),
    decreases layers.len(),
{
    if layers.len() > 0 {
        let front = layers.drop_last();
        assert forall|i: int| 0 <= i < front.len() implies (
        #[trigger] front[i]).libraries.dom().finite() && front[i].components.dom().finite() by {
            assert(front[i] == layers[i]);
        }
        lemma_effective_is_finite(front);
        let last = layers.last();
        let above = effective(front);
        assert(effective(layers).libraries.dom() =~= last.libraries.dom().union(
            above.libraries.dom(),
        ));
        assert(effective(layers).components.dom() =~= last.components.dom().union(
            above.components.dom(),
        ));
    }
}

/// In the effective layer a key has the declaration of the first layer that
/// declares it, and is declared by some layer where it is declared at all.
pub proof fn lemma_effective_libraries(layers: Seq<ConfigView>, key: LibraryKeyView)
    ensures
        effective(layers).libraries.dom().contains(key) <==> exists|i: int|
            0 <= i < layers.len() && (#[trigger] layers[i]).libraries.dom().contains(key),
        forall|i: int|
            0 <= i < layers.len() && (#[trigger] layers[i]).libraries.dom().contains(key) && (
            forall|above: int|
                0 <= above < i ==> !(#[trigger] layers[above]).libraries.dom().contains(key))
                ==> effective(layers).libraries[key] == layers[i].libraries[key],
    decreases layers.len(),
{
    if layers.len() > 0 {
        let front = layers.drop_last();
        lemma_effective_libraries(front, key);
        let last = layers.len() - 1;
        if effective(front).libraries.dom().contains(key) {
            let i = choose|i: int|
                0 <= i < front.len() && (#[trigger] front[i]).libraries.dom().contains(key);
            assert(layers[i] == front[i]);
        }
        assert forall|i: int|
            0 <= i < layers.len() && (#[trigger] layers[i]).libraries.dom().contains(key) && (
            forall|above: int|
                0 <= above < i ==> !(#[trigger] layers[above]).libraries.dom().contains(
                    key,
                )) implies effective(layers).libraries[key] == layers[i].libraries[key] by {
            if i < last {
                assert(front[i] == layers[i]);
                assert forall|above: int| 0 <= above < i implies !(
                #[trigger] front[above]).libraries.dom().contains(key) by {
                    assert(front[above] == layers[above]);
                }
            } else {
                if effective(front).libraries.dom().contains(key) {
                    let j = choose|j: int|
                        0 <= j < front.len() && (#[trigger] front[j]).libraries.dom().contains(
                            key,
                        );
                    assert(layers[j] == front[j]);
                }
            }
        }
        if exists|i: int|
            0 <= i < layers.len() && (#[trigger] layers[i]).libraries.dom().contains(key) {
            let i = choose|i: int|
                0 <= i < layers.len() && (#[trigger] layers[i]).libraries.dom().contains(key);
            if i < last {
                assert(front[i] == layers[i]);
            }
        }
    }
}

/// In the effective layer a component has the scope of the first layer that
/// declares it, and is declared by some layer where it is declared at all.
pub proof fn lemma_effective_components(layers: Seq<ConfigView>, name: Seq<char>)
    ensures
        effective(layers).components.dom().contains(name) <==> exists|i: int|
            0 <= i < layers.len() && (#[trigger] layers[i]).components.dom().contains(name),
        forall|i: int|
            0 <= i < layers.len() && (#[trigger] layers[i]).components.dom().contains(name) && (
            forall|above: int|
                0 <= above < i ==> !(#[trigger] layers[above]).components.dom().contains(name))
                ==> effective(layers).components[name] == layers[i].components[name],
    decreases layers.len(),
{
    if layers.len() > 0 {
        let front = layers.drop_last();
        lemma_effective_components(front, name);
        let last = layers.len() - 1;
        if effective(front).components.dom().contains(name) {
            let i = choose|i: int|
                0 <= i < front.len() && (#[trigger] front[i]).components.dom().contains(name);
            assert(layers[i] == front[i]);
        }
        assert forall|i: int|
            0 <= i < layers.len() && (#[trigger] layers[i]).components.dom().contains(name) && (
            forall|above: int|
                0 <= above < i ==> !(#[trigger] layers[above]).components.dom().contains(
                    name,
                )) implies effective(layers).components[name] == layers[i].components[name] by {
            if i < last {
                assert(front[i] == layers[i]);
                assert forall|above: int| 0 <= above < i implies !(
                #[trigger] front[above]).components.dom().contains(name) by {
                    assert(front[above] == layers[above]);
                }
            } else {
                if effective(front).components.dom().contains(name) {
                    let j = choose|j: int|
                        0 <= j < front.len() && (#[trigger] front[j]).components.dom().contains(
                            name,
                        );
                    assert(layers[j] == front[j]);
                }
            }
        }
        if exists|i: int|
            0 <= i < layers.len() && (#[trigger] layers[i]).components.dom().contains(name) {
            let i = choose|i: int|
                0 <= i < layers.len() && (#[trigger] layers[i]).components.dom().contains(name);
            if i < last {
                assert(front[i] == layers[i]);
            }
        }
    }
}

/// What the layer of the highest priority declares stands in the effective layer:
/// the layers after it change neither the instance under a key it declares nor the
/// scope of a component it declares, whatever they are and in whatever order they
/// stand.
pub proof fn lemma_first_layer_stands(
    layers: Seq<ConfigView>,
    others: Seq<ConfigView>,
    key: LibraryKeyView,
    name: Seq<char>,
)
    requires
        layers.len() > 0,
        others.len() > 0,
        others[0] == layers[0],
    ensures
        layers[0].libraries.dom().contains(key) ==> {
            &&& effective(layers).libraries.dom().contains(key)
            &&& effective(layers).libraries[key] == layers[0].libraries[key]
            &&& effective(others).libraries[key] == effective(layers).libraries[key]
        },
        layers[0].components.dom().contains(name) ==> {
            &&& effective(layers).components.dom().contains(name)
            &&& effective(layers).components[name] == layers[0].components[name]
            &&& effective(others).components[name] == effective(layers).components[name]
        },
{
    lemma_effective_libraries(layers, key);
    lemma_effective_libraries(others, key);
    lemma_effective_components(layers, name);
    lemma_effective_components(others, name);
}

impl Config {
    /// Reads a layer from the document of a source.
    ///
    /// The document is a table. Its section of libraries stands under `libraries`,
    /// `libraryinstances` or `LibraryInstances`, its section of components under
    /// `components` or `Components`. Each section is a list of blocks; within a
    /// layer a later block stands over an earlier one. A missing section declares
    /// nothing, and what stands under other keys is passed over.
    pub fn from_source(document: &SourceValue) -> (out: Result<Config, ParseError>)
        ensures
            match config_of(document@) {
                Ok(config) => out matches Ok(o) && o@ == config,
                Err(e) => out matches Err(o) && o@ == e,
            },
    {
        let entries = match document {
            SourceValue::Table(entries) => entries,
            _ => {
                return Err(ParseError::DocumentNotTable);
            },
        };
        proof {
            lemma_table_view(*entries);
        }
        let ghost all = entries_view(entries@);
        let mut libraries: Option<LibraryInstances> = None;
        let mut components: Option<ComponentInstances> = None;
        let mut i: usize = 0;
        while i < entries.len()
            invariant
                i <= entries.len(),
                all == entries_view(entries@),
                document@ == SourceValueView::Table(all),
                read_document(all.take(i as int)) == Ok::<_, ParseErrorView>(
                    Sections {
                        libraries: section_view(libraries),
                        components: section_view(components),
                    },
                ),
            decreases entries.len() - i,
        {
            proof {
                assert(all.take(i + 1).drop_last() =~= all.take(i as int));
            }
            let key = &entries[i].0;
            let value = &entries[i].1;
            if *key == "libraries".to_owned() || *key == "libraryinstances".to_owned() || *key
                == "LibraryInstances".to_owned() {
                if libraries.is_some() {
                    proof {
                        lemma_document_error_stays(all, i + 1);
                    }
                    return Err(ParseError::DuplicateSection(key.clone()));
                }
                match value {
                    SourceValue::List(items) => {
                        proof {
                            lemma_list_view(*items);
                        }
                        match read_library_section(items, key) {
                            Ok(section) => {
                                libraries = Some(section);
                            },
                            Err(e) => {
                                proof {
                                    lemma_document_error_stays(all, i + 1);
                                }
                                return Err(e);
                            },
                        }
                    },
                    _ => {
                        proof {
                            lemma_document_error_stays(all, i + 1);
                        }
                        return Err(ParseError::SectionNotList(key.clone()));
                    },
                }
            } else if *key == "components".to_owned() || *key == "Components".to_owned() {
                if components.is_some() {
                    proof {
                        lemma_document_error_stays(all, i + 1);
                    }
                    return Err(ParseError::DuplicateSection(key.clone()));
                }
                match value {
                    SourceValue::List(items) => {
                        proof {
                            lemma_list_view(*items);
                        }
                        match read_component_section(items, key) {
                            Ok(section) => {
                                components = Some(section);
                            },
                            Err(e) => {
                                proof {
                                    lemma_document_error_stays(all, i + 1);
                                }
                                return Err(e);
                            },
                        }
                    },
                    _ => {
                        proof {
                            lemma_document_error_stays(all, i + 1);
                        }
                        return Err(ParseError::SectionNotList(key.clone()));
                    },
                }
            }
            i = i + 1;
        }
        assert(all.take(entries.len() as int) =~= all);
        let libraries = match libraries {
            Some(section) => section,
            None => LibraryInstances::new(),
        };
        let components = match components {
            Some(section) => section,
            None => ComponentInstances::new(),
        };
        Ok(Config { libraries, components })
    }

    /// The layer that declares each of `statements`, an interface's name with its
    /// declaration, for every scope: under (`Common`, `Common`). A later
    /// declaration of an interface stands over an earlier one. The layer knows no
    /// component.
    pub fn from_declarations(statements: &Vec<(String, String)>) -> (out: Config)
        ensures
            out@.libraries == declarations(
                seq![ArchitectureView::Common],
                seq![ModuleView::Common],
                written(statements@),
            ),
            out@.components == ComponentMap::empty(),
    {
        let ghost all = written(statements@);
        let ghost archs = seq![ArchitectureView::Common];
        let ghost modules = seq![ModuleView::Common];
        let mut out = Config::default();
        let mut i: usize = 0;
        while i < statements.len()
            invariant
                i <= statements.len(),
                all == written(statements@),
                archs == seq![ArchitectureView::Common],
                modules == seq![ModuleView::Common],
                out@.components == ComponentMap::empty(),
                out@.libraries == declarations(archs, modules, all.take(i as int)),
            decreases statements.len() - i,
        {
            proof {
                assert(all.take(i + 1).drop_last() =~= all.take(i as int));
                assert(archs[0] == ArchitectureView::Common);
                assert(modules[0] == ModuleView::Common);
            }
            out.libraries.declare(
                statements[i].0.as_str(),
                Architecture::Common,
                Module::Common,
                statements[i].1.clone(),
            );
            i = i + 1;
        }
        assert(all.take(statements.len() as int) =~= all);
        out
    }

    /// Reads a layer from the text of a source in TOML.
    pub fn from_toml(text: &str) -> (out: Result<Config, ParseError>)
        ensures
            match toml_document(text@) {
                None => out matches Err(e) && e@ == ParseErrorView::Syntax,
                Some(document) => match config_of(document) {
                    Ok(config) => out matches Ok(o) && o@ == config,
                    Err(e) => out matches Err(o) && o@ == e,
                },
            },
    {
        match parse_source(text) {
            Ok(document) => Config::from_source(&document),
            Err(e) => Err(e),
        }
    }

    /// Composes layers into the effective one. The layers stand in the order of
    /// their priority, the highest first: a key has the declaration of the first
    /// layer that declares it, and no later layer changes it.
    pub fn compose(layers: &Vec<Config>) -> (out: Config)
        ensures
            out@ == effective(views(layers@)),
    {
        let ghost all = views(layers@);
        let mut out = Config::default();
        let mut i: usize = 0;
        while i < layers.len()
            invariant
                i <= layers.len(),
                all == views(layers@),
                out@ == effective(all.take(i as int)),
            decreases layers.len() - i,
        {
            proof {
                assert(all.take(i + 1).drop_last() =~= all.take(i as int));
            }
            out.libraries.fill(&layers[i].libraries);
            out.components.fill(&layers[i].components);
            i = i + 1;
        }
        assert(all.take(layers.len() as int) =~= all);
        out
    }
}

} // verus!
