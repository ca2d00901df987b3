//! The shape of a configuration source: tables, lists and scalars.

use vstd::prelude::*;

verus! {

/// One value of a configuration source.
#[derive(Debug, PartialEq, Eq)]
pub enum SourceValue {
    /// A string.
    Text(String),
    /// An integer.
    Integer(i64),
    /// A floating-point number; which one is not kept.
    Float,
    /// A boolean.
    Boolean(bool),
    /// A date or time; which one is not kept.
    Datetime,
    /// A list of values, in order.
    List(Vec<SourceValue>),
    /// A table: keys with their values, in the order in which the source hands them out.
    Table(Vec<(String, SourceValue)>),
}

/// What a [`SourceValue`] stands for in contracts.
pub enum SourceValueView {
    Text(Seq<char>),
    Integer(i64),
    Float,
    Boolean(bool),
    Datetime,
    List(Seq<SourceValueView>),
    Table(Seq<(Seq<char>, SourceValueView)>),
}

/// The view of a [`SourceValue`]: the same shape, with strings, lists and tables as
/// sequences.
pub open spec fn source_view(value: SourceValue) -> SourceValueView
    decreases value,
{
    match value {
        SourceValue::Text(s) => SourceValueView::Text(s@),
        SourceValue::Integer(i) => SourceValueView::Integer(i),
        SourceValue::Float => SourceValueView::Float,
        SourceValue::Boolean(b) => SourceValueView::Boolean(b),
        SourceValue::Datetime => SourceValueView::Datetime,
        SourceValue::List(items) => SourceValueView::List(
            Seq::new(
                items@.len(),
                |i: int|
                    if 0 <= i < items@.len() {
                        source_view(items@[i])
                    } else {
                        arbitrary()
                    },
            ),
        ),
        SourceValue::Table(entries) => SourceValueView::Table(
            Seq::new(
                entries@.len(),
                |i: int|
                    if 0 <= i < entries@.len() {
                        (entries@[i].0@, source_view(entries@[i].1))
                    } else {
                        arbitrary()
                    },
            ),
        ),
    }
}

impl View for SourceValue {
    type V = SourceValueView;

    open spec fn view(&self) -> SourceValueView {
        source_view(*self)
    }
}

/// The views of the entries of a table, in order.
pub open spec fn entries_view(entries: Seq<(String, SourceValue)>) -> Seq<
    (Seq<char>, SourceValueView),
> {
    Seq::new(entries.len(), |i: int| (entries[i].0@, entries[i].1@))
}

/// The views of the values of a list, in order.
pub open spec fn items_view(items: Seq<SourceValue>) -> Seq<SourceValueView> {
    Seq::new(items.len(), |i: int| items[i]@)
}

/// A table's view is the views of its entries.
pub proof fn lemma_table_view(entries: Vec<(String, SourceValue)>)
    ensures
        SourceValue::Table(entries)@ == SourceValueView::Table(entries_view(entries@)),
{
    assert(SourceValue::Table(entries)@->Table_0 =~= entries_view(entries@));
}

/// A list's view is the views of its items.
pub proof fn lemma_list_view(items: Vec<SourceValue>)
    ensures
        SourceValue::List(items)@ == SourceValueView::List(items_view(items@)),
{
    assert(SourceValue::List(items)@->List_0 =~= items_view(items@));
}

/// Why a configuration source was refused.
#[derive(Debug, PartialEq, Eq)]
pub enum ParseError {
    /// The text is not a document of the source's format.
    Syntax,
    /// The document is not a table.
    DocumentNotTable,
    /// A section is declared under two of its names; the payload is the second.
    DuplicateSection(String),
    /// A section is not a list; the payload is the key it stands under.
    SectionNotList(String),
    /// An entry of a section is not a table; the payload is the section's key.
    BlockNotTable(String),
    /// In a block of libraries, the architectures are not a list.
    ArchitecturesNotList,
    /// In a block of libraries, the module kinds are not a list.
    ModulesNotList,
    /// An architecture is not a string.
    ArchitectureNotText,
    /// A module kind is not a string.
    ModuleNotText,
    /// The instance declared for an interface is not a string; the payload is the
    /// interface's name as written.
    InstanceNotText(String),
}

/// What a [`ParseError`] stands for in contracts.
pub enum ParseErrorView {
    Syntax,
    DocumentNotTable,
    DuplicateSection(Seq<char>),
    SectionNotList(Seq<char>),
    BlockNotTable(Seq<char>),
    ArchitecturesNotList,
    ModulesNotList,
    ArchitectureNotText,
    ModuleNotText,
    InstanceNotText(Seq<char>),
}

impl View for ParseError {
    type V = ParseErrorView;

    open spec fn view(&self) -> ParseErrorView {
        match self {
            ParseError::Syntax => ParseErrorView::Syntax,
            ParseError::DocumentNotTable => ParseErrorView::DocumentNotTable,
            ParseError::DuplicateSection(s) => ParseErrorView::DuplicateSection(s@),
            ParseError::SectionNotList(s) => ParseErrorView::SectionNotList(s@),
            ParseError::BlockNotTable(s) => ParseErrorView::BlockNotTable(s@),
            ParseError::ArchitecturesNotList => ParseErrorView::ArchitecturesNotList,
            ParseError::ModulesNotList => ParseErrorView::ModulesNotList,
            ParseError::ArchitectureNotText => ParseErrorView::ArchitectureNotText,
            ParseError::ModuleNotText => ParseErrorView::ModuleNotText,
            ParseError::InstanceNotText(s) => ParseErrorView::InstanceNotText(s@),
        }
    }
}

/// A value as the `toml` crate holds it. Nothing of it is visible here but through
/// [`toml_value`].
#[verifier::external_type_specification]
#[verifier::external_body]
pub struct ExTomlValue(toml::Value);

/// The error with which the `toml` crate refuses a text.
#[verifier::external_type_specification]
#[verifier::external_body]
pub struct ExTomlError(toml::de::Error);

/// What a value of the `toml` crate holds: its strings, integers, booleans, lists
/// and tables, a table's entries in the order in which the crate hands them out. Of
/// a float or a date only the kind is told.
pub uninterp spec fn toml_value(value: toml::Value) -> SourceValueView;

/// The document that a text is in TOML, as the `toml` crate parses it, or `None`
/// where the crate refuses the text.
pub uninterp spec fn toml_document(text: Seq<char>) -> Option<SourceValueView>;

/// `str::parse::<toml::Table>`, that is `toml::from_str`: parses a text as a TOML
/// document. The parse is taken to depend on the text alone; what it yields is told
/// by [`toml_document`].
#[verifier::external_body]
fn parse_toml(text: &str) -> (out: Result<toml::Value, toml::de::Error>)
    ensures
        out matches Ok(value) ==> toml_document(text@) == Some(toml_value(value)),
        out is Err ==> toml_document(text@) is None,
{
    text.parse::<toml::Table>().map(toml::Value::Table)
}

/// Copies a `toml::Value` into a [`SourceValue`], variant by variant, the items of
/// `toml::Value::Array` and the entries of `toml::Value::Table` (by
/// `toml::map::Map::iter`) in order. The copy is what [`toml_value`] tells of the
/// value.
#[verifier::external_body]
fn read_toml(value: &toml::Value) -> (out: SourceValue)
    ensures
        out@ == toml_value(*value),
{
    match value {
        toml::Value::String(s) => SourceValue::Text(s.clone()),
        toml::Value::Integer(i) => SourceValue::Integer(*i),
        toml::Value::Float(_) => SourceValue::Float,
        toml::Value::Boolean(b) => SourceValue::Boolean(*b),
        toml::Value::Datetime(_) => SourceValue::Datetime,
        toml::Value::Array(a) => SourceValue::List(a.iter().map(read_toml).collect()),
        toml::Value::Table(t) => SourceValue::Table(
            t.iter().map(|(k, v)| (k.clone(), read_toml(v))).collect(),
        ),
    }
}

/// Parses a text in TOML into the document it holds.
pub fn parse_source(text: &str) -> (out: Result<SourceValue, ParseError>)
    ensures
        match toml_document(text@) {
            Some(document) => out matches Ok(o) && o@ == document,
            None => out matches Err(e) && e@ == ParseErrorView::Syntax,
        },
{
    match parse_toml(text) {
        Ok(value) => Ok(read_toml(&value)),
        Err(_) => Err(ParseError::Syntax),
    }
}

} // verus!
