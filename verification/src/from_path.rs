//! Requests that name the source of their configuration.

use vstd::prelude::*;
use crate::assoc::views;
use crate::expand::{expand, expanded, ExpandError, ExpandErrorView};
use crate::layers::{config_of, Config};
use crate::request::{parse_request, request_of, Request, RequestError, RequestErrorView};
use crate::source::{toml_document, ParseErrorView};
use crate::text::{chars_of, cut};

verus! {

/// What a [`Source`] stands for in contracts.
pub enum SourceView {
    Path(Seq<char>),
    Env(Seq<char>),
}

/// Where the configuration of a request comes from.
#[derive(Debug, PartialEq, Eq)]
pub enum Source {
    /// The file at this path.
    Path(String),
    /// The file whose path this variable of the environment holds.
    Env(String),
}

impl View for Source {
    type V = SourceView;

    open spec fn view(&self) -> SourceView {
        match self {
            Source::Path(s) => SourceView::Path(s@),
            Source::Env(s) => SourceView::Env(s@),
        }
    }
}

/// What stands between the double quotes of `value`, where `value` is a string
/// between double quotes.
pub open spec fn unquoted(value: Seq<char>) -> Option<Seq<char>> {
    if value.len() >= 2 && value[0] == '"' && value.last() == '"' {
        Some(value.subrange(1, value.len() - 1))
    } else {
        None
    }
}

/// The source that the first statement names: under the key `path` or `Path` a
/// path, under `env` or `Env` a variable of the environment, given as a string.
pub open spec fn source_of(statements: Seq<(Seq<char>, Seq<char>)>) -> Result<
    SourceView,
    RequestErrorView,
> {
    if statements.len() == 0 {
        Err(RequestErrorView::MissingSource)
    } else {
        let key = statements[0].0;
        let value = statements[0].1;
        if key == "path"@ || key == "Path"@ {
            match unquoted(value) {
                Some(path) => Ok(SourceView::Path(path)),
                None => Err(RequestErrorView::NotAString(value)),
            }
        } else if key == "env"@ || key == "Env"@ {
            match unquoted(value) {
                Some(name) => Ok(SourceView::Env(name)),
                None => Err(RequestErrorView::NotAString(value)),
            }
        } else {
            Err(RequestErrorView::UnknownSource(key))
        }
    }
}

/// Takes the double quotes off a string.
fn unquote(value: &String) -> (out: Option<String>)
    ensures
        match unquoted(value@) {
            Some(inner) => out matches Some(o) && o@ == inner,
            None => out is None,
        },
{
    let chars = chars_of(value.as_str());
    let n = chars.len();
    if n >= 2 && chars[0] == '"' && chars[n - 1] == '"' {
        Some(cut(value.as_str(), 1, n - 1))
    } else {
        None
    }
}

/// Finds the source that a request names.
pub fn source(request: &Request) -> (out: Result<Source, RequestError>)
    ensures
        match source_of(request@.statements) {
            Ok(source) => out matches Ok(o) && o@ == source,
            Err(e) => out matches Err(o) && o@ == e,
        },
{
    if request.statements.len() == 0 {
        return Err(RequestError::MissingSource);
    }
    let key = &request.statements[0].0;
    let value = &request.statements[0].1;
    if *key == "path".to_owned() || *key == "Path".to_owned() {
        match unquote(value) {
            Some(path) => Ok(Source::Path(path)),
            None => Err(RequestError::NotAString(value.clone())),
        }
    } else if *key == "env".to_owned() || *key == "Env".to_owned() {
        match unquote(value) {
            Some(name) => Ok(Source::Env(name)),
            None => Err(RequestError::NotAString(value.clone())),
        }
    } else {
        Err(RequestError::UnknownSource(key.clone()))
    }
}

/// The text that a request expands to against the configuration whose text is
/// `config`.
pub open spec fn parsed(text: Seq<char>, config: Seq<char>) -> Result<Seq<char>, ExpandErrorView> {
    match request_of(text) {
        Err(e) => Err(ExpandErrorView::Request(e)),
        Ok(request) => match source_of(request.statements) {
            Err(e) => Err(ExpandErrorView::Request(e)),
            Ok(_) => match toml_document(config) {
                None => Err(ExpandErrorView::Source(ParseErrorView::Syntax)),
                Some(document) => match config_of(document) {
                    Err(e) => Err(ExpandErrorView::Source(e)),
                    Ok(layer) => expanded(request.component, seq![layer]),
                },
            },
        },
    }
}

/// Expands a request that names the source of its configuration, where `config` is
/// the text read from that source: the component's requirements are resolved, in the
/// component's scope, against what the source declares.
pub fn parse(text: &str, config: &str) -> (out: Result<String, ExpandError>)
    ensures
        match parsed(text@, config@) {
            Ok(expansion) => out matches Ok(o) && o@ == expansion,
            Err(e) => out matches Err(o) && o@ == e,
        },
{
    let request = match parse_request(text) {
        Ok(request) => request,
        Err(e) => {
            return Err(ExpandError::Request(e));
        },
    };
    match source(&request) {
        Ok(_) => {},
        Err(e) => {
            return Err(ExpandError::Request(e));
        },
    }
    let layer = match Config::from_toml(config) {
        Ok(layer) => layer,
        Err(e) => {
            return Err(ExpandError::Source(e));
        },
    };
    let mut layers: Vec<Config> = Vec::new();
    let ghost view = layer@;
    layers.push(layer);
    proof {
        assert(views(layers@) =~= seq![view]);
    }
    expand(&request.component, &layers)
}

} // verus!
