//! From a component and the layers of its configuration to the text of its tree.

use vstd::prelude::*;
use crate::assoc::views;
use crate::layers::{Config, ConfigView};
use crate::render::{render_component, rendered_component};
use crate::request::{Component, ComponentView, RequestError, RequestErrorView};
use crate::resolver::{
    resolve, resolved_tree, ResolutionError, ResolutionErrorView, ScopePolicy,
};
use crate::source::{ParseError, ParseErrorView};

verus! {

/// What an [`ExpandError`] stands for in contracts.
pub enum ExpandErrorView {
    Request(RequestErrorView),
    Source(ParseErrorView),
    Resolution(ResolutionErrorView),
}

/// Why a request was not expanded.
#[derive(Debug, PartialEq, Eq)]
pub enum ExpandError {
    /// The text of the request was refused.
    Request(RequestError),
    /// The configuration source was refused.
    Source(ParseError),
    /// The component's requirements could not be resolved.
    Resolution(ResolutionError),
}

impl View for ExpandError {
    type V = ExpandErrorView;

    open spec fn view(&self) -> ExpandErrorView {
        match self {
            ExpandError::Request(e) => ExpandErrorView::Request(e@),
            ExpandError::Source(e) => ExpandErrorView::Source(e@),
            ExpandError::Resolution(e) => ExpandErrorView::Resolution(e@),
        }
    }
}

/// The text that a component expands to against `layers`: its name with the text of
/// its resolved tree, or the error of the resolution.
pub open spec fn expanded(component: ComponentView, layers: Seq<ConfigView>) -> Result<
    Seq<char>,
    ExpandErrorView,
> {
    match resolved_tree(
        component.name,
        component.library_list,
        layers,
        ScopePolicy::DefaultToCommon,
    ) {
        Ok(tree) => Ok(rendered_component(component.name, tree)),
        Err(e) => Err(ExpandErrorView::Resolution(e)),
    }
}

/// Expands a component against the layers of its configuration, the layer of the
/// highest priority first.
pub fn expand(component: &Component, layers: &Vec<Config>) -> (out: Result<String, ExpandError>)
    ensures
        match expanded(component@, views(layers@)) {
            Ok(text) => out matches Ok(o) && o@ == text,
            Err(e) => out matches Err(o) && o@ == e,
        },
{
    match resolve(component.name.as_str(), &component.library_list, layers) {
        Ok(tree) => Ok(render_component(component.name.as_str(), &tree)),
        Err(e) => Err(ExpandError::Resolution(e)),
    }
}

} // verus!
