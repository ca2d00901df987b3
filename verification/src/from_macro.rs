//! Requests that declare their instances themselves.

use vstd::prelude::*;
use crate::assoc::views;
use crate::blocks::{declarations, written};
use crate::expand::{expand, expanded, ExpandError, ExpandErrorView};
use crate::layers::{Config, ConfigView};
use crate::request::{parse_request, request_of};
use crate::types::{ArchitectureView, ModuleView};

verus! {

/// The layer that the statements of a request make: each declares the instance of
/// an interface, for every scope.
pub open spec fn declared_layer(statements: Seq<(Seq<char>, Seq<char>)>) -> ConfigView {
    ConfigView {
        libraries: declarations(
            seq![ArchitectureView::Common],
            seq![ModuleView::Common],
            statements,
        ),
        components: Map::empty(),
    }
}

/// The text that a request with its own declarations expands to.
pub open spec fn parsed(text: Seq<char>) -> Result<Seq<char>, ExpandErrorView> {
    match request_of(text) {
        Err(e) => Err(ExpandErrorView::Request(e)),
        Ok(request) => expanded(request.component, seq![declared_layer(request.statements)]),
    }
}

/// Expands a request that declares its instances itself: the component's
/// requirements are resolved against the declarations, and the result is the
/// component with the tree of its instances, `MyDriver<DebugLibBase<PrintLibBase>>`.
pub fn parse(text: &str) -> (out: Result<String, ExpandError>)
    ensures
        match parsed(text@) {
            Ok(expansion) => out matches Ok(o) && o@ == expansion,
            Err(e) => out matches Err(o) && o@ == e,
        },
{
    let request = match parse_request(text) {
        Ok(request) => request,
        Err(e) => {
            return Err(ExpandError::Request(e));
        },
    };
    let mut layers: Vec<Config> = Vec::new();
    layers.push(Config::from_declarations(&request.statements));
    proof {
        assert(views(layers@) =~= seq![declared_layer(request@.statements)]);
    }
    expand(&request.component, &layers)
}

} // verus!
