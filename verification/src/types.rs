//! Architectures and module kinds: the two halves of a scope.

use vstd::prelude::*;
use crate::source::{ParseError, ParseErrorView, SourceValue, SourceValueView};
use crate::text::{lowercase, to_lowercase};

verus! {

/// What an [`Architecture`] stands for in contracts.
pub enum ArchitectureView {
    Common,
    X64,
    Custom(Seq<char>),
}

/// A target architecture.
#[derive(Debug, PartialEq, Eq, Hash)]
pub enum Architecture {
    /// Any architecture.
    Common,
    X64,
    /// An architecture this crate has no name for, by its lowercase token.
    Custom(String),
}

impl View for Architecture {
    type V = ArchitectureView;

    open spec fn view(&self) -> ArchitectureView {
        match self {
            Architecture::Common => ArchitectureView::Common,
            Architecture::X64 => ArchitectureView::X64,
            Architecture::Custom(s) => ArchitectureView::Custom(s@),
        }
    }
}

impl Clone for Architecture {
    fn clone(&self) -> (out: Self)
        ensures
            out@ == self@,
    {
        match self {
            Architecture::Common => Architecture::Common,
            Architecture::X64 => Architecture::X64,
            Architecture::Custom(s) => Architecture::Custom(s.clone()),
        }
    }
}

/// The architecture that a token names: tokens are told apart by their lowercase
/// form, and one that is not known names a custom architecture.
pub open spec fn architecture_of(token: Seq<char>) -> ArchitectureView {
    let lowered = lowercase(token);
    if lowered == "common"@ {
        ArchitectureView::Common
    } else if lowered == "x64"@ {
        ArchitectureView::X64
    } else {
        ArchitectureView::Custom(lowered)
    }
}

/// The architecture that a source value declares: that of its token where it is a
/// string, an error else.
pub open spec fn architecture_from(value: SourceValueView) -> Result<
    ArchitectureView,
    ParseErrorView,
> {
    match value {
        SourceValueView::Text(token) => Ok(architecture_of(token)),
        _ => Err(ParseErrorView::ArchitectureNotText),
    }
}

impl Architecture {
    /// Whether two architectures are the same.
    pub fn same(&self, other: &Architecture) -> (out: bool)
        ensures
            out == (self@ == other@),
    {
        match (self, other) {
            (Architecture::Common, Architecture::Common) => true,
            (Architecture::X64, Architecture::X64) => true,
            (Architecture::Custom(a), Architecture::Custom(b)) => *a == *b,
            _ => false,
        }
    }

    /// The architecture that `token` names.
    pub fn from_token(token: &str) -> (out: Architecture)
        ensures
            out@ == architecture_of(token@),
    {
        let lowered = to_lowercase(token);
        if lowered == "common".to_owned() {
            Architecture::Common
        } else if lowered == "x64".to_owned() {
            Architecture::X64
        } else {
            Architecture::Custom(lowered)
        }
    }

    /// Reads an architecture from a source value, which has to be a string.
    pub fn try_from(value: &SourceValue) -> (out: Result<Architecture, ParseError>)
        ensures
            match architecture_from(value@) {
                Ok(a) => out matches Ok(o) && o@ == a,
                Err(e) => out matches Err(o) && o@ == e,
            },
    {
        match value {
            SourceValue::Text(token) => Ok(Architecture::from_token(token.as_str())),
            _ => Err(ParseError::ArchitectureNotText),
        }
    }
}

/// What a [`Module`] stands for in contracts.
pub enum ModuleView {
    Common,
    Std,
    DxeDriver,
    Custom(Seq<char>),
}

/// A kind of module.
#[derive(Debug, PartialEq, Eq, Hash)]
pub enum Module {
    /// Any kind of module.
    Common,
    Std,
    DxeDriver,
    /// A kind this crate has no name for, by its lowercase token.
    Custom(String),
}

impl View for Module {
    type V = ModuleView;

    open spec fn view(&self) -> ModuleView {
        match self {
            Module::Common => ModuleView::Common,
            Module::Std => ModuleView::Std,
            Module::DxeDriver => ModuleView::DxeDriver,
            Module::Custom(s) => ModuleView::Custom(s@),
        }
    }
}

impl Clone for Module {
    fn clone(&self) -> (out: Self)
        ensures
            out@ == self@,
    {
        match self {
            Module::Common => Module::Common,
            Module::Std => Module::Std,
            Module::DxeDriver => Module::DxeDriver,
            Module::Custom(s) => Module::Custom(s.clone()),
        }
    }
}

/// The module kind that a token names, told apart as architectures are.
pub open spec fn module_of(token: Seq<char>) -> ModuleView {
    let lowered = lowercase(token);
    if lowered == "common"@ {
        ModuleView::Common
    } else if lowered == "std"@ {
        ModuleView::Std
    } else if lowered == "dxe_driver"@ {
        ModuleView::DxeDriver
    } else {
        ModuleView::Custom(lowered)
    }
}

/// The module kind that a source value declares: that of its token where it is a
/// string, an error else.
pub open spec fn module_from(value: SourceValueView) -> Result<ModuleView, ParseErrorView> {
    match value {
        SourceValueView::Text(token) => Ok(module_of(token)),
        _ => Err(ParseErrorView::ModuleNotText),
    }
}

impl Module {
    /// Whether two module kinds are the same.
    pub fn same(&self, other: &Module) -> (out: bool)
        ensures
            out == (self@ == other@),
    {
        match (self, other) {
            (Module::Common, Module::Common) => true,
            (Module::Std, Module::Std) => true,
            (Module::DxeDriver, Module::DxeDriver) => true,
            (Module::Custom(a), Module::Custom(b)) => *a == *b,
            _ => false,
        }
    }

    /// The module kind that `token` names.
    pub fn from_token(token: &str) -> (out: Module)
        ensures
            out@ == module_of(token@),
    {
        let lowered = to_lowercase(token);
        if lowered == "common".to_owned() {
            Module::Common
        } else if lowered == "std".to_owned() {
            Module::Std
        } else if lowered == "dxe_driver".to_owned() {
            Module::DxeDriver
        } else {
            Module::Custom(lowered)
        }
    }

    /// Reads a module kind from a source value, which has to be a string.
    pub fn try_from(value: &SourceValue) -> (out: Result<Module, ParseError>)
        ensures
            match module_from(value@) {
                Ok(m) => out matches Ok(o) && o@ == m,
                Err(e) => out matches Err(o) && o@ == e,
            },
    {
        match value {
            SourceValue::Text(token) => Ok(Module::from_token(token.as_str())),
            _ => Err(ParseError::ModuleNotText),
        }
    }
}

} // verus!
