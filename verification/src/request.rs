//! Requests: the text in which a component says what it requires and where the
//! instances come from.
//!
//! A request begins with the component and the interfaces it requires,
//! `MyDriver<DebugLib, AdvLib>;`. Statements follow, each `key = value`, one ended
//! by `;` before the next. A statement declares the instance of an interface,
//! `DebugLib = DebugLibBase<PrintLib>`, or names the source of a configuration,
//! `Path = "platform.toml"` or `Env = "PLATFORM_CONFIG"`.

use vstd::prelude::*;
use crate::text::{
    chars_of, cut, find_char, first_index, names_between, names_in, trim_range, trimmed,
};

verus! {

/// What a [`Component`] stands for in contracts.
pub struct ComponentView {
    pub name: Seq<char>,
    pub library_list: Seq<Seq<char>>,
}

/// A component and the interfaces it requires, in the order in which it names them.
#[derive(Debug, PartialEq, Eq)]
pub struct Component {
    pub name: String,
    pub library_list: Vec<String>,
}

impl View for Component {
    type V = ComponentView;

    open spec fn view(&self) -> ComponentView {
        ComponentView { name: self.name@, library_list: self.library_list.deep_view() }
    }
}

/// What a [`Request`] stands for in contracts.
pub struct RequestView {
    pub component: ComponentView,
    pub statements: Seq<(Seq<char>, Seq<char>)>,
}

/// A request: the component, and the statements after it, each a key with its value.
#[derive(Debug, PartialEq, Eq)]
pub struct Request {
    pub component: Component,
    pub statements: Vec<(String, String)>,
}

/// The views of a list of statements, in order.
pub open spec fn statements_view(statements: Seq<(String, String)>) -> Seq<
    (Seq<char>, Seq<char>),
> {
    Seq::new(statements.len(), |i: int| (statements[i].0@, statements[i].1@))
}

impl View for Request {
    type V = RequestView;

    open spec fn view(&self) -> RequestView {
        RequestView {
            component: self.component@,
            statements: statements_view(self.statements@),
        }
    }
}

/// What a [`RequestError`] stands for in contracts.
pub enum RequestErrorView {
    MissingSemicolon,
    MissingOpen,
    MissingClose,
    MissingName,
    NoRequirements,
    TrailingText,
    MissingEquals(Seq<char>),
    MissingKey(Seq<char>),
    MissingValue(Seq<char>),
    MissingSource,
    UnknownSource(Seq<char>),
    NotAString(Seq<char>),
}

/// Why the text of a request was refused.
#[derive(Debug, PartialEq, Eq)]
pub enum RequestError {
    /// No `;` ends the component.
    MissingSemicolon,
    /// No `<` opens the list of required interfaces.
    MissingOpen,
    /// No `>` closes the list of required interfaces.
    MissingClose,
    /// Nothing names the component.
    MissingName,
    /// The list of required interfaces names none.
    NoRequirements,
    /// Something stands between the `>` of the component and its `;`.
    TrailingText,
    /// A statement has no `=`; the payload is the statement.
    MissingEquals(String),
    /// Nothing stands before the `=` of a statement; the payload is the statement.
    MissingKey(String),
    /// Nothing stands after the `=` of a statement; the payload is its key.
    MissingValue(String),
    /// No statement names a source.
    MissingSource,
    /// The first statement names neither a path nor a variable of the environment;
    /// the payload is its key.
    UnknownSource(String),
    /// The source is not given as a string between double quotes; the payload is
    /// what is given.
    NotAString(String),
}

impl View for RequestError {
    type V = RequestErrorView;

    open spec fn view(&self) -> RequestErrorView {
        match self {
            RequestError::MissingSemicolon => RequestErrorView::MissingSemicolon,
            RequestError::MissingOpen => RequestErrorView::MissingOpen,
            RequestError::MissingClose => RequestErrorView::MissingClose,
            RequestError::MissingName => RequestErrorView::MissingName,
            RequestError::NoRequirements => RequestErrorView::NoRequirements,
            RequestError::TrailingText => RequestErrorView::TrailingText,
            RequestError::MissingEquals(s) => RequestErrorView::MissingEquals(s@),
            RequestError::MissingKey(s) => RequestErrorView::MissingKey(s@),
            RequestError::MissingValue(s) => RequestErrorView::MissingValue(s@),
            RequestError::MissingSource => RequestErrorView::MissingSource,
            RequestError::UnknownSource(s) => RequestErrorView::UnknownSource(s@),
            RequestError::NotAString(s) => RequestErrorView::NotAString(s@),
        }
    }
}

/// The component that `header` names: a name, and between `<` and `>` the interfaces
/// it requires, at least one, separated by commas. Blanks around the parts do not
/// count, and nothing may follow the `>`.
pub open spec fn component_of(header: Seq<char>) -> Result<ComponentView, RequestErrorView> {
    let open = first_index(header, '<');
    let inner = header.skip(open + 1);
    let close = first_index(inner, '>');
    if open >= header.len() {
        Err(RequestErrorView::MissingOpen)
    } else if trimmed(header.take(open)).len() == 0 {
        Err(RequestErrorView::MissingName)
    } else if close >= inner.len() {
        Err(RequestErrorView::MissingClose)
    } else if trimmed(inner.skip(close + 1)).len() > 0 {
        Err(RequestErrorView::TrailingText)
    } else if names_in(inner.take(close)).len() == 0 {
        Err(RequestErrorView::NoRequirements)
    } else {
        Ok(
            ComponentView {
                name: trimmed(header.take(open)),
                library_list: names_in(inner.take(close)),
            },
        )
    }
}

/// The statement that `piece` holds: the key before the first `=` and the value
/// after it, both without the blanks around them, and neither empty.
pub open spec fn statement_of(piece: Seq<char>) -> Result<(Seq<char>, Seq<char>), RequestErrorView> {
    let equals = first_index(piece, '=');
    if equals >= piece.len() {
        Err(RequestErrorView::MissingEquals(trimmed(piece)))
    } else if trimmed(piece.take(equals)).len() == 0 {
        Err(RequestErrorView::MissingKey(trimmed(piece)))
    } else if trimmed(piece.skip(equals + 1)).len() == 0 {
        Err(RequestErrorView::MissingValue(trimmed(piece.take(equals))))
    } else {
        Ok((trimmed(piece.take(equals)), trimmed(piece.skip(equals + 1))))
    }
}

/// The statements that `text` holds: its pieces between semicolons, in order, the
/// blank ones passed over; or the error of the first piece that is no statement.
pub open spec fn statements_of(text: Seq<char>) -> Result<
    Seq<(Seq<char>, Seq<char>)>,
    RequestErrorView,
>
    decreases text.len(),
{
    let end = first_index(text, ';');
    let piece = text.take(end);
    let rest = if 0 <= end < text.len() {
        statements_of(text.skip(end + 1))
    } else {
        Ok(Seq::empty())
    };
    if trimmed(piece).len() == 0 {
        rest
    } else {
        match statement_of(piece) {
            Err(e) => Err(e),
            Ok(statement) => match rest {
                Err(e) => Err(e),
                Ok(more) => Ok(seq![statement] + more),
            },
        }
    }
}

/// The request that `text` holds: the component up to the first `;`, and the
/// statements after it.
pub open spec fn request_of(text: Seq<char>) -> Result<RequestView, RequestErrorView> {
    let end = first_index(text, ';');
    if end >= text.len() {
        Err(RequestErrorView::MissingSemicolon)
    } else {
        match component_of(text.take(end)) {
            Err(e) => Err(e),
            Ok(component) => match statements_of(text.skip(end + 1)) {
                Err(e) => Err(e),
                Ok(statements) => Ok(RequestView { component, statements }),
            },
        }
    }
}

/// Reads the component out of `source[from..to]`.
fn read_component(source: &str, chars: &Vec<char>, from: usize, to: usize) -> (out: Result<
    Component,
    RequestError,
>)
    requires
        chars@ == source@,
        from <= to <= chars.len(),
    ensures
        match component_of(chars@.subrange(from as int, to as int)) {
            Ok(component) => out matches Ok(o) && o@ == component,
            Err(e) => out matches Err(o) && o@ == e,
        },
{
    let ghost header = chars@.subrange(from as int, to as int);
    let open = find_char(chars, from, to, '<');
    if open >= to {
        return Err(RequestError::MissingOpen);
    }
    let ghost inner = header.skip(open - from + 1);
    assert(header.take(open - from) =~= chars@.subrange(from as int, open as int));
    assert(inner =~= chars@.subrange(open + 1, to as int));
    let (a, b) = trim_range(chars, from, open);
    if a >= b {
        return Err(RequestError::MissingName);
    }
    let close = find_char(chars, open + 1, to, '>');
    if close >= to {
        return Err(RequestError::MissingClose);
    }
    assert(inner.skip(close - (open + 1) + 1) =~= chars@.subrange(close + 1, to as int));
    assert(inner.take(close - (open + 1)) =~= chars@.subrange(open + 1, close as int));
    let (c, d) = trim_range(chars, close + 1, to);
    if c < d {
        return Err(RequestError::TrailingText);
    }
    let library_list = names_between(source, chars, open + 1, close);
    if library_list.len() == 0 {
        return Err(RequestError::NoRequirements);
    }
    Ok(Component { name: cut(source, a, b), library_list })
}

/// Reads the statement out of `source[from..to]`.
fn read_statement(source: &str, chars: &Vec<char>, from: usize, to: usize) -> (out: Result<
    (String, String),
    RequestError,
>)
    requires
        chars@ == source@,
        from <= to <= chars.len(),
    ensures
        match statement_of(chars@.subrange(from as int, to as int)) {
            Ok(statement) => out matches Ok(o) && (o.0@, o.1@) == statement,
            Err(e) => out matches Err(o) && o@ == e,
        },
{
    let ghost piece = chars@.subrange(from as int, to as int);
    let equals = find_char(chars, from, to, '=');
    if equals >= to {
        let (a, b) = trim_range(chars, from, to);
        return Err(RequestError::MissingEquals(cut(source, a, b)));
    }
    assert(piece.take(equals - from) =~= chars@.subrange(from as int, equals as int));
    assert(piece.skip(equals - from + 1) =~= chars@.subrange(equals + 1, to as int));
    let (a, b) = trim_range(chars, from, equals);
    if a >= b {
        let (c, d) = trim_range(chars, from, to);
        return Err(RequestError::MissingKey(cut(source, c, d)));
    }
    let (c, d) = trim_range(chars, equals + 1, to);
    if c >= d {
        return Err(RequestError::MissingValue(cut(source, a, b)));
    }
    Ok((cut(source, a, b), cut(source, c, d)))
}

/// `front`, followed by the statements that `rest` holds.
pub open spec fn statements_after(
    front: Seq<(Seq<char>, Seq<char>)>,
    rest: Result<Seq<(Seq<char>, Seq<char>)>, RequestErrorView>,
) -> Result<Seq<(Seq<char>, Seq<char>)>, RequestErrorView> {
    match rest {
        Ok(more) => Ok(front + more),
        Err(e) => Err(e),
    }
}

/// Reads the statements out of `source[from..to]`.
fn read_statements(source: &str, chars: &Vec<char>, from: usize, to: usize) -> (out: Result<
    Vec<(String, String)>,
    RequestError,
>)
    requires
        chars@ == source@,
        from <= to <= chars.len(),
    ensures
        match statements_of(chars@.subrange(from as int, to as int)) {
            Ok(statements) => out matches Ok(o) && statements_view(o@) == statements,
            Err(e) => out matches Err(o) && o@ == e,
        },
{
    let ghost all = statements_of(chars@.subrange(from as int, to as int));
    let mut out: Vec<(String, String)> = Vec::new();
    let mut start: usize = from;
    let mut more: bool = true;
    while more
        invariant
            chars@ == source@,
            from <= start <= to <= chars.len(),
            all == statements_of(chars@.subrange(from as int, to as int)),
            all == statements_after(
                statements_view(out@),
                if more {
                    statements_of(chars@.subrange(start as int, to as int))
                } else {
                    Ok(Seq::empty())
                },
            ),
        decreases to - start + (if more { 1int } else { 0int }),
    {
        let ghost text = chars@.subrange(start as int, to as int);
        let ghost before = statements_view(out@);
        let end = find_char(chars, start, to, ';');
        proof {
            assert(text.take(end - start) =~= chars@.subrange(start as int, end as int));
            if end < to {
                assert(text.skip(end - start + 1) =~= chars@.subrange(end + 1, to as int));
            }
        }
        let (a, b) = trim_range(chars, start, end);
        if a < b {
            match read_statement(source, chars, start, end) {
                Err(e) => {
                    return Err(e);
                },
                Ok(statement) => {
                    let ghost view = (statement.0@, statement.1@);
                    out.push(statement);
                    proof {
                        assert(statements_view(out@) =~= before.push(view));
                        let rest = if end < to {
                            statements_of(chars@.subrange(end + 1, to as int))
                        } else {
                            Ok(Seq::empty())
                        };
                        if rest is Ok {
                            assert(before + (seq![view] + rest->Ok_0) =~= before.push(view)
                                + rest->Ok_0);
                        }
                    }
                },
            }
        }
        if end < to {
            start = end + 1;
        } else {
            more = false;
        }
    }
    Ok(out)
}

/// Reads statements out of their text, each `key = value`, one ended by `;` before
/// the next.
pub fn parse_statements(text: &str) -> (out: Result<Vec<(String, String)>, RequestError>)
    ensures
        match statements_of(text@) {
            Ok(statements) => out matches Ok(o) && statements_view(o@) == statements,
            Err(e) => out matches Err(o) && o@ == e,
        },
{
    let chars = chars_of(text);
    assert(chars@.subrange(0, chars.len() as int) =~= chars@);
    read_statements(text, &chars, 0, chars.len())
}

/// Reads a request out of its text.
pub fn parse_request(text: &str) -> (out: Result<Request, RequestError>)
    ensures
        match request_of(text@) {
            Ok(request) => out matches Ok(o) && o@ == request,
            Err(e) => out matches Err(o) && o@ == e,
        },
{
    let chars = chars_of(text);
    assert(chars@.subrange(0, chars.len() as int) =~= chars@);
    let end = find_char(&chars, 0, chars.len(), ';');
    if end >= chars.len() {
        return Err(RequestError::MissingSemicolon);
    }
    let component = match read_component(text, &chars, 0, end) {
        Ok(component) => component,
        Err(e) => {
            return Err(e);
        },
    };
    let statements = match read_statements(text, &chars, end + 1, chars.len()) {
        Ok(statements) => statements,
        Err(e) => {
            return Err(e);
        },
    };
    Ok(Request { component, statements })
}

} // verus!
