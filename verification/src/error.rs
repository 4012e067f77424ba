use vstd::prelude::*;

verus! {

/// A parse failure: either a grammatical error with a description of what
/// was expected, or a reference to an identifier with no enclosing binder.
#[derive(Debug)]
pub enum ParseError {
    InvalidSyntax(String),
    UnboundVariable(String),
}

/// The mathematical content of a `ParseError`: the same two cases, carrying
/// the character sequences of the message or the variable name.
pub enum ErrView {
    Invalid(Seq<char>),
    Unbound(Seq<char>),
}

/// What a `ParseError` value says, with its text taken as a sequence of
/// characters. Contracts speak of errors through this view.
pub open spec fn sp_err_view(e: ParseError) -> ErrView {
    match e {
        ParseError::InvalidSyntax(m) => ErrView::Invalid(m@),
        ParseError::UnboundVariable(n) => ErrView::Unbound(n@),
    }
}

impl PartialEq for ParseError {
    fn eq(&self, other: &ParseError) -> (r: bool) {
        match (self, other) {
            (ParseError::InvalidSyntax(a), ParseError::InvalidSyntax(b)) => a.eq(b),
            (ParseError::UnboundVariable(a), ParseError::UnboundVariable(b)) => a.eq(b),
            _ => false,
        }
    }
}

impl vstd::std_specs::cmp::PartialEqSpecImpl for ParseError {
    open spec fn obeys_eq_spec() -> bool {
        true
    }

    open spec fn eq_spec(&self, other: &ParseError) -> bool {
        match (self, other) {
            (ParseError::InvalidSyntax(a), ParseError::InvalidSyntax(b)) => a@ == b@,
            (ParseError::UnboundVariable(a), ParseError::UnboundVariable(b)) => a@ == b@,
            _ => false,
        }
    }
}

/// The user-visible wording of a parse failure.
pub open spec fn sp_message(e: ParseError) -> Seq<char> {
    match e {
        ParseError::InvalidSyntax(m) => "Syntax error: "@ + m@,
        ParseError::UnboundVariable(n) => "Unbound variable: "@ + n@,
    }
}

impl ParseError {
    /// The message shown for this failure: `Syntax error: <msg>` or
    /// `Unbound variable: <name>`.
    pub fn message(&self) -> (r: String)
        ensures
            r@ == sp_message(*self),
    {
        match self {
            ParseError::InvalidSyntax(m) => String::from_str("Syntax error: ").concat(m.as_str()),
            ParseError::UnboundVariable(n) => String::from_str("Unbound variable: ").concat(
                n.as_str(),
            ),
        }
    }
}

} // verus!
