use lambda_calc::ast::Term;
use lambda_calc::error::ParseError;
use lambda_calc::parser::Parser;

fn var(i: usize) -> Term {
    Term::Var(i)
}

fn abs(b: Term) -> Term {
    Term::Abs(Box::new(b))
}

fn app(l: Term, r: Term) -> Term {
    Term::App(Box::new(l), Box::new(r))
}

#[test]
fn parses_identity() {
    let mut p = Parser::new("\\x.x");
    assert_eq!(p.parse(), Ok(abs(var(0))));
}

#[test]
fn parses_identity_with_lambda_glyph() {
    let mut p = Parser::new("λx.x");
    assert_eq!(p.parse(), Ok(abs(var(0))));
}

#[test]
fn parses_application_of_identities() {
    let mut p = Parser::new("(\\x.x) (\\y.y)");
    assert_eq!(p.parse(), Ok(app(abs(var(0)), abs(var(0)))));
}

#[test]
fn free_variable_is_unbound() {
    let mut p = Parser::new("x");
    assert_eq!(
        p.parse(),
        Err(ParseError::UnboundVariable(String::from("x")))
    );
}

#[test]
fn unbound_variable_inside_abstraction_body() {
    let mut p = Parser::new("\\x.x y");
    assert_eq!(
        p.parse(),
        Err(ParseError::UnboundVariable(String::from("y")))
    );
}

#[test]
fn nested_binders_resolve_by_distance() {
    let mut p = Parser::new("\\x.\\y.x y");
    assert_eq!(p.parse(), Ok(abs(abs(app(var(1), var(0))))));
}

#[test]
fn shadowing_picks_nearest_binder() {
    let mut p = Parser::new("\\x.\\x.x");
    assert_eq!(p.parse(), Ok(abs(abs(var(0)))));
}

#[test]
fn application_is_left_associative() {
    let mut p = Parser::new("\\a.\\b.\\c.a b c");
    assert_eq!(
        p.parse(),
        Ok(abs(abs(abs(app(app(var(2), var(1)), var(0))))))
    );
}

#[test]
fn missing_dot_reports_syntax_error() {
    let mut p = Parser::new("\\x x");
    assert_eq!(
        p.parse(),
        Err(ParseError::InvalidSyntax(String::from("Expected '.'")))
    );
}

#[test]
fn missing_identifier_reports_syntax_error() {
    let mut p = Parser::new("\\.x");
    assert_eq!(
        p.parse(),
        Err(ParseError::InvalidSyntax(String::from("Expected identifier")))
    );
}

#[test]
fn missing_close_paren_reports_syntax_error() {
    let mut p = Parser::new("(\\x.x");
    assert_eq!(
        p.parse(),
        Err(ParseError::InvalidSyntax(String::from("Expected ')'")))
    );
}

#[test]
fn empty_input_reports_missing_atom() {
    let mut p = Parser::new("");
    assert_eq!(
        p.parse(),
        Err(ParseError::InvalidSyntax(String::from("Expected atom")))
    );
}

#[test]
fn trailing_characters_are_ignored() {
    let mut p = Parser::new("\\x.x )))");
    assert_eq!(p.parse(), Ok(abs(var(0))));
}

#[test]
fn whitespace_is_insignificant() {
    let mut p = Parser::new("  \\x .  x  ");
    assert_eq!(p.parse(), Ok(abs(var(0))));
}

#[test]
fn multi_line_skips_comments_and_blanks() {
    let mut p = Parser::new("# a comment\n\n\\x.x\n(\\x.x) (\\y.y)\n");
    let results = p.parse_multi_line();
    assert_eq!(results.len(), 2);
    assert_eq!(results[0], Ok(abs(var(0))));
    assert_eq!(results[1], Ok(app(abs(var(0)), abs(var(0)))));
}

#[test]
fn multi_line_keeps_errors_in_order() {
    let mut p = Parser::new("y\n  # indented comment\n\\x.x");
    let results = p.parse_multi_line();
    assert_eq!(results.len(), 2);
    assert_eq!(
        results[0],
        Err(ParseError::UnboundVariable(String::from("y")))
    );
    assert_eq!(results[1], Ok(abs(var(0))));
}

#[test]
fn multi_line_handles_carriage_returns() {
    let mut p = Parser::new("\\x.x\r\n\\y.y\r\n");
    let results = p.parse_multi_line();
    assert_eq!(results.len(), 2);
    assert_eq!(results[0], Ok(abs(var(0))));
    assert_eq!(results[1], Ok(abs(var(0))));
}

#[test]
fn error_messages_render() {
    assert_eq!(
        ParseError::InvalidSyntax(String::from("Expected atom")).message(),
        String::from("Syntax error: Expected atom")
    );
    assert_eq!(
        ParseError::UnboundVariable(String::from("x")).message(),
        String::from("Unbound variable: x")
    );
}

fn assert_well_scoped(t: &Term, depth: usize) {
    match t {
        Term::Var(i) => assert!(*i < depth),
        Term::Abs(b) => assert_well_scoped(b, depth + 1),
        Term::App(l, r) => {
            assert_well_scoped(l, depth);
            assert_well_scoped(r, depth);
        }
    }
}

#[test]
fn parsed_terms_are_well_scoped() {
    // Every index stays below the number of enclosing binders.
    let mut p = Parser::new("\\f.\\g.\\x.f (g x)");
    let t = p.parse().unwrap();
    assert_well_scoped(&t, 0);
}

#[test]
fn unbound_variable_in_second_atom_propagates() {
    let mut p = Parser::new("(\\x.x) y");
    assert_eq!(
        p.parse(),
        Err(ParseError::UnboundVariable(String::from("y")))
    );
}

#[test]
fn unbound_variable_inside_parenthesised_atom_propagates() {
    let mut p = Parser::new("\\x.x (y)");
    assert_eq!(
        p.parse(),
        Err(ParseError::UnboundVariable(String::from("y")))
    );
}

#[test]
fn unclosed_paren_in_abstraction_body() {
    let mut p = Parser::new("\\x.(x");
    assert_eq!(
        p.parse(),
        Err(ParseError::InvalidSyntax(String::from("Expected ')'")))
    );
}

#[test]
fn lambda_glyph_body_reports_unbound_variable() {
    let mut p = Parser::new("λx.x y");
    assert_eq!(
        p.parse(),
        Err(ParseError::UnboundVariable(String::from("y")))
    );
}

#[test]
fn comment_only_input_yields_no_results() {
    let mut p = Parser::new("# nothing here\n   \n\t\n");
    let results = p.parse_multi_line();
    assert_eq!(results.len(), 0);
}
