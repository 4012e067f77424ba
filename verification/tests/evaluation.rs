use lambda_calc::ast::Term;
use lambda_calc::evaluator::beta_reduce;
use lambda_calc::evaluator::evaluate;
use lambda_calc::parser::Parser;

fn var(i: usize) -> Term {
    Term::Var(i)
}

fn abs(b: Term) -> Term {
    Term::Abs(Box::new(b))
}

fn app(l: Term, r: Term) -> Term {
    Term::App(Box::new(l), Box::new(r))
}

#[test]
fn identity_is_already_normal() {
    let t = abs(var(0));
    assert_eq!(evaluate(t.clone()), t);
}

#[test]
fn identity_applied_to_identity_reduces() {
    let t = app(abs(var(0)), abs(var(0)));
    assert_eq!(evaluate(t), abs(var(0)));
}

#[test]
fn renders_identity() {
    assert_eq!(abs(var(0)).render(), String::from("λ.0"));
}

#[test]
fn renders_application() {
    assert_eq!(
        app(abs(var(0)), abs(var(0))).render(),
        String::from("(λ.0 λ.0)")
    );
}

#[test]
fn renders_multi_digit_indices() {
    assert_eq!(var(120).render(), String::from("120"));
    assert_eq!(var(0).render(), String::from("0"));
}

#[test]
fn evaluation_is_idempotent_on_samples() {
    let samples = vec![
        abs(var(0)),
        app(abs(var(0)), abs(var(0))),
        abs(abs(app(var(1), var(0)))),
        app(abs(abs(var(1))), abs(var(0))),
    ];
    for t in samples {
        let once = evaluate(t);
        let twice = evaluate(once.clone());
        assert_eq!(twice, once);
    }
}

#[test]
fn parse_then_evaluate_scenario() {
    let mut p = Parser::new("(\\x.x) (\\y.y)");
    let t = p.parse().unwrap();
    let v = evaluate(t);
    assert_eq!(v, abs(var(0)));
    assert_eq!(v.render(), String::from("λ.0"));
}

#[test]
fn reduction_goes_under_binders() {
    // λ.((λ.0) 0) reduces to λ.0 inside the outer abstraction.
    let t = abs(app(abs(var(0)), var(0)));
    assert_eq!(beta_reduce(&t), abs(var(0)));
}

#[test]
fn non_redex_application_reduces_both_sides() {
    // (0 ((λ.0) 1)) keeps its shape but reduces its argument.
    let t = abs(abs(app(var(0), app(abs(var(0)), var(1)))));
    assert_eq!(beta_reduce(&t), abs(abs(app(var(0), var(1)))));
}

#[test]
fn self_application_is_a_fixpoint_of_one_pass() {
    // Under this substitution, which inserts the replacement unchanged,
    // one pass maps the self-application term to itself, so stepping it
    // under any external budget never changes it.
    let omega = app(
        abs(app(var(0), var(0))),
        abs(app(var(0), var(0))),
    );
    let mut current = omega.clone();
    for _ in 0..16 {
        let next = beta_reduce(&current);
        assert_eq!(next, current);
        current = next;
    }
    assert_eq!(current, omega);
}

#[test]
fn growing_self_application_diverges_under_step_budget() {
    // (λ.(0 0) 0) applied to itself grows with every pass; a bounded
    // number of passes never reaches a fixpoint.
    let a = abs(app(app(var(0), var(0)), var(0)));
    let mut current = app(a.clone(), a);
    let mut steps = 0usize;
    while steps < 8 {
        let next = beta_reduce(&current);
        if next == current {
            break;
        }
        current = next;
        steps += 1;
    }
    assert_eq!(steps, 8);
}

#[test]
fn terms_compare_structurally() {
    assert_eq!(abs(var(0)), abs(var(0)));
    assert_ne!(abs(var(0)), abs(var(1)));
    assert_ne!(var(0), abs(var(0)));
    let t = app(abs(var(0)), var(3));
    assert_eq!(t.clone(), t);
}
