use vstd::prelude::*;

verus! {

/// A term of the untyped lambda calculus in de Bruijn index form.
///
/// `Var(i)` counts enclosing binders outward, `0` being the innermost one;
/// `Abs` binds one implicit variable; `App` is application. Every operation
/// builds a fresh tree, nothing is shared or mutated in place.
#[derive(Debug)]
pub enum Term {
    Var(usize),
    Abs(Box<Term>),
    App(Box<Term>, Box<Term>),
}

/// Every variable index in `t` is strictly below `depth`, counting the
/// abstractions passed on the way down. A term produced by the parser
/// satisfies this with the depth of its binder context, so no free
/// variable ever reaches the evaluator.
pub open spec fn sp_well_scoped(t: Term, depth: int) -> bool
    decreases t,
{
    match t {
        Term::Var(i) => (i as int) < depth,
        Term::Abs(b) => sp_well_scoped(*b, depth + 1),
        Term::App(l, r) => sp_well_scoped(*l, depth) && sp_well_scoped(*r, depth),
    }
}

impl Clone for Term {
    fn clone(&self) -> (r: Term)
        ensures
            r == *self,
        decreases *self,
    {
        match self {
            Term::Var(i) => Term::Var(*i),
            Term::Abs(b) => Term::Abs(Box::new((**b).clone())),
            Term::App(l, r) => Term::App(Box::new((**l).clone()), Box::new((**r).clone())),
        }
    }
}

impl PartialEq for Term {
    fn eq(&self, other: &Term) -> (r: bool)
        decreases *self,
    {
        match (self, other) {
            (Term::Var(i), Term::Var(j)) => i == j,
            (Term::Abs(a), Term::Abs(b)) => (**a).eq(&**b),
            (Term::App(a1, a2), Term::App(b1, b2)) => (**a1).eq(&**b1) && (**a2).eq(&**b2),
            _ => false,
        }
    }
}

impl vstd::std_specs::cmp::PartialEqSpecImpl for Term {
    open spec fn obeys_eq_spec() -> bool {
        true
    }

    open spec fn eq_spec(&self, other: &Term) -> bool {
        *self == *other
    }
}

/// The decimal digit character for `d`, which must lie in `0..10`.
pub open spec fn sp_digit(d: int) -> char {
    if d == 0 {
        '0'
    } else if d == 1 {
        '1'
    } else if d == 2 {
        '2'
    } else if d == 3 {
        '3'
    } else if d == 4 {
        '4'
    } else if d == 5 {
        '5'
    } else if d == 6 {
        '6'
    } else if d == 7 {
        '7'
    } else if d == 8 {
        '8'
    } else {
        '9'
    }
}

/// The decimal digit characters of `n`, most significant first.
pub open spec fn sp_digits(n: int) -> Seq<char>
    decreases n,
{
    if n < 10 {
        seq![sp_digit(n)]
    } else {
        sp_digits(n / 10).push(sp_digit(n % 10))
    }
}

fn digit_str(d: usize) -> (r: &'static str)
    requires
        d < 10,
    ensures
        r@ == seq![sp_digit(d as int)],
{
    if d == 0 {
        proof {
            reveal_strlit("0");
            assert("0"@ =~= seq!['0']);
        }
        "0"
    } else if d == 1 {
        proof {
            reveal_strlit("1");
            assert("1"@ =~= seq!['1']);
        }
        "1"
    } else if d == 2 {
        proof {
            reveal_strlit("2");
            assert("2"@ =~= seq!['2']);
        }
        "2"
    } else if d == 3 {
        proof {
            reveal_strlit("3");
            assert("3"@ =~= seq!['3']);
        }
        "3"
    } else if d == 4 {
        proof {
            reveal_strlit("4");
            assert("4"@ =~= seq!['4']);
        }
        "4"
    } else if d == 5 {
        proof {
            reveal_strlit("5");
            assert("5"@ =~= seq!['5']);
        }
        "5"
    } else if d == 6 {
        proof {
            reveal_strlit("6");
            assert("6"@ =~= seq!['6']);
        }
        "6"
    } else if d == 7 {
        proof {
            reveal_strlit("7");
            assert("7"@ =~= seq!['7']);
        }
        "7"
    } else if d == 8 {
        proof {
            reveal_strlit("8");
            assert("8"@ =~= seq!['8']);
        }
        "8"
    } else {
        proof {
            reveal_strlit("9");
            assert("9"@ =~= seq!['9']);
        }
        "9"
    }
}

fn index_string(i: usize) -> (r: String)
    ensures
        r@ == sp_digits(i as int),
    decreases i,
{
    if i < 10 {
        String::from_str(digit_str(i))
    } else {
        let prefix = index_string(i / 10);
        let r = prefix.concat(digit_str(i % 10));
        proof {
            assert(sp_digits((i as int) / 10).push(sp_digit((i as int) % 10)) =~= sp_digits(
                (i as int) / 10,
            ) + seq![sp_digit((i as int) % 10)]);
        }
        r
    }
}

/// The indexed rendering of a term: `Var(i)` as the decimal digits of `i`,
/// `Abs(b)` as `λ.` followed by the body, `App(l, r)` as `(l r)`.
pub open spec fn sp_render(t: Term) -> Seq<char>
    decreases t,
{
    match t {
        Term::Var(i) => sp_digits(i as int),
        Term::Abs(b) => seq!['λ', '.'] + sp_render(*b),
        Term::App(l, r) => seq!['('] + sp_render(*l) + seq![' '] + sp_render(*r) + seq![')'],
    }
}

impl Term {
    /// Renders the term in indexed notation, exactly as `sp_render` states.
    pub fn render(&self) -> (r: String)
        ensures
            r@ == sp_render(*self),
        decreases *self,
    {
        match self {
            Term::Var(i) => index_string(*i),
            Term::Abs(b) => {
                let head = String::from_str("λ.");
                let body = b.render();
                let r = head.concat(body.as_str());
                proof {
                    reveal_strlit("λ.");
                    assert(r@ =~= seq!['λ', '.'] + sp_render(**b));
                }
                r
            },
            Term::App(l, r) => {
                let left = l.render();
                let right = r.render();
                let out = String::from_str("(").concat(left.as_str()).concat(" ").concat(
                    right.as_str(),
                ).concat(")");
                proof {
                    reveal_strlit("(");
                    reveal_strlit(" ");
                    reveal_strlit(")");
                    assert(out@ =~= seq!['('] + sp_render(**l) + seq![' '] + sp_render(**r) + seq![
                        ')',
                    ]);
                }
                out
            },
        }
    }
}

} // verus!
