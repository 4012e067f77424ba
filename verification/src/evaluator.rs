use vstd::prelude::*;

use crate::ast::Term;

verus! {

/// Index shifting: adds `amount` to every variable index that is at least
/// `cutoff`, entering abstractions with the cutoff raised by one.
pub open spec fn sp_shift(t: Term, cutoff: int, amount: int) -> Term
    decreases t,
{
    match t {
        Term::Var(i) => if cutoff <= i as int {
            Term::Var((i as int + amount) as usize)
        } else {
            Term::Var(i)
        },
        Term::Abs(b) => Term::Abs(Box::new(sp_shift(*b, cutoff + 1, amount))),
        Term::App(l, r) => Term::App(
            Box::new(sp_shift(*l, cutoff, amount)),
            Box::new(sp_shift(*r, cutoff, amount)),
        ),
    }
}

/// Every index that shifting would touch stays a machine integer after
/// `amount` is added to it.
pub open spec fn sp_shift_in_range(t: Term, cutoff: int, amount: int) -> bool
    decreases t,
{
    match t {
        Term::Var(i) => cutoff <= i as int ==> 0 <= i as int + amount <= usize::MAX as int,
        Term::Abs(b) => sp_shift_in_range(*b, cutoff + 1, amount),
        Term::App(l, r) => sp_shift_in_range(*l, cutoff, amount) && sp_shift_in_range(
            *r,
            cutoff,
            amount,
        ),
    }
}

/// Substitution for the variable bound by the abstraction that `t` is the
/// body of: an occurrence `Var(d)` at depth `d` becomes the replacement,
/// passed through `sp_shift` with cutoff `d` and amount zero. No other
/// index is adjusted; in particular no index above the substituted slot is
/// decremented afterwards.
pub open spec fn sp_substitute(t: Term, replacement: Term, depth: int) -> Term
    decreases t,
{
    match t {
        Term::Var(i) => if i as int == depth {
            sp_shift(replacement, depth, 0)
        } else {
            Term::Var(i)
        },
        Term::Abs(b) => Term::Abs(Box::new(sp_substitute(*b, replacement, depth + 1))),
        Term::App(l, r) => Term::App(
            Box::new(sp_substitute(*l, replacement, depth)),
            Box::new(sp_substitute(*r, replacement, depth)),
        ),
    }
}

/// One reduction pass: the function position is reduced first; if it came
/// out an abstraction the redex is contracted with the argument reduced by
/// this same pass, otherwise both sides keep their one pass each. Reduction
/// goes under binders; variables are left alone.
pub open spec fn sp_reduce(t: Term) -> Term
    decreases t,
{
    match t {
        Term::App(l, r) => {
            let f = sp_reduce(*l);
            let a = sp_reduce(*r);
            match f {
                Term::Abs(body) => sp_substitute(*body, a, 0),
                _ => Term::App(Box::new(f), Box::new(a)),
            }
        },
        Term::Abs(b) => Term::Abs(Box::new(sp_reduce(*b))),
        Term::Var(_) => t,
    }
}

/// `n` reduction passes applied to `t`.
pub open spec fn sp_iterate(t: Term, n: nat) -> Term
    decreases n,
{
    if n == 0 {
        t
    } else {
        sp_reduce(sp_iterate(t, (n - 1) as nat))
    }
}

/// The fixpoint loop reaches a pass that changes nothing after finitely
/// many steps. On terms outside this set `evaluate` would never return.
pub open spec fn sp_normalizing(t: Term) -> bool {
    exists|n: nat| sp_reduce(sp_iterate(t, n)) == sp_iterate(t, n)
}

/// A shift of amount zero changes nothing. This is the shift that
/// substitution performs at each substitution site, so the replacement is
/// inserted exactly as it stands: no index of it is raised, and no index
/// above the substituted slot is decremented afterwards.
pub proof fn lemma_shift_zero(t: Term, cutoff: int)
    ensures
        sp_shift(t, cutoff, 0) == t,
    decreases t,
{
    match t {
        Term::Var(_) => {},
        Term::Abs(b) => {
            lemma_shift_zero(*b, cutoff + 1);
        },
        Term::App(l, r) => {
            lemma_shift_zero(*l, cutoff);
            lemma_shift_zero(*r, cutoff);
        },
    }
}

proof fn lemma_shift_in_range_zero(t: Term, cutoff: int)
    ensures
        sp_shift_in_range(t, cutoff, 0),
    decreases t,
{
    match t {
        Term::Var(_) => {},
        Term::Abs(b) => {
            lemma_shift_in_range_zero(*b, cutoff + 1);
        },
        Term::App(l, r) => {
            lemma_shift_in_range_zero(*l, cutoff);
            lemma_shift_in_range_zero(*r, cutoff);
        },
    }
}

proof fn lemma_shift_high_cutoff(t: Term, cutoff: int, amount: int)
    requires
        cutoff > usize::MAX as int,
    ensures
        sp_shift(t, cutoff, amount) == t,
    decreases t,
{
    match t {
        Term::Var(_) => {},
        Term::Abs(b) => {
            lemma_shift_high_cutoff(*b, cutoff + 1, amount);
        },
        Term::App(l, r) => {
            lemma_shift_high_cutoff(*l, cutoff, amount);
            lemma_shift_high_cutoff(*r, cutoff, amount);
        },
    }
}

proof fn lemma_substitute_high_depth(t: Term, replacement: Term, depth: int)
    requires
        depth > usize::MAX as int,
    ensures
        sp_substitute(t, replacement, depth) == t,
    decreases t,
{
    match t {
        Term::Var(_) => {},
        Term::Abs(b) => {
            lemma_substitute_high_depth(*b, replacement, depth + 1);
        },
        Term::App(l, r) => {
            lemma_substitute_high_depth(*l, replacement, depth);
            lemma_substitute_high_depth(*r, replacement, depth);
        },
    }
}

/// A fixpoint of the reduction pass stays itself under any number of
/// further passes.
pub proof fn lemma_iterate_stable(t: Term, n: nat)
    requires
        sp_reduce(t) == t,
    ensures
        sp_iterate(t, n) == t,
    decreases n,
{
    if n > 0 {
        lemma_iterate_stable(t, (n - 1) as nat);
    }
}

/// Iterating `m + k` passes is iterating `k` passes after `m` passes.
pub proof fn lemma_iterate_add(t: Term, m: nat, k: nat)
    ensures
        sp_iterate(t, m + k) == sp_iterate(sp_iterate(t, m), k),
    decreases k,
{
    if k > 0 {
        lemma_iterate_add(t, m, (k - 1) as nat);
    }
}

/// Any two fixpoints reached from the same starting term by iterated
/// passes are the same term, so `evaluate`'s contract determines its
/// result uniquely.
pub proof fn lemma_normal_forms_agree(t: Term, m: nat, n: nat)
    requires
        sp_reduce(sp_iterate(t, m)) == sp_iterate(t, m),
        sp_reduce(sp_iterate(t, n)) == sp_iterate(t, n),
    ensures
        sp_iterate(t, m) == sp_iterate(t, n),
{
    if m <= n {
        lemma_iterate_add(t, m, (n - m) as nat);
        lemma_iterate_stable(sp_iterate(t, m), (n - m) as nat);
    } else {
        lemma_iterate_add(t, n, (m - n) as nat);
        lemma_iterate_stable(sp_iterate(t, n), (m - n) as nat);
    }
}

/// Idempotence of evaluation: a result of `evaluate` is a fixpoint of the
/// reduction pass, so evaluating it a second time hands it back unchanged.
/// `first` stands for what `evaluate` returned on some normalizing term,
/// `second` for what a second run returned on `first`; both are
/// constrained exactly as `evaluate`'s contract constrains its result.
pub proof fn lemma_evaluate_idempotent(t: Term, first: Term, second: Term, n1: nat, n2: nat)
    requires
        first == sp_iterate(t, n1),
        sp_reduce(first) == first,
        second == sp_iterate(first, n2),
        sp_reduce(second) == second,
    ensures
        second == first,
{
    lemma_iterate_stable(first, n2);
}

fn add_signed(i: usize, amount: isize) -> (r: usize)
    requires
        0 <= i as int + amount as int <= usize::MAX as int,
    ensures
        r as int == i as int + amount as int,
{
    if amount >= 0 {
        i + (amount as usize)
    } else {
        let mag = (-(amount + 1)) as usize;
        i - mag - 1
    }
}

/// Adds `amount` to every variable index of `term` that is at least
/// `cutoff`; the primitive that adjusts a term's indices when it crosses
/// binder boundaries.
fn shift(term: &Term, cutoff: usize, amount: isize) -> (r: Term)
    requires
        sp_shift_in_range(*term, cutoff as int, amount as int),
    ensures
        r == sp_shift(*term, cutoff as int, amount as int),
    decreases *term,
{
    match term {
        Term::Var(i) => {
            if *i >= cutoff {
                Term::Var(add_signed(*i, amount))
            } else {
                Term::Var(*i)
            }
        },
        Term::Abs(b) => {
            if cutoff < usize::MAX {
                Term::Abs(Box::new(shift(b, cutoff + 1, amount)))
            } else {
                proof {
                    lemma_shift_high_cutoff(**b, cutoff as int + 1, amount as int);
                }
                Term::Abs(Box::new((**b).clone()))
            }
        },
        Term::App(l, r) => Term::App(
            Box::new(shift(l, cutoff, amount)),
            Box::new(shift(r, cutoff, amount)),
        ),
    }
}

fn substitute_helper(term: &Term, replacement: &Term, depth: usize) -> (r: Term)
    ensures
        r == sp_substitute(*term, *replacement, depth as int),
    decreases *term,
{
    match term {
        Term::Var(i) => {
            if *i == depth {
                proof {
                    lemma_shift_in_range_zero(*replacement, depth as int);
                }
                shift(replacement, depth, 0)
            } else {
                Term::Var(*i)
            }
        },
        Term::Abs(b) => {
            if depth < usize::MAX {
                Term::Abs(Box::new(substitute_helper(b, replacement, depth + 1)))
            } else {
                proof {
                    lemma_substitute_high_depth(**b, *replacement, depth as int + 1);
                }
                Term::Abs(Box::new((**b).clone()))
            }
        },
        Term::App(l, r) => Term::App(
            Box::new(substitute_helper(l, replacement, depth)),
            Box::new(substitute_helper(r, replacement, depth)),
        ),
    }
}

/// Replaces the variable bound by `body`'s own abstraction with
/// `replacement`, as `sp_substitute` states with the depth counter
/// starting at zero.
fn substitute(body: &Term, replacement: &Term) -> (r: Term)
    ensures
        r == sp_substitute(*body, *replacement, 0),
{
    substitute_helper(body, replacement, 0)
}

/// One full reduction pass over `t`, exactly `sp_reduce`. Public so that a
/// caller who cannot know whether a term normalizes can drive the passes
/// itself under a step budget of its own.
pub fn beta_reduce(t: &Term) -> (r: Term)
    ensures
        r == sp_reduce(*t),
    decreases *t,
{
    match t {
        Term::App(l, r) => {
            let f = beta_reduce(l);
            let a = beta_reduce(r);
            match f {
                Term::Abs(body) => substitute(&*body, &a),
                _ => Term::App(Box::new(f), Box::new(a)),
            }
        },
        Term::Abs(b) => Term::Abs(Box::new(beta_reduce(b))),
        Term::Var(_) => t.clone(),
    }
}

/// Applies reduction passes until one changes nothing, and returns that
/// fixpoint. The caller owes a term on which the passes do reach a
/// fixpoint; on any other term the loop would run forever, which is why
/// the contract demands `sp_normalizing`.
pub fn evaluate(term: Term) -> (r: Term)
    requires
        sp_normalizing(term),
    ensures
        sp_reduce(r) == r,
        exists|n: nat| r == sp_iterate(term, n),
{
    let ghost t0 = term;
    let ghost n0: nat = choose|n: nat|
        sp_reduce(sp_iterate(t0, n)) == sp_iterate(t0, n);
    let mut current = term;
    let ghost mut k: nat = 0;
    loop
        invariant
            t0 == term,
            current == sp_iterate(t0, k),
            k <= n0,
            sp_reduce(sp_iterate(t0, n0)) == sp_iterate(t0, n0),
        decreases n0 - k,
    {
        let next = beta_reduce(&current);
        if next == current {
            proof {
                assert(exists|n: nat| current == sp_iterate(t0, n)) by {
                    assert(current == sp_iterate(t0, k));
                }
            }
            return current;
        }
        proof {
            assert(k < n0) by {
                if k == n0 {
                    assert(next == current);
                }
            }
            k = k + 1;
        }
        current = next;
    }
}

} // verus!
