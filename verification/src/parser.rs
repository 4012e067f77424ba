use vstd::prelude::*;

use crate::ast::Term;
use crate::ast::sp_well_scoped;
use crate::error::ErrView;
use crate::error::ParseError;
use crate::error::sp_err_view;

verus! {

/// The whitespace characters that scanning skips: the Unicode white space
/// set, the same characters that `str::trim` removes at the ends of a line.
pub open spec fn sp_is_ws(c: char) -> bool {
    let u = c as u32;
    (9 <= u && u <= 13) || u == 32 || u == 0x85 || u == 0xa0 || u == 0x1680 || (0x2000 <= u && u
        <= 0x200a) || u == 0x2028 || u == 0x2029 || u == 0x202f || u == 0x205f || u == 0x3000
}

/// Identifiers consist of ASCII alphabetic characters only.
pub open spec fn sp_is_alpha(c: char) -> bool {
    let u = c as u32;
    (65 <= u && u <= 90) || (97 <= u && u <= 122)
}

fn is_ws(c: char) -> (r: bool)
    ensures
        r == sp_is_ws(c),
{
    let u = c as u32;
    (9 <= u && u <= 13) || u == 32 || u == 0x85 || u == 0xa0 || u == 0x1680 || (0x2000 <= u && u
        <= 0x200a) || u == 0x2028 || u == 0x2029 || u == 0x202f || u == 0x205f || u == 0x3000
}

fn is_alpha(c: char) -> (r: bool)
    ensures
        r == sp_is_alpha(c),
{
    let u = c as u32;
    (65 <= u && u <= 90) || (97 <= u && u <= 122)
}

/// The first position at or after `i` holding a character that is not
/// whitespace, or the end of the input.
pub open spec fn sp_skip(s: Seq<char>, i: int) -> int
    decreases s.len() - i
        when 0 <= i <= s.len()
{
    if i < s.len() && sp_is_ws(s[i]) {
        sp_skip(s, i + 1)
    } else {
        i
    }
}

/// The end of the run of ASCII alphabetic characters starting at `i`.
pub open spec fn sp_ident_end(s: Seq<char>, i: int) -> int
    decreases s.len() - i
        when 0 <= i <= s.len()
{
    if i < s.len() && sp_is_alpha(s[i]) {
        sp_ident_end(s, i + 1)
    } else {
        i
    }
}

proof fn lemma_sp_skip(s: Seq<char>, i: int)
    requires
        0 <= i <= s.len(),
    ensures
        i <= sp_skip(s, i) <= s.len(),
        sp_skip(s, i) < s.len() ==> !sp_is_ws(s[sp_skip(s, i)]),
        sp_skip(s, sp_skip(s, i)) == sp_skip(s, i),
    decreases s.len() - i,
{
    if i < s.len() && sp_is_ws(s[i]) {
        lemma_sp_skip(s, i + 1);
    }
}

proof fn lemma_sp_ident_end(s: Seq<char>, i: int)
    requires
        0 <= i <= s.len(),
    ensures
        i <= sp_ident_end(s, i) <= s.len(),
    decreases s.len() - i,
{
    if i < s.len() && sp_is_alpha(s[i]) {
        lemma_sp_ident_end(s, i + 1);
    }
}

/// The index of the topmost entry of `ctx` equal to `name`, counting the
/// top as zero, or nothing when no entry matches.
pub open spec fn sp_lookup(ctx: Seq<Seq<char>>, name: Seq<char>) -> Option<int>
    decreases ctx.len(),
{
    if ctx.len() == 0 {
        Option::None
    } else if ctx.last() == name {
        Option::Some(0int)
    } else {
        match sp_lookup(ctx.drop_last(), name) {
            Option::Some(k) => Option::Some(k + 1),
            Option::None => Option::None,
        }
    }
}

proof fn lemma_sp_lookup(ctx: Seq<Seq<char>>, name: Seq<char>)
    ensures
        match sp_lookup(ctx, name) {
            Option::Some(k) => 0 <= k < ctx.len() && ctx[ctx.len() - 1 - k] == name && (forall|
                m: int,
            |
                0 <= m < k ==> #[trigger] ctx[ctx.len() - 1 - m] != name),
            Option::None => forall|m: int|
                0 <= m < ctx.len() ==> #[trigger] ctx[ctx.len() - 1 - m] != name,
        },
    decreases ctx.len(),
{
    if ctx.len() > 0 && ctx.last() != name {
        lemma_sp_lookup(ctx.drop_last(), name);
        let inner = ctx.drop_last();
        match sp_lookup(ctx, name) {
            Option::Some(k) => {
                assert(ctx[ctx.len() - 1 - k] == inner[inner.len() - 1 - (k - 1)]);
                assert forall|m: int| 0 <= m < k implies #[trigger] ctx[ctx.len() - 1 - m]
                    != name by {
                    if m == 0 {
                        assert(ctx[ctx.len() - 1] == ctx.last());
                    } else {
                        assert(inner[inner.len() - 1 - (m - 1)] != name);
                        assert(ctx[ctx.len() - 1 - m] == inner[inner.len() - 1 - (m - 1)]);
                    }
                }
            },
            Option::None => {
                assert forall|m: int| 0 <= m < ctx.len() implies #[trigger] ctx[ctx.len() - 1 - m]
                    != name by {
                    if m == 0 {
                        assert(ctx[ctx.len() - 1] == ctx.last());
                    } else {
                        assert(inner[inner.len() - 1 - (m - 1)] != name);
                        assert(ctx[ctx.len() - 1 - m] == inner[inner.len() - 1 - (m - 1)]);
                    }
                }
            },
        }
    }
}

/// Fuel that always suffices for `sp_term` from position `i`: each
/// recursive step of the spec parser either moves the cursor or descends
/// a bounded number of grammar levels, so a linear budget covers any
/// input. The bounds for the other productions sit a little lower, which
/// is what lets each recursive call live off its caller's budget.
pub open spec fn sp_fuel(s: Seq<char>, i: int) -> nat {
    (5 * (s.len() - i) + 4) as nat
}

/// Sufficient fuel for `sp_abs` and `sp_app` from position `i`.
pub open spec fn sp_fuel_app(s: Seq<char>, i: int) -> nat {
    (5 * (s.len() - i) + 3) as nat
}

/// Sufficient fuel for `sp_app_rest` from position `i`.
pub open spec fn sp_fuel_rest(s: Seq<char>, i: int) -> nat {
    (5 * (s.len() - i) + 3) as nat
}

/// Sufficient fuel for `sp_atom` from position `i`.
pub open spec fn sp_fuel_atom(s: Seq<char>, i: int) -> nat {
    (5 * (s.len() - i) + 2) as nat
}

/// One variable atom: an identifier resolved against the binder context.
pub open spec fn sp_var(s: Seq<char>, i: int, ctx: Seq<Seq<char>>) -> Result<
    (Term, int),
    ErrView,
> {
    let j = sp_skip(s, i);
    let e = sp_ident_end(s, j);
    if e == j {
        Result::Err(ErrView::Invalid("Expected identifier"@))
    } else {
        let name = s.subrange(j, e);
        match sp_lookup(ctx, name) {
            Option::Some(k) => Result::Ok((Term::Var(k as usize), e)),
            Option::None => Result::Err(ErrView::Unbound(name)),
        }
    }
}

/// The term grammar: an abstraction when the next token is a binder
/// marker, otherwise an application. `None` means the fuel ran out; it
/// never does from `sp_fuel` upward.
pub open spec fn sp_term(s: Seq<char>, i: int, ctx: Seq<Seq<char>>, fuel: nat) -> Option<
    Result<(Term, int), ErrView>,
>
    decreases fuel,
{
    if fuel == 0 {
        Option::None
    } else {
        let j = sp_skip(s, i);
        if j < s.len() && (s[j] == 'λ' || s[j] == '\\') {
            sp_abs(s, j, ctx, (fuel - 1) as nat)
        } else {
            sp_app(s, j, ctx, (fuel - 1) as nat)
        }
    }
}

/// An abstraction: marker, identifier, dot, then a full term parsed with
/// the identifier pushed on the context; the body extends as far right as
/// the grammar allows.
pub open spec fn sp_abs(s: Seq<char>, i: int, ctx: Seq<Seq<char>>, fuel: nat) -> Option<
    Result<(Term, int), ErrView>,
>
    decreases fuel,
{
    if fuel == 0 {
        Option::None
    } else {
        let j = sp_skip(s, i);
        if !(j < s.len() && (s[j] == 'λ' || s[j] == '\\')) {
            Option::Some(Result::Err(ErrView::Invalid("Expected lambda"@)))
        } else {
            let k = sp_skip(s, j + 1);
            let e = sp_ident_end(s, k);
            if e == k {
                Option::Some(Result::Err(ErrView::Invalid("Expected identifier"@)))
            } else {
                let name = s.subrange(k, e);
                let q = sp_skip(s, e);
                if !(q < s.len() && s[q] == '.') {
                    Option::Some(Result::Err(ErrView::Invalid("Expected '.'"@)))
                } else {
                    match sp_term(s, q + 1, ctx.push(name), (fuel - 1) as nat) {
                        Option::None => Option::None,
                        Option::Some(Result::Err(er)) => Option::Some(Result::Err(er)),
                        Option::Some(Result::Ok((b, p))) => Option::Some(
                            Result::Ok((Term::Abs(Box::new(b)), p)),
                        ),
                    }
                }
            }
        }
    }
}

/// An application: one mandatory atom, then as many further atoms as can
/// be read. An unbound variable anywhere among the atoms fails the whole
/// application; any other failed atom attempt ends the accumulation.
pub open spec fn sp_app(s: Seq<char>, i: int, ctx: Seq<Seq<char>>, fuel: nat) -> Option<
    Result<(Term, int), ErrView>,
>
    decreases fuel,
{
    if fuel == 0 {
        Option::None
    } else {
        match sp_atom(s, i, ctx, (fuel - 1) as nat) {
            Option::None => Option::None,
            Option::Some(Result::Err(er)) => Option::Some(Result::Err(er)),
            Option::Some(Result::<(Term, int), ErrView>::Ok((t, p))) => sp_app_rest(s, p, ctx, t, (fuel - 1) as nat),
        }
    }
}

/// The accumulation of further atoms after the first, folding them into
/// left-associated applications.
pub open spec fn sp_app_rest(s: Seq<char>, i: int, ctx: Seq<Seq<char>>, acc: Term, fuel: nat) -> Option<
    Result<(Term, int), ErrView>,
>
    decreases fuel,
{
    if fuel == 0 {
        Option::None
    } else {
        match sp_atom(s, i, ctx, (fuel - 1) as nat) {
            Option::None => Option::None,
            Option::Some(Result::<(Term, int), ErrView>::Ok((t, p))) => sp_app_rest(
                s,
                p,
                ctx,
                Term::App(Box::new(acc), Box::new(t)),
                (fuel - 1) as nat,
            ),
            Option::Some(Result::Err(ErrView::Unbound(nm))) => Option::Some(
                Result::Err(ErrView::Unbound(nm)),
            ),
            Option::Some(Result::Err(ErrView::Invalid(_))) => Option::Some(Result::Ok((acc, i))),
        }
    }
}

/// An atom: a parenthesised term or a variable.
pub open spec fn sp_atom(s: Seq<char>, i: int, ctx: Seq<Seq<char>>, fuel: nat) -> Option<
    Result<(Term, int), ErrView>,
>
    decreases fuel,
{
    if fuel == 0 {
        Option::None
    } else {
        let j = sp_skip(s, i);
        if j < s.len() && s[j] == '(' {
            match sp_term(s, j + 1, ctx, (fuel - 1) as nat) {
                Option::None => Option::None,
                Option::Some(Result::Err(er)) => Option::Some(Result::Err(er)),
                Option::Some(Result::<(Term, int), ErrView>::Ok((t, p))) => {
                    let q = sp_skip(s, p);
                    if q < s.len() && s[q] == ')' {
                        Option::Some(Result::Ok((t, q + 1)))
                    } else {
                        Option::Some(Result::Err(ErrView::Invalid("Expected ')'"@)))
                    }
                },
            }
        } else if j < s.len() && sp_is_alpha(s[j]) {
            Option::Some(sp_var(s, j, ctx))
        } else {
            Option::Some(Result::Err(ErrView::Invalid("Expected atom"@)))
        }
    }
}

/// One complete expression read from the start of `s` with an empty binder
/// context; trailing characters are ignored.
pub open spec fn sp_parse(s: Seq<char>) -> Option<Result<(Term, int), ErrView>> {
    sp_term(s, 0, Seq::<Seq<char>>::empty(), sp_fuel(s, 0))
}

/// A parse result together with the cursor it ended at, as the spec parser
/// describes it.
pub open spec fn sp_out_view(r: Result<Term, ParseError>, pos: int) -> Result<
    (Term, int),
    ErrView,
> {
    match r {
        Result::Ok(t) => Result::Ok((t, pos)),
        Result::Err(e) => Result::Err(sp_err_view(e)),
    }
}

/// A parse result with the cursor projected away, for line-by-line
/// parsing where only the outcome matters.
pub open spec fn sp_res_view(r: Result<Term, ParseError>) -> Result<Term, ErrView> {
    match r {
        Result::Ok(t) => Result::Ok(t),
        Result::Err(e) => Result::Err(sp_err_view(e)),
    }
}

/// What parsing one line yields, cursor dropped.
pub open spec fn sp_line_outcome(l: Seq<char>) -> Option<Result<Term, ErrView>> {
    match sp_parse(l) {
        Option::None => Option::None,
        Option::Some(Result::<(Term, int), ErrView>::Ok((t, p))) => Option::Some(Result::Ok(t)),
        Option::Some(Result::Err(e)) => Option::Some(Result::Err(e)),
    }
}

/// The position of the next line feed at or after `i`, or the end.
pub open spec fn sp_nl(s: Seq<char>, i: int) -> int
    decreases s.len() - i
        when 0 <= i <= s.len()
{
    if i < s.len() && s[i] != '\n' {
        sp_nl(s, i + 1)
    } else {
        i
    }
}

/// The first position in `[i, e)` that is not whitespace, or `e`.
pub open spec fn sp_trim_start(s: Seq<char>, i: int, e: int) -> int
    decreases e - i
        when 0 <= i <= e
{
    if i < e && sp_is_ws(s[i]) {
        sp_trim_start(s, i + 1, e)
    } else {
        i
    }
}

/// One past the last position in `[a, e)` that is not whitespace, or `a`.
pub open spec fn sp_trim_end(s: Seq<char>, a: int, e: int) -> int
    decreases e - a
        when 0 <= a <= e
{
    if e > a && sp_is_ws(s[e - 1]) {
        sp_trim_end(s, a, e - 1)
    } else {
        e
    }
}

/// The outcomes of parsing `s` line by line from position `i`: each line
/// is trimmed; a line left empty, or starting with `#`, contributes
/// nothing; every other line is parsed on its own with an empty context.
pub open spec fn sp_multi(s: Seq<char>, i: int) -> Seq<Option<Result<Term, ErrView>>>
    decreases s.len() - i
        when 0 <= i
{
    if i >= s.len() {
        Seq::empty()
    } else {
        let e = sp_nl(s, i);
        let e2 = if e > i && s[e - 1] == '\r' {
            e - 1
        } else {
            e
        };
        let a = sp_trim_start(s, i, e2);
        let b = sp_trim_end(s, a, e2);
        // The next line starts after the line feed; the lower bound only
        // serves the termination measure and never takes effect, since the
        // line feed cannot sit before `i`.
        let nxt = if e + 1 > i {
            e + 1
        } else {
            i + 1
        };
        let rest = if nxt <= s.len() {
            sp_multi(s, nxt)
        } else {
            Seq::empty()
        };
        if a == b || s[a] == '#' {
            rest
        } else {
            seq![sp_line_outcome(s.subrange(a, b))] + rest
        }
    }
}

/// The line outcomes as a sequence of values the spec side can compare
/// with `sp_multi`.
pub open spec fn sp_results_view(rs: Seq<Result<Term, ParseError>>) -> Seq<
    Option<Result<Term, ErrView>>,
> {
    rs.map_values(|r: Result<Term, ParseError>| Option::Some(sp_res_view(r)))
}

/// Recursive-descent parser over one input text: a scan cursor and the
/// stack of binder names currently in scope.
pub struct Parser {
    pub input: String,
    pub length: usize,
    pub pos: usize,
    pub context: Vec<String>,
}

impl Parser {
    /// The cached length matches the input and the cursor stays inside it.
    pub open spec fn wf(&self) -> bool {
        self.length == self.input@.len() && self.pos <= self.length
    }

    /// The binder context as the sequences of characters of its names,
    /// innermost binder last.
    pub open spec fn ctx_view(&self) -> Seq<Seq<char>> {
        self.context.deep_view()
    }

    /// What every parsing step leaves intact: the input, its length, the
    /// binder context, and the cursor never moves backwards.
    pub open spec fn sp_frame(pre: Parser, post: Parser) -> bool {
        post.wf() && post.input == pre.input && post.length == pre.length && post.context@
            == pre.context@ && pre.pos <= post.pos
    }

    pub fn new(input: &str) -> (p: Parser)
        ensures
            p.wf(),
            p.input@ == input@,
            p.pos == 0,
            p.ctx_view() =~= Seq::<Seq<char>>::empty(),
    {
        let owned = String::from_str(input);
        let length = owned.as_str().unicode_len();
        let p = Parser { input: owned, length, pos: 0, context: Vec::new() };
        proof {
            assert(p.ctx_view() =~= Seq::<Seq<char>>::empty());
        }
        p
    }

    fn skip_whitespace(&mut self)
        requires
            old(self).wf(),
        ensures
            Self::sp_frame(*old(self), *final(self)),
            final(self).pos == sp_skip(old(self).input@, old(self).pos as int),
    {
        loop
            invariant
                self.wf(),
                self.input == old(self).input,
                self.length == old(self).length,
                self.context@ == old(self).context@,
                old(self).pos <= self.pos,
                sp_skip(self.input@, old(self).pos as int) == sp_skip(self.input@, self.pos as int),
            ensures
                self.wf(),
                self.input == old(self).input,
                self.length == old(self).length,
                self.context@ == old(self).context@,
                old(self).pos <= self.pos,
                self.pos == sp_skip(self.input@, old(self).pos as int),
            decreases self.length - self.pos,
        {
            if self.pos >= self.length {
                break ;
            }
            let c = self.input.as_str().get_char(self.pos);
            if !is_ws(c) {
                break ;
            }
            self.pos = self.pos + 1;
        }
    }

    fn consume(&mut self, expected: char) -> (r: bool)
        requires
            old(self).wf(),
        ensures
            Self::sp_frame(*old(self), *final(self)),
            ({
                let s = old(self).input@;
                let j = sp_skip(s, old(self).pos as int);
                if j < s.len() && s[j] == expected {
                    r == true && final(self).pos == j + 1
                } else {
                    r == false && final(self).pos == j
                }
            }),
    {
        self.skip_whitespace();
        if self.pos < self.length {
            let c = self.input.as_str().get_char(self.pos);
            if c == expected {
                self.pos = self.pos + 1;
                return true;
            }
        }
        false
    }

    /// The wording of the failure `expect` reports for each character it
    /// is used with.
    pub open spec fn sp_expect_msg(expected: char) -> Seq<char> {
        if expected == '.' {
            "Expected '.'"@
        } else if expected == ')' {
            "Expected ')'"@
        } else {
            "Expected token"@
        }
    }

    fn expect(&mut self, expected: char) -> (r: Result<(), ParseError>)
        requires
            old(self).wf(),
        ensures
            Self::sp_frame(*old(self), *final(self)),
            ({
                let s = old(self).input@;
                let j = sp_skip(s, old(self).pos as int);
                if j < s.len() && s[j] == expected {
                    r is Ok && final(self).pos == j + 1
                } else {
                    (r matches Result::Err(e) && sp_err_view(e) == ErrView::Invalid(
                        Self::sp_expect_msg(expected),
                    )) && final(self).pos == j
                }
            }),
    {
        if self.consume(expected) {
            Result::Ok(())
        } else {
            let msg = if expected == '.' {
                "Expected '.'"
            } else if expected == ')' {
                "Expected ')'"
            } else {
                "Expected token"
            };
            Result::Err(ParseError::InvalidSyntax(String::from_str(msg)))
        }
    }

    fn parse_identifier(&mut self) -> (r: Result<String, ParseError>)
        requires
            old(self).wf(),
        ensures
            Self::sp_frame(*old(self), *final(self)),
            ({
                let s = old(self).input@;
                let j = sp_skip(s, old(self).pos as int);
                let e = sp_ident_end(s, j);
                if e == j {
                    (r matches Result::Err(er) && sp_err_view(er) == ErrView::Invalid(
                        "Expected identifier"@,
                    )) && final(self).pos == j
                } else {
                    (r matches Result::Ok(name) && name@ == s.subrange(j, e)) && final(self).pos
                        == e
                }
            }),
    {
        self.skip_whitespace();
        let start = self.pos;
        loop
            invariant
                self.wf(),
                self.input == old(self).input,
                self.length == old(self).length,
                self.context@ == old(self).context@,
                start <= self.pos <= self.length,
                sp_ident_end(self.input@, start as int) == sp_ident_end(
                    self.input@,
                    self.pos as int,
                ),
            ensures
                self.wf(),
                self.input == old(self).input,
                self.length == old(self).length,
                self.context@ == old(self).context@,
                start <= self.pos <= self.length,
                self.pos == sp_ident_end(self.input@, start as int),
            decreases self.length - self.pos,
        {
            if self.pos >= self.length {
                break ;
            }
            let c = self.input.as_str().get_char(self.pos);
            if !is_alpha(c) {
                break ;
            }
            self.pos = self.pos + 1;
        }
        if start == self.pos {
            Result::Err(ParseError::InvalidSyntax(String::from_str("Expected identifier")))
        } else {
            let name_str = self.input.as_str().substring_char(start, self.pos);
            Result::Ok(String::from_str(name_str))
        }
    }

    fn parse_var(&mut self) -> (r: Result<Term, ParseError>)
        requires
            old(self).wf(),
        ensures
            Self::sp_frame(*old(self), *final(self)),
            final(self).pos <= final(self).length,
            sp_var(old(self).input@, old(self).pos as int, old(self).ctx_view()) == sp_out_view(
                r,
                final(self).pos as int,
            ),
            r is Ok ==> old(self).pos < final(self).pos,
            r matches Result::Ok(t) ==> sp_well_scoped(t, old(self).ctx_view().len() as int),
    {
        let ghost s = old(self).input@;
        let ghost i0 = old(self).pos as int;
        let ghost c0 = old(self).ctx_view();
        proof {
            lemma_sp_skip(s, i0);
            lemma_sp_ident_end(s, sp_skip(s, i0));
        }
        let name = match self.parse_identifier() {
            Result::Ok(n) => n,
            Result::Err(e) => {
                return Result::Err(e);
            },
        };
        proof {
            lemma_sp_lookup(c0, name@);
        }
        let n = self.context.len();
        let mut off: usize = 0;
        let mut found = false;
        loop
            invariant_except_break
                !found,
            invariant
                self.wf(),
                self.input == old(self).input,
                self.length == old(self).length,
                self.context@ == old(self).context@,
                c0 == self.ctx_view(),
                n == self.context@.len(),
                off <= n,
                forall|m: int| 0 <= m < off ==> #[trigger] c0[n - 1 - m] != name@,
            ensures
                self.wf(),
                self.input == old(self).input,
                self.length == old(self).length,
                self.context@ == old(self).context@,
                off <= n,
                found ==> off < n && c0[n - 1 - off] == name@ && (forall|m: int|
                    0 <= m < off ==> #[trigger] c0[n - 1 - m] != name@),
                !found ==> (forall|m: int| 0 <= m < n ==> #[trigger] c0[n - 1 - m] != name@),
            decreases n - off,
        {
            if off >= n {
                break ;
            }
            let idx = n - 1 - off;
            if self.context[idx].eq(&name) {
                proof {
                    assert(c0[idx as int] == self.context@[idx as int]@);
                }
                found = true;
                break ;
            }
            proof {
                assert(c0[n - 1 - off] == self.context@[idx as int]@);
            }
            off = off + 1;
        }
        if found {
            proof {
                match sp_lookup(c0, name@) {
                    Option::Some(k) => {
                        assert(c0[n - 1 - k] == name@);
                        if k < off {
                            assert(c0[n - 1 - k] != name@);
                        }
                        if k > off {
                            assert(c0[n - 1 - off as int] != name@);
                        }
                        assert(k == off);
                    },
                    Option::None => {
                        assert(c0[n - 1 - off as int] != name@);
                    },
                }
            }
            Result::Ok(Term::Var(off))
        } else {
            proof {
                match sp_lookup(c0, name@) {
                    Option::Some(k) => {
                        assert(c0[n - 1 - k] != name@);
                    },
                    Option::None => {},
                }
            }
            Result::Err(ParseError::UnboundVariable(name))
        }
    }

    fn parse_atom(&mut self) -> (r: Result<Term, ParseError>)
        requires
            old(self).wf(),
        ensures
            Self::sp_frame(*old(self), *final(self)),
            forall|fuel: nat|
                fuel >= sp_fuel_atom(old(self).input@, old(self).pos as int)
                    ==> #[trigger] sp_atom(
                    old(self).input@,
                    old(self).pos as int,
                    old(self).ctx_view(),
                    fuel,
                ) == Option::Some(sp_out_view(r, final(self).pos as int)),
            r is Ok ==> old(self).pos < final(self).pos,
            r matches Result::Ok(t) ==> sp_well_scoped(t, old(self).ctx_view().len() as int),
        decreases self.length - self.pos, 2int,
    {
        let ghost s = old(self).input@;
        let ghost i0 = old(self).pos as int;
        let ghost c0 = old(self).ctx_view();
        self.skip_whitespace();
        proof {
            lemma_sp_skip(s, i0);
        }
        let ghost j = self.pos as int;
        if self.consume('(') {
            let inner = self.parse_term();
            match inner {
                Result::Ok(t) => {
                    let ghost p = self.pos as int;
                    proof {
                        lemma_sp_skip(s, p);
                    }
                    match self.expect(')') {
                        Result::Ok(_u) => {
                            proof {
                                assert forall|fuel: nat| fuel >= sp_fuel_atom(s, i0) implies #[trigger] sp_atom(
                                    s,
                                    i0,
                                    c0,
                                    fuel,
                                ) == Option::Some(
                                    sp_out_view(Result::Ok(t), self.pos as int),
                                ) by {
                                    let f1 = (fuel - 1) as nat;
                                    assert(f1 >= sp_fuel(s, j + 1));
                                    assert(sp_term(s, j + 1, c0, f1) == Option::Some(
                                        Result::<(Term, int), ErrView>::Ok((t, p)),
                                    ));
                                }
                            }
                            Result::Ok(t)
                        },
                        Result::Err(e) => {
                            proof {
                                assert forall|fuel: nat| fuel >= sp_fuel_atom(s, i0) implies #[trigger] sp_atom(
                                    s,
                                    i0,
                                    c0,
                                    fuel,
                                ) == Option::Some(
                                    sp_out_view(Result::Err(e), self.pos as int),
                                ) by {
                                    let f1 = (fuel - 1) as nat;
                                    assert(f1 >= sp_fuel(s, j + 1));
                                    assert(sp_term(s, j + 1, c0, f1) == Option::Some(
                                        Result::<(Term, int), ErrView>::Ok((t, p)),
                                    ));
                                }
                            }
                            Result::Err(e)
                        },
                    }
                },
                Result::Err(e) => {
                    proof {
                        assert forall|fuel: nat| fuel >= sp_fuel_atom(s, i0) implies #[trigger] sp_atom(
                            s,
                            i0,
                            c0,
                            fuel,
                        ) == Option::Some(sp_out_view(Result::Err(e), self.pos as int)) by {
                            let f1 = (fuel - 1) as nat;
                            assert(f1 >= sp_fuel(s, j + 1));
                            assert(sp_term(s, j + 1, c0, f1) == Option::Some(sp_out_view(
                                Result::Err(e),
                                self.pos as int,
                            )));
                        }
                    }
                    Result::Err(e)
                },
            }
        } else {
            let mut alpha = false;
            if self.pos < self.length {
                let c = self.input.as_str().get_char(self.pos);
                if is_alpha(c) {
                    alpha = true;
                }
            }
            if alpha {
                proof {
                    lemma_sp_ident_end(s, j + 1);
                }
                let r = self.parse_var();
                proof {
                    assert forall|fuel: nat| fuel >= sp_fuel_atom(s, i0) implies #[trigger] sp_atom(
                        s,
                        i0,
                        c0,
                        fuel,
                    ) == Option::Some(sp_out_view(r, self.pos as int)) by {
                        assert(sp_var(s, j, c0) == sp_out_view(r, self.pos as int));
                    }
                }
                r
            } else {
                let r: Result<Term, ParseError> = Result::Err(
                    ParseError::InvalidSyntax(String::from_str("Expected atom")),
                );
                proof {
                    assert forall|fuel: nat| fuel >= sp_fuel_atom(s, i0) implies #[trigger] sp_atom(
                        s,
                        i0,
                        c0,
                        fuel,
                    ) == Option::Some(sp_out_view(r, self.pos as int)) by {
                    }
                }
                r
            }
        }
    }

    fn parse_app_rest(&mut self, acc: Term) -> (r: Result<Term, ParseError>)
        requires
            old(self).wf(),
            sp_well_scoped(acc, old(self).ctx_view().len() as int),
        ensures
            Self::sp_frame(*old(self), *final(self)),
            forall|fuel: nat|
                fuel >= sp_fuel_rest(old(self).input@, old(self).pos as int)
                    ==> #[trigger] sp_app_rest(
                    old(self).input@,
                    old(self).pos as int,
                    old(self).ctx_view(),
                    acc,
                    fuel,
                ) == Option::Some(sp_out_view(r, final(self).pos as int)),
            r matches Result::Ok(t) ==> sp_well_scoped(t, old(self).ctx_view().len() as int),
        decreases self.length - self.pos, 3int,
    {
        let ghost s = old(self).input@;
        let ghost i0 = old(self).pos as int;
        let ghost c0 = old(self).ctx_view();
        let save = self.pos;
        let attempt = self.parse_atom();
        match attempt {
            Result::Ok(t) => {
                let ghost p = self.pos as int;
                let newacc = Term::App(Box::new(acc), Box::new(t));
                let r = self.parse_app_rest(newacc);
                proof {
                    assert forall|fuel: nat| fuel >= sp_fuel_rest(s, i0) implies #[trigger] sp_app_rest(
                        s,
                        i0,
                        c0,
                        acc,
                        fuel,
                    ) == Option::Some(sp_out_view(r, self.pos as int)) by {
                        let f1 = (fuel - 1) as nat;
                        assert(f1 >= sp_fuel_atom(s, i0));
                        assert(sp_atom(s, i0, c0, f1) == Option::Some(Result::<(Term, int), ErrView>::Ok((t, p))));
                        assert(f1 >= sp_fuel_rest(s, p));
                        assert(sp_app_rest(s, p, c0, newacc, f1) == Option::Some(
                            sp_out_view(r, self.pos as int),
                        ));
                    }
                }
                r
            },
            Result::Err(e) => {
                let is_unbound = match &e {
                    ParseError::UnboundVariable(_) => true,
                    ParseError::InvalidSyntax(_) => false,
                };
                if is_unbound {
                    proof {
                        assert forall|fuel: nat| fuel >= sp_fuel_rest(s, i0) implies #[trigger] sp_app_rest(
                            s,
                            i0,
                            c0,
                            acc,
                            fuel,
                        ) == Option::Some(sp_out_view(Result::Err(e), self.pos as int)) by {
                            let f1 = (fuel - 1) as nat;
                            assert(f1 >= sp_fuel_atom(s, i0));
                            assert(sp_atom(s, i0, c0, f1) == Option::Some(sp_out_view(
                                Result::Err(e),
                                self.pos as int,
                            )));
                        }
                    }
                    Result::Err(e)
                } else {
                    let ghost pe = self.pos as int;
                    self.pos = save;
                    proof {
                        assert forall|fuel: nat| fuel >= sp_fuel_rest(s, i0) implies #[trigger] sp_app_rest(
                            s,
                            i0,
                            c0,
                            acc,
                            fuel,
                        ) == Option::Some(sp_out_view(Result::Ok(acc), self.pos as int)) by {
                            let f1 = (fuel - 1) as nat;
                            assert(f1 >= sp_fuel_atom(s, i0));
                            assert(sp_atom(s, i0, c0, f1) == Option::Some(sp_out_view(
                                Result::Err(e),
                                pe,
                            )));
                        }
                    }
                    Result::Ok(acc)
                }
            },
        }
    }

    fn parse_app(&mut self) -> (r: Result<Term, ParseError>)
        requires
            old(self).wf(),
        ensures
            Self::sp_frame(*old(self), *final(self)),
            forall|fuel: nat|
                fuel >= sp_fuel_app(old(self).input@, old(self).pos as int) ==> #[trigger] sp_app(
                    old(self).input@,
                    old(self).pos as int,
                    old(self).ctx_view(),
                    fuel,
                ) == Option::Some(sp_out_view(r, final(self).pos as int)),
            r matches Result::Ok(t) ==> sp_well_scoped(t, old(self).ctx_view().len() as int),
        decreases self.length - self.pos, 3int,
    {
        let ghost s = old(self).input@;
        let ghost i0 = old(self).pos as int;
        let ghost c0 = old(self).ctx_view();
        let first = match self.parse_atom() {
            Result::Ok(t) => t,
            Result::Err(e) => {
                proof {
                    assert forall|fuel: nat| fuel >= sp_fuel_app(s, i0) implies #[trigger] sp_app(
                        s,
                        i0,
                        c0,
                        fuel,
                    ) == Option::Some(sp_out_view(Result::Err(e), self.pos as int)) by {
                        let f1 = (fuel - 1) as nat;
                        assert(f1 >= sp_fuel_atom(s, i0));
                        assert(sp_atom(s, i0, c0, f1) == Option::Some(sp_out_view(
                            Result::Err(e),
                            self.pos as int,
                        )));
                    }
                }
                return Result::Err(e);
            },
        };
        let ghost p = self.pos as int;
        let r = self.parse_app_rest(first);
        proof {
            assert forall|fuel: nat| fuel >= sp_fuel_app(s, i0) implies #[trigger] sp_app(
                s,
                i0,
                c0,
                fuel,
            ) == Option::Some(sp_out_view(r, self.pos as int)) by {
                let f1 = (fuel - 1) as nat;
                assert(f1 >= sp_fuel_atom(s, i0));
                assert(sp_atom(s, i0, c0, f1) == Option::Some(Result::<(Term, int), ErrView>::Ok((first, p))));
                assert(f1 >= sp_fuel_rest(s, p));
                assert(sp_app_rest(s, p, c0, first, f1) == Option::Some(
                    sp_out_view(r, self.pos as int),
                ));
            }
        }
        r
    }

    fn parse_abs(&mut self) -> (r: Result<Term, ParseError>)
        requires
            old(self).wf(),
        ensures
            Self::sp_frame(*old(self), *final(self)),
            forall|fuel: nat|
                fuel >= sp_fuel_app(old(self).input@, old(self).pos as int) ==> #[trigger] sp_abs(
                    old(self).input@,
                    old(self).pos as int,
                    old(self).ctx_view(),
                    fuel,
                ) == Option::Some(sp_out_view(r, final(self).pos as int)),
            r matches Result::Ok(t) ==> sp_well_scoped(t, old(self).ctx_view().len() as int),
        decreases self.length - self.pos, 3int,
    {
        let ghost s = old(self).input@;
        let ghost i0 = old(self).pos as int;
        let ghost c0 = old(self).ctx_view();
        proof {
            lemma_sp_skip(s, i0);
        }
        let ghost j = sp_skip(s, i0);
        let matched = if self.consume('λ') {
            true
        } else {
            self.consume('\\')
        };
        if matched {
            proof {
                lemma_sp_skip(s, j + 1);
                lemma_sp_ident_end(s, sp_skip(s, j + 1));
            }
            let name = match self.parse_identifier() {
                Result::Ok(n) => n,
                Result::Err(e) => {
                    proof {
                        assert forall|fuel: nat| fuel >= sp_fuel_app(s, i0) implies #[trigger] sp_abs(
                            s,
                            i0,
                            c0,
                            fuel,
                        ) == Option::Some(sp_out_view(Result::Err(e), self.pos as int)) by {
                        }
                    }
                    return Result::Err(e);
                },
            };
            let ghost e_end = self.pos as int;
            proof {
                lemma_sp_skip(s, e_end);
            }
            match self.expect('.') {
                Result::Ok(_u) => {},
                Result::Err(er) => {
                    proof {
                        assert forall|fuel: nat| fuel >= sp_fuel_app(s, i0) implies #[trigger] sp_abs(
                            s,
                            i0,
                            c0,
                            fuel,
                        ) == Option::Some(sp_out_view(Result::Err(er), self.pos as int)) by {
                        }
                    }
                    return Result::Err(er);
                },
            }
            let ghost q = sp_skip(s, e_end);
            self.context.push(name);
            proof {
                assert(self.ctx_view() =~= c0.push(s.subrange(sp_skip(s, j + 1), e_end)));
            }
            let body = self.parse_term();
            self.context.pop();
            proof {
                assert(self.context@ =~= old(self).context@);
            }
            match body {
                Result::Ok(b) => {
                    let out = Term::Abs(Box::new(b));
                    proof {
                        assert forall|fuel: nat| fuel >= sp_fuel_app(s, i0) implies #[trigger] sp_abs(
                            s,
                            i0,
                            c0,
                            fuel,
                        ) == Option::Some(sp_out_view(Result::Ok(out), self.pos as int)) by {
                            let f1 = (fuel - 1) as nat;
                            assert(f1 >= sp_fuel(s, q + 1));
                            assert(sp_term(s, q + 1, c0.push(s.subrange(sp_skip(s, j + 1), e_end)), f1)
                                == Option::Some(Result::<(Term, int), ErrView>::Ok((b, self.pos as int))));
                        }
                    }
                    Result::Ok(out)
                },
                Result::Err(e) => {
                    proof {
                        assert forall|fuel: nat| fuel >= sp_fuel_app(s, i0) implies #[trigger] sp_abs(
                            s,
                            i0,
                            c0,
                            fuel,
                        ) == Option::Some(sp_out_view(Result::Err(e), self.pos as int)) by {
                            let f1 = (fuel - 1) as nat;
                            assert(f1 >= sp_fuel(s, q + 1));
                            assert(sp_term(s, q + 1, c0.push(s.subrange(sp_skip(s, j + 1), e_end)), f1)
                                == Option::Some(sp_out_view(Result::Err(e), self.pos as int)));
                        }
                    }
                    Result::Err(e)
                },
            }
        } else {
            let r: Result<Term, ParseError> = Result::Err(
                ParseError::InvalidSyntax(String::from_str("Expected lambda")),
            );
            proof {
                assert forall|fuel: nat| fuel >= sp_fuel_app(s, i0) implies #[trigger] sp_abs(
                    s,
                    i0,
                    c0,
                    fuel,
                ) == Option::Some(sp_out_view(r, self.pos as int)) by {
                }
            }
            r
        }
    }

    fn parse_term(&mut self) -> (r: Result<Term, ParseError>)
        requires
            old(self).wf(),
        ensures
            Self::sp_frame(*old(self), *final(self)),
            forall|fuel: nat|
                fuel >= sp_fuel(old(self).input@, old(self).pos as int) ==> #[trigger] sp_term(
                    old(self).input@,
                    old(self).pos as int,
                    old(self).ctx_view(),
                    fuel,
                ) == Option::Some(sp_out_view(r, final(self).pos as int)),
            r matches Result::Ok(t) ==> sp_well_scoped(t, old(self).ctx_view().len() as int),
        decreases self.length - self.pos, 4int,
    {
        let ghost s = old(self).input@;
        let ghost i0 = old(self).pos as int;
        let ghost c0 = old(self).ctx_view();
        self.skip_whitespace();
        proof {
            lemma_sp_skip(s, i0);
        }
        let ghost j = self.pos as int;
        let mut marker = false;
        if self.pos < self.length {
            let c = self.input.as_str().get_char(self.pos);
            if c == 'λ' || c == '\\' {
                marker = true;
            }
        }
        if marker {
            let r = self.parse_abs();
            proof {
                assert forall|fuel: nat| fuel >= sp_fuel(s, i0) implies #[trigger] sp_term(
                    s,
                    i0,
                    c0,
                    fuel,
                ) == Option::Some(sp_out_view(r, self.pos as int)) by {
                    let f1 = (fuel - 1) as nat;
                    assert(f1 >= sp_fuel_app(s, j));
                    assert(sp_abs(s, j, c0, f1) == Option::Some(sp_out_view(r, self.pos as int)));
                }
            }
            r
        } else {
            let r = self.parse_app();
            proof {
                assert forall|fuel: nat| fuel >= sp_fuel(s, i0) implies #[trigger] sp_term(
                    s,
                    i0,
                    c0,
                    fuel,
                ) == Option::Some(sp_out_view(r, self.pos as int)) by {
                    let f1 = (fuel - 1) as nat;
                    assert(f1 >= sp_fuel_app(s, j));
                    assert(sp_app(s, j, c0, f1) == Option::Some(sp_out_view(r, self.pos as int)));
                }
            }
            r
        }
    }

    /// Parses one complete expression from the start of the remaining
    /// input, ignoring trailing characters, exactly as the spec parser
    /// describes: the term and the cursor it ends at on success, the
    /// error the grammar or the binder context dictates on failure. On a
    /// fresh parser this is `sp_parse` of the whole input. Every term
    /// handed back is well scoped under the binder context.
    pub fn parse(&mut self) -> (r: Result<Term, ParseError>)
        requires
            old(self).wf(),
        ensures
            Self::sp_frame(*old(self), *final(self)),
            forall|fuel: nat|
                fuel >= sp_fuel(old(self).input@, old(self).pos as int) ==> #[trigger] sp_term(
                    old(self).input@,
                    old(self).pos as int,
                    old(self).ctx_view(),
                    fuel,
                ) == Option::Some(sp_out_view(r, final(self).pos as int)),
            (old(self).pos == 0 && old(self).ctx_view() == Seq::<Seq<char>>::empty())
                ==> sp_parse(old(self).input@) == Option::Some(
                sp_out_view(r, final(self).pos as int),
            ),
            r matches Result::Ok(t) ==> sp_well_scoped(t, old(self).ctx_view().len() as int),
    {
        let r = self.parse_term();
        proof {
            if old(self).pos == 0 && old(self).ctx_view() == Seq::<Seq<char>>::empty() {
                assert(sp_fuel(old(self).input@, 0) >= sp_fuel(old(self).input@, 0));
            }
        }
        r
    }

    /// Splits the input into lines and parses each retained line on its
    /// own with an empty binder context: a line that is empty after
    /// trimming, or starts with `#`, contributes nothing; the remaining
    /// lines contribute their outcomes in order, exactly as `sp_multi`
    /// states. Every term in the results is closed.
    pub fn parse_multi_line(&mut self) -> (results: Vec<Result<Term, ParseError>>)
        requires
            old(self).wf(),
        ensures
            Self::sp_frame(*old(self), *final(self)),
            final(self).pos == old(self).pos,
            sp_results_view(results@) == sp_multi(old(self).input@, 0),
            forall|k: int|
                0 <= k < results@.len() ==> (#[trigger] results@[k] matches Result::Ok(t)
                    ==> sp_well_scoped(t, 0)),
    {
        let ghost s = old(self).input@;
        let mut results: Vec<Result<Term, ParseError>> = Vec::new();
        let mut line_start: usize = 0;
        proof {
            assert(sp_results_view(results@) =~= Seq::<Option<Result<Term, ErrView>>>::empty());
            assert(sp_multi(s, 0) =~= sp_results_view(results@) + sp_multi(s, 0));
        }
        loop
            invariant
                self.wf(),
                self.input == old(self).input,
                self.length == old(self).length,
                self.context@ == old(self).context@,
                self.pos == old(self).pos,
                s == self.input@,
                line_start <= self.length,
                sp_multi(s, 0) == sp_results_view(results@) + sp_multi(s, line_start as int),
                forall|k: int|
                    0 <= k < results@.len() ==> (#[trigger] results@[k] matches Result::Ok(t)
                        ==> sp_well_scoped(t, 0)),
            ensures
                self.wf(),
                self.input == old(self).input,
                self.length == old(self).length,
                self.context@ == old(self).context@,
                self.pos == old(self).pos,
                line_start >= self.length,
                sp_multi(s, 0) == sp_results_view(results@) + sp_multi(s, line_start as int),
                forall|k: int|
                    0 <= k < results@.len() ==> (#[trigger] results@[k] matches Result::Ok(t)
                        ==> sp_well_scoped(t, 0)),
            decreases self.length - line_start,
        {
            if line_start >= self.length {
                break ;
            }
            let mut e = line_start;
            loop
                invariant
                    self.wf(),
                    s == self.input@,
                    self.length == s.len(),
                    line_start <= e <= self.length,
                    sp_nl(s, line_start as int) == sp_nl(s, e as int),
                ensures
                    line_start <= e <= self.length,
                    e as int == sp_nl(s, line_start as int),
                decreases self.length - e,
            {
                if e >= self.length {
                    break ;
                }
                let c = self.input.as_str().get_char(e);
                if c == '\n' {
                    break ;
                }
                e = e + 1;
            }
            let e2 = if e > line_start {
                let c = self.input.as_str().get_char(e - 1);
                if c == '\r' {
                    e - 1
                } else {
                    e
                }
            } else {
                e
            };
            let mut a = line_start;
            loop
                invariant
                    self.wf(),
                    s == self.input@,
                    self.length == s.len(),
                    e2 <= self.length,
                    line_start <= a <= e2,
                    sp_trim_start(s, line_start as int, e2 as int) == sp_trim_start(
                        s,
                        a as int,
                        e2 as int,
                    ),
                ensures
                    line_start <= a <= e2,
                    a as int == sp_trim_start(s, line_start as int, e2 as int),
                decreases e2 - a,
            {
                if a >= e2 {
                    break ;
                }
                let c = self.input.as_str().get_char(a);
                if !is_ws(c) {
                    break ;
                }
                a = a + 1;
            }
            let mut b = e2;
            loop
                invariant
                    self.wf(),
                    s == self.input@,
                    self.length == s.len(),
                    e2 <= self.length,
                    a <= b <= e2,
                    sp_trim_end(s, a as int, e2 as int) == sp_trim_end(s, a as int, b as int),
                ensures
                    a <= b <= e2,
                    b as int == sp_trim_end(s, a as int, e2 as int),
                decreases b,
            {
                if b <= a {
                    break ;
                }
                let c = self.input.as_str().get_char(b - 1);
                if !is_ws(c) {
                    break ;
                }
                b = b - 1;
            }
            let skipped = if a == b {
                true
            } else {
                let c = self.input.as_str().get_char(a);
                c == '#'
            };
            let ghost results_before = results@;
            if !skipped {
                let line = self.input.as_str().substring_char(a, b);
                let mut sub = Parser::new(line);
                let res = sub.parse();
                proof {
                    assert(line@ == s.subrange(a as int, b as int));
                    assert(sp_line_outcome(s.subrange(a as int, b as int)) == Option::Some(
                        sp_res_view(res),
                    ));
                    assert(sp_results_view(results@.push(res)) =~= sp_results_view(results@)
                        + seq![Option::Some(sp_res_view(res))]);
                }
                results.push(res);
            }
            proof {
                let ls = line_start as int;
                let rest = if e + 1 <= s.len() {
                    sp_multi(s, e as int + 1)
                } else {
                    Seq::<Option<Result<Term, ErrView>>>::empty()
                };
                if skipped {
                    assert(sp_multi(s, ls) == rest);
                } else {
                    assert(sp_multi(s, ls) == seq![
                        sp_line_outcome(s.subrange(a as int, b as int)),
                    ] + rest);
                    assert((sp_results_view(results_before) + seq![
                        Option::Some(sp_res_view(results@.last())),
                    ]) + rest =~= sp_results_view(results_before) + (seq![
                        Option::Some(sp_res_view(results@.last())),
                    ] + rest));
                }
                if e as int + 1 > s.len() {
                    assert(sp_multi(s, s.len() as int) =~= Seq::<Option<
                        Result<Term, ErrView>,
                    >>::empty());
                    assert(sp_results_view(results@) + rest =~= sp_results_view(results@)
                        + sp_multi(s, s.len() as int));
                }
            }
            if e >= self.length {
                line_start = self.length;
            } else {
                line_start = e + 1;
            }
        }
        proof {
            assert(sp_multi(s, line_start as int) =~= Seq::<Option<
                Result<Term, ErrView>,
            >>::empty());
            assert(sp_results_view(results@) + sp_multi(s, line_start as int) =~= sp_results_view(
                results@,
            ));
        }
        results
    }
}

} // verus!
