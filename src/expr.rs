//! Mixer expressions and their S-expression text: `(fluid C V)` and
//! `(mix E E)`.
use vstd::prelude::*;
use vstd::string::StringExecFns;
use crate::error::IRGenerationError;
use crate::fluid::{
    fluid_at, fluid_text, lemma_fluid_at_text, read_fluid, spec_mix, writable, write_fluid, Fluid,
};
use crate::number::{number_text, write_number, LimitedFloat};
use crate::text::{
    atom_end, chars_of, lemma_atom_end_exact, scan_atom, skip_spaces, space_run, spells,
};

verus! {

/// A mixer expression: a fluid leaf, a 1:1 mix of two expressions, or a bare
/// number (a child of a fluid constructor).
#[derive(Debug, PartialEq, Eq)]
pub enum Expr {
    Mix(Box<Expr>, Box<Expr>),
    Number(LimitedFloat),
    Fluid(Fluid),
}

/// An expression made of mixes and fluids only.
pub open spec fn is_mixer_tree(e: Expr) -> bool
    decreases e,
{
    match e {
        Expr::Mix(a, b) => is_mixer_tree(*a) && is_mixer_tree(*b),
        Expr::Fluid(_) => true,
        Expr::Number(_) => false,
    }
}

/// The fluid a mixer tree produces: each mix combines the fluids of its two
/// sides; a bare number produces none.
pub open spec fn tree_fluid(e: Expr) -> Option<Fluid>
    decreases e,
{
    match e {
        Expr::Mix(a, b) => match (tree_fluid(*a), tree_fluid(*b)) {
            (Some(fa), Some(fb)) => Some(spec_mix(fa, fb)),
            _ => None,
        },
        Expr::Fluid(f) => Some(f),
        Expr::Number(_) => None,
    }
}

/// Number of leaves and mixes of an expression.
pub open spec fn expr_size(e: Expr) -> nat
    decreases e,
{
    match e {
        Expr::Mix(a, b) => expr_size(*a) + expr_size(*b) + 1,
        _ => 1,
    }
}

/// Text of an expression.
pub open spec fn expr_text(e: Expr) -> Seq<char>
    decreases e,
{
    match e {
        Expr::Mix(a, b) => seq!['(', 'm', 'i', 'x', ' '] + expr_text(*a) + seq![' '] + expr_text(
            *b,
        ) + seq![')'],
        Expr::Fluid(f) => fluid_text(f),
        Expr::Number(n) => number_text(n.wrapped as int),
    }
}

pub open spec fn mix_word() -> Seq<char> {
    seq!['m', 'i', 'x']
}

/// Reading the expression that starts at `i` of `s`, nested at most `fuel`
/// deep: the expression and the position after it. An expression is
/// `(fluid C V)` or `(mix E E)`; spaces may stand between the parts of a mix
/// and before its closing parenthesis.
pub open spec fn expr_at(s: Seq<char>, i: int, fuel: nat) -> Option<(Expr, int)>
    decreases fuel,
{
    if fuel == 0 || !(0 <= i < s.len() && s[i] == '(') {
        None
    } else {
        let j = space_run(s, i + 1);
        let e = atom_end(s, j);
        if s.subrange(j, e) == seq!['f', 'l', 'u', 'i', 'd'] {
            match fluid_at(s, i) {
                Ok((f, end)) => Some((Expr::Fluid(f), end)),
                Err(_) => None,
            }
        } else if s.subrange(j, e) == mix_word() {
            match expr_at(s, space_run(s, e), (fuel - 1) as nat) {
                None => None,
                Some((a, p)) => match expr_at(s, space_run(s, p), (fuel - 1) as nat) {
                    None => None,
                    Some((b, q)) => {
                        let n = space_run(s, q);
                        if n < s.len() && s[n] == ')' {
                            Some((Expr::Mix(Box::new(a), Box::new(b)), n + 1))
                        } else {
                            None
                        }
                    },
                },
            }
        } else {
            None
        }
    }
}

/// Reading a whole text as one expression, with spaces allowed around it.
pub open spec fn expr_from_text(s: Seq<char>) -> Option<Expr> {
    match expr_at(s, space_run(s, 0), s.len()) {
        Some((e, end)) => if space_run(s, end) == s.len() {
            Some(e)
        } else {
            None
        },
        None => None,
    }
}

/// A mixer tree whose every fluid can be written.
pub open spec fn writable_tree(e: Expr) -> bool
    decreases e,
{
    match e {
        Expr::Mix(a, b) => writable_tree(*a) && writable_tree(*b),
        Expr::Fluid(f) => writable(f),
        Expr::Number(_) => false,
    }
}

/// Nesting depth of an expression.
pub open spec fn expr_depth(e: Expr) -> nat
    decreases e,
{
    match e {
        Expr::Mix(a, b) => 1 + if expr_depth(*a) >= expr_depth(*b) {
            expr_depth(*a)
        } else {
            expr_depth(*b)
        },
        _ => 1,
    }
}

proof fn lemma_depth_below_text_len(e: Expr)
    requires
        writable_tree(e),
    ensures
        1 <= expr_depth(e) <= expr_text(e).len(),
        expr_text(e).len() > 0,
        expr_text(e)[0] == '(',
    decreases e,
{
    match e {
        Expr::Mix(a, b) => {
            lemma_depth_below_text_len(*a);
            lemma_depth_below_text_len(*b);
        },
        Expr::Fluid(f) => {
            crate::number::lemma_number_text(f.concentration.wrapped as int);
        },
        Expr::Number(_) => {},
    }
}

proof fn lemma_expr_at_fluid(p: Seq<char>, f: Fluid, r: Seq<char>, fuel: nat)
    requires
        writable(f),
        fuel >= 1,
    ensures
        expr_at(p + fluid_text(f) + r, p.len() as int, fuel) == Some(
            (Expr::Fluid(f), (p.len() + fluid_text(f).len()) as int),
        ),
{
    let s = p + fluid_text(f) + r;
    let i = p.len() as int;
    lemma_fluid_at_text(p, f, r);
    crate::number::lemma_number_text(f.concentration.wrapped as int);
    assert(s[i] == '(');
    assert(s[i + 1] == 'f');
    assert(s[i + 5] == 'd');
    assert(s[i + 6] == ' ');
    assert(space_run(s, i + 1) == i + 1);
    assert forall|t: int| i + 1 <= t < i + 6 implies !crate::text::is_delim(#[trigger] s[t]) by {
        assert(s[t] == fluid_text(f)[t - i]);
    }
    lemma_atom_end_exact(s, i + 1, i + 6);
    assert(s.subrange(i + 1, i + 6) =~= seq!['f', 'l', 'u', 'i', 'd']);
}

proof fn lemma_expr_at_mix(s: Seq<char>, i: int, a: Expr, qa: int, b: Expr, qb: int, fuel: nat)
    requires
        0 <= i,
        i + 5 < s.len(),
        s[i] == '(',
        s[i + 1] == 'm',
        s[i + 2] == 'i',
        s[i + 3] == 'x',
        s[i + 4] == ' ',
        s[i + 5] == '(',
        fuel >= 1,
        expr_at(s, i + 5, (fuel - 1) as nat) == Some((a, qa)),
        0 <= qa,
        qa + 1 < s.len(),
        s[qa] == ' ',
        s[qa + 1] == '(',
        expr_at(s, qa + 1, (fuel - 1) as nat) == Some((b, qb)),
        0 <= qb < s.len(),
        s[qb] == ')',
    ensures
        expr_at(s, i, fuel) == Some((Expr::Mix(Box::new(a), Box::new(b)), qb + 1)),
{
    assert(space_run(s, i + 1) == i + 1);
    lemma_atom_end_exact(s, i + 1, i + 4);
    assert(s.subrange(i + 1, i + 4) =~= mix_word());
    assert(s.subrange(i + 1, i + 4) != seq!['f', 'l', 'u', 'i', 'd']);
    assert(space_run(s, i + 5) == i + 5);
    assert(space_run(s, i + 4) == i + 5);
    assert(space_run(s, qa + 1) == qa + 1);
    assert(space_run(s, qa) == qa + 1);
    assert(space_run(s, qb) == qb);
}

/// The text of a mixer tree, wherever it stands, reads back as that tree and
/// ends where the text ends.
#[verifier::rlimit(100)]
#[verifier::spinoff_prover]
pub proof fn lemma_expr_at_text(p: Seq<char>, e: Expr, r: Seq<char>, fuel: nat)
    requires
        writable_tree(e),
        fuel >= expr_depth(e),
    ensures
        expr_at(p + expr_text(e) + r, p.len() as int, fuel) == Some((e, (p.len() + expr_text(e).len()) as int)),
    decreases e,
{
    lemma_depth_below_text_len(e);
    match e {
        Expr::Fluid(f) => {
            lemma_expr_at_fluid(p, f, r, fuel);
        },
        Expr::Mix(a, b) => {
            let s = p + expr_text(e) + r;
            let i = p.len() as int;
            let ta = expr_text(*a);
            let tb = expr_text(*b);
            let te = expr_text(e);
            lemma_depth_below_text_len(*a);
            lemma_depth_below_text_len(*b);
            assert(te == seq!['(', 'm', 'i', 'x', ' '] + ta + seq![' '] + tb + seq![')']);
            let q = i + 5 + ta.len();
            let t = q + 1 + tb.len();
            assert(t + 1 == i + te.len());
            let pa = s.subrange(0, i + 5);
            let ra = s.subrange(q, s.len() as int);
            assert forall|k: int| 0 <= k < ta.len() implies s[i + 5 + k] == ta[k] by {
                assert(s[i + 5 + k] == te[5 + k]);
            }
            assert(s =~= pa + ta + ra);
            lemma_expr_at_text(pa, *a, ra, (fuel - 1) as nat);
            let pb = s.subrange(0, q + 1);
            let rb = s.subrange(t, s.len() as int);
            assert forall|k: int| 0 <= k < tb.len() implies s[q + 1 + k] == tb[k] by {
                assert(s[q + 1 + k] == te[q + 1 + k - i]);
            }
            assert(s =~= pb + tb + rb);
            lemma_expr_at_text(pb, *b, rb, (fuel - 1) as nat);
            assert(s[i] == te[0]);
            assert(s[i + 1] == te[1]);
            assert(s[i + 2] == te[2]);
            assert(s[i + 3] == te[3]);
            assert(s[i + 4] == te[4]);
            assert(s[i + 5] == te[5]);
            assert(s[q] == te[q - i]);
            assert(s[q + 1] == te[q + 1 - i]);
            assert(s[t] == te[t - i]);
            lemma_expr_at_mix(s, i, *a, q, *b, t, fuel);
        },
        Expr::Number(_) => {},
    }
}

/// Printing a mixer tree and reading the text back gives the same tree.
pub proof fn lemma_parse_print(e: Expr)
    requires
        writable_tree(e),
    ensures
        expr_from_text(expr_text(e)) == Some(e),
{
    let s = expr_text(e);
    lemma_depth_below_text_len(e);
    assert(space_run(s, 0) == 0);
    assert(s =~= Seq::<char>::empty() + s + Seq::<char>::empty());
    lemma_expr_at_text(Seq::<char>::empty(), e, Seq::<char>::empty(), s.len());
    assert(space_run(s, s.len() as int) == s.len());
}

/// A text is rejected when its first non-space character is not `(`, when its
/// first form is neither `fluid` nor `mix`, or when that form is `fluid` and
/// its literal is malformed (such as a child that is not a number).
pub proof fn lemma_rejects_malformed(s: Seq<char>)
    ensures
        ({
            let i = space_run(s, 0);
            let j = space_run(s, i + 1);
            let e = atom_end(s, j);
            &&& !(i < s.len() && s[i] == '(') ==> expr_from_text(s) is None
            &&& (i < s.len() && s.subrange(j, e) != seq!['f', 'l', 'u', 'i', 'd'] && s.subrange(j, e)
                != mix_word()) ==> expr_from_text(s) is None
            &&& (s.subrange(j, e) == seq!['f', 'l', 'u', 'i', 'd'] && fluid_at(s, i) is Err)
                ==> expr_from_text(s) is None
        }),
{
}

/// Reads the expression that starts at `i` of `cs`.
pub fn read_expr(cs: &Vec<char>, i: usize, fuel: usize) -> (r: Option<(Expr, usize)>)
    requires
        i <= cs@.len(),
    ensures
        match r {
            Some((e, end)) => expr_at(cs@, i as int, fuel as nat) == Some((e, end as int)) && i
                < end <= cs@.len(),
            None => expr_at(cs@, i as int, fuel as nat) is None,
        },
    decreases fuel,
{
    if fuel == 0 || !(i < cs.len() && cs[i] == '(') {
        return None;
    }
    let j = skip_spaces(cs, i + 1);
    let e = scan_atom(cs, j);
    proof {
        reveal_strlit("fluid");
        reveal_strlit("mix");
        assert("fluid"@ =~= seq!['f', 'l', 'u', 'i', 'd']);
        assert("mix"@ =~= mix_word());
    }
    if spells(cs, j, e, "fluid") {
        match read_fluid(cs, i) {
            Ok((f, end)) => {
                proof {
                    fluid_end_after_start(cs@, i as int);
                }
                Some((Expr::Fluid(f), end))
            },
            Err(_) => None,
        }
    } else if spells(cs, j, e, "mix") {
        let k = skip_spaces(cs, e);
        match read_expr(cs, k, fuel - 1) {
            None => None,
            Some((a, p)) => {
                let q = skip_spaces(cs, p);
                match read_expr(cs, q, fuel - 1) {
                    None => None,
                    Some((b, t)) => {
                        let n = skip_spaces(cs, t);
                        if n < cs.len() && cs[n] == ')' {
                            Some((Expr::Mix(Box::new(a), Box::new(b)), n + 1))
                        } else {
                            None
                        }
                    },
                }
            },
        }
    } else {
        None
    }
}

/// A fluid literal read from `i` ends after `i`.
proof fn fluid_end_after_start(s: Seq<char>, i: int)
    requires
        fluid_at(s, i) is Ok,
    ensures
        fluid_at(s, i)->Ok_0.1 > i,
{
    crate::text::lemma_space_run_bounds(s, i + 1);
    let j = space_run(s, i + 1);
    crate::text::lemma_atom_end_bounds(s, j);
    let e = atom_end(s, j);
    crate::text::lemma_space_run_bounds(s, e);
    let k = space_run(s, e);
    crate::text::lemma_atom_end_bounds(s, k);
    let c_end = atom_end(s, k);
    crate::text::lemma_space_run_bounds(s, c_end);
    let m = space_run(s, c_end);
    crate::text::lemma_atom_end_bounds(s, m);
    let v_end = atom_end(s, m);
    crate::text::lemma_space_run_bounds(s, v_end);
}

/// Appends the text of `e` to `out`.
pub fn write_expr(out: &mut String, e: &Expr)
    ensures
        final(out)@ == old(out)@ + expr_text(*e),
    decreases e,
{
    match e {
        Expr::Mix(a, b) => {
            proof {
                reveal_strlit("(mix ");
                reveal_strlit(" ");
                reveal_strlit(")");
            }
            out.append("(mix ");
            write_expr(out, a);
            out.append(" ");
            write_expr(out, b);
            out.append(")");
            assert(out@ =~= old(out)@ + expr_text(*e));
        },
        Expr::Fluid(f) => {
            write_fluid(out, f);
        },
        Expr::Number(n) => {
            write_number(out, *n);
        },
    }
}

impl Expr {
    /// Reads an expression from its text.
    pub fn parse(input_str: &str) -> (r: Result<Expr, IRGenerationError>)
        ensures
            r is Ok <==> expr_from_text(input_str@) is Some,
            r is Ok ==> r->Ok_0 == expr_from_text(input_str@)->0,
    {
        let cs = chars_of(input_str);
        let start = skip_spaces(&cs, 0);
        match read_expr(&cs, start, cs.len()) {
            Some((e, end)) => {
                if skip_spaces(&cs, end) == cs.len() {
                    Ok(e)
                } else {
                    Err(IRGenerationError::ParseError(parse_failure()))
                }
            },
            None => Err(IRGenerationError::ParseError(parse_failure())),
        }
    }

    /// The fluid the expression produces, or `None` when a bare number stands
    /// where a fluid is needed.
    pub fn evaluate(&self) -> (r: Option<Fluid>)
        ensures
            r == tree_fluid(*self),
        decreases self,
    {
        match self {
            Expr::Mix(a, b) => match (a.evaluate(), b.evaluate()) {
                (Some(fa), Some(fb)) => Some(fa.mix(&fb)),
                _ => None,
            },
            Expr::Fluid(f) => Some(*f),
            Expr::Number(_) => None,
        }
    }

    /// Text of the expression.
    pub fn to_string(&self) -> (r: String)
        ensures
            r@ == expr_text(*self),
    {
        let mut out = String::new();
        write_expr(&mut out, self);
        out
    }
}

fn parse_failure() -> (r: String) {
    String::from_str("not a mixer expression: expected (fluid C V) or (mix E E)")
}

} // verus!
