//! Text of an extracted term with every fluid volume expressed in units of the
//! smallest fluid volume of the term.
use vstd::prelude::*;
use vstd::string::StringExecFns;
use crate::analysis::MixLang;
use crate::number::{number_text, q_div, write_number, LimitedFloat};

verus! {

/// A term as a list of nodes whose children come before them; the last node
/// is the root.
pub open spec fn wf_term(nodes: Seq<MixLang>) -> bool {
    forall|i: int|
        0 <= i < nodes.len() ==> match #[trigger] nodes[i] {
            MixLang::Number(_) => true,
            MixLang::Add(a, b) => a < i && b < i,
            MixLang::Sub(a, b) => a < i && b < i,
            MixLang::Div(a, b) => a < i && b < i,
            MixLang::Mult(a, b) => a < i && b < i,
            MixLang::Mix(a, b) => a < i && b < i,
            MixLang::Fluid(a, b) => a < i && b < i,
        }
}

/// The volume of node `i` when it is a fluid whose volume child is a number.
pub open spec fn fluid_volume(nodes: Seq<MixLang>, i: int) -> Option<int> {
    match nodes[i] {
        MixLang::Fluid(_, v) => match nodes[v as int] {
            MixLang::Number(q) => Some(q.wrapped as int),
            _ => None,
        },
        _ => None,
    }
}

/// The smallest fluid volume among the first `n` nodes.
pub open spec fn min_volume(nodes: Seq<MixLang>, n: int) -> Option<int>
    decreases n,
{
    if n <= 0 {
        None
    } else {
        let rest = min_volume(nodes, n - 1);
        match fluid_volume(nodes, n - 1) {
            None => rest,
            Some(v) => match rest {
                None => Some(v),
                Some(m) => if v < m {
                    Some(v)
                } else {
                    Some(m)
                },
            },
        }
    }
}

pub open spec fn pair_text(op: Seq<char>, a: Seq<char>, b: Seq<char>) -> Seq<char> {
    seq!['('] + op + seq![' '] + a + seq![' '] + b + seq![')']
}

/// Text of node `i`; a fluid with numeric children shows its volume divided
/// by `unit` (when there is one).
pub open spec fn node_text(nodes: Seq<MixLang>, i: int, unit: Option<int>) -> Seq<char>
    decreases i,
{
    if !(0 <= i < nodes.len()) {
        Seq::empty()
    } else {
        match nodes[i] {
            MixLang::Number(q) => number_text(q.wrapped as int),
            MixLang::Fluid(c, v) => {
                if 0 <= c < i && 0 <= v < i {
                    match (nodes[c as int], nodes[v as int], unit) {
                        (MixLang::Number(cq), MixLang::Number(vq), Some(u)) => pair_text(
                            seq!['f', 'l', 'u', 'i', 'd'],
                            number_text(cq.wrapped as int),
                            number_text(q_div(vq.wrapped as int, u)),
                        ),
                        _ => pair_text(
                            seq!['f', 'l', 'u', 'i', 'd'],
                            node_text(nodes, c as int, unit),
                            node_text(nodes, v as int, unit),
                        ),
                    }
                } else {
                    Seq::empty()
                }
            },
            MixLang::Mix(a, b) => if a < i && b < i {
                pair_text(
                    seq!['m', 'i', 'x'],
                    node_text(nodes, a as int, unit),
                    node_text(nodes, b as int, unit),
                )
            } else {
                Seq::empty()
            },
            MixLang::Add(a, b) => if a < i && b < i {
                pair_text(seq!['+'], node_text(nodes, a as int, unit), node_text(nodes, b as int, unit))
            } else {
                Seq::empty()
            },
            MixLang::Sub(a, b) => if a < i && b < i {
                pair_text(seq!['-'], node_text(nodes, a as int, unit), node_text(nodes, b as int, unit))
            } else {
                Seq::empty()
            },
            MixLang::Div(a, b) => if a < i && b < i {
                pair_text(seq!['/'], node_text(nodes, a as int, unit), node_text(nodes, b as int, unit))
            } else {
                Seq::empty()
            },
            MixLang::Mult(a, b) => if a < i && b < i {
                pair_text(seq!['*'], node_text(nodes, a as int, unit), node_text(nodes, b as int, unit))
            } else {
                Seq::empty()
            },
        }
    }
}

/// Text of the whole term, volumes in units of the smallest fluid volume.
pub open spec fn normalized_text(nodes: Seq<MixLang>) -> Seq<char> {
    node_text(nodes, nodes.len() - 1, min_volume(nodes, nodes.len() as int))
}

/// The text of an extracted term (its root is the last node) with every
/// fluid volume divided by the smallest fluid volume of the term.
pub fn normalize_expr_by_min_volume(expr: &Vec<MixLang>) -> (r: String)
    requires
        expr@.len() > 0,
        wf_term(expr@),
    ensures
        r@ == normalized_text(expr@),
{
    let mut unit: Option<i64> = None;
    let mut i: usize = 0;
    while i < expr.len()
        invariant
            i <= expr@.len(),
            wf_term(expr@),
            match unit {
                Some(u) => min_volume(expr@, i as int) == Some(u as int),
                None => min_volume(expr@, i as int) is None,
            },
        decreases expr@.len() - i,
    {
        proof {
            assert(wf_term(expr@));
            let _ = expr@[i as int];
        }
        if let MixLang::Fluid(_, v) = expr[i] {
            if let MixLang::Number(vol) = expr[v] {
                unit = match unit {
                    None => Some(vol.wrapped),
                    Some(m) => if vol.wrapped < m {
                        Some(vol.wrapped)
                    } else {
                        Some(m)
                    },
                };
            }
        }
        i = i + 1;
    }
    let mut out = String::new();
    let ghost u = match unit {
        Some(m) => Some(m as int),
        None => None,
    };
    assert(u == min_volume(expr@, expr@.len() as int));
    write_node(&mut out, expr, expr.len() - 1, unit);
    out
}

fn write_pair(out: &mut String, op: &str, expr: &Vec<MixLang>, a: usize, b: usize, unit: Option<i64>, i: usize)
    requires
        a < i,
        b < i,
        i < expr@.len(),
    ensures
        final(out)@ == old(out)@ + pair_text(
            op@,
            node_text(expr@, a as int, opt_int(unit)),
            node_text(expr@, b as int, opt_int(unit)),
        ),
    decreases i, 0nat,
{
    proof {
        reveal_strlit("(");
        reveal_strlit(" ");
        reveal_strlit(")");
    }
    out.append("(");
    out.append(op);
    out.append(" ");
    write_node(out, expr, a, unit);
    out.append(" ");
    write_node(out, expr, b, unit);
    out.append(")");
    assert(out@ =~= old(out)@ + pair_text(
        op@,
        node_text(expr@, a as int, opt_int(unit)),
        node_text(expr@, b as int, opt_int(unit)),
    ));
}

pub open spec fn opt_int(u: Option<i64>) -> Option<int> {
    match u {
        Some(m) => Some(m as int),
        None => None,
    }
}

/// Appends the text of node `i` to `out`.
fn write_node(out: &mut String, expr: &Vec<MixLang>, i: usize, unit: Option<i64>)
    requires
        i < expr@.len(),
    ensures
        final(out)@ == old(out)@ + node_text(expr@, i as int, opt_int(unit)),
    decreases i, 1nat,
{
    proof {
        reveal_strlit("fluid");
        reveal_strlit("mix");
        reveal_strlit("+");
        reveal_strlit("-");
        reveal_strlit("/");
        reveal_strlit("*");
        reveal_strlit("(fluid ");
        reveal_strlit(" ");
        reveal_strlit(")");
        assert("fluid"@ =~= seq!['f', 'l', 'u', 'i', 'd']);
        assert("mix"@ =~= seq!['m', 'i', 'x']);
    }
    match expr[i] {
        MixLang::Number(q) => {
            write_number(out, q);
        },
        MixLang::Fluid(c, v) => {
            if c < i && v < i {
                match (expr[c], expr[v], unit) {
                    (MixLang::Number(cq), MixLang::Number(vq), Some(u)) => {
                        let scaled = vq / LimitedFloat::new(u);
                        out.append("(fluid ");
                        write_number(out, cq);
                        out.append(" ");
                        write_number(out, scaled);
                        out.append(")");
                        assert(out@ =~= old(out)@ + node_text(expr@, i as int, opt_int(unit)));
                    },
                    _ => {
                        write_pair(out, "fluid", expr, c, v, unit, i);
                    },
                }
            }
        },
        MixLang::Mix(a, b) => {
            if a < i && b < i {
                write_pair(out, "mix", expr, a, b, unit, i);
            }
        },
        MixLang::Add(a, b) => {
            if a < i && b < i {
                write_pair(out, "+", expr, a, b, unit, i);
            }
        },
        MixLang::Sub(a, b) => {
            if a < i && b < i {
                write_pair(out, "-", expr, a, b, unit, i);
            }
        },
        MixLang::Div(a, b) => {
            if a < i && b < i {
                write_pair(out, "/", expr, a, b, unit, i);
            }
        },
        MixLang::Mult(a, b) => {
            if a < i && b < i {
                write_pair(out, "*", expr, a, b, unit, i);
            }
        },
    }
    assert(out@ =~= old(out)@ + node_text(expr@, i as int, opt_int(unit)));
}

} // verus!
