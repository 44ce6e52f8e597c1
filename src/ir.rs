//! The flat representation of a mixer tree: `store` and `mix` operations over
//! virtual registers, and the lowering of a tree into it.
use vstd::prelude::*;
use crate::expr::{expr_size, is_mixer_tree, Expr};
use crate::fluid::{fluid_text, write_fluid, Fluid};
use crate::text::{nat_text, push_nat};
use vstd::string::StringExecFns;

verus! {

/// An operand: a constant fluid or a virtual register.
#[derive(Debug, Clone, Copy, PartialEq, Eq, Structural)]
pub enum Operand {
    Const(Fluid),
    VirtualRegister(usize),
}

/// One operation: `store value dst` or `mix src_a src_b dst`.
#[derive(Debug, Clone, Copy, PartialEq, Eq)]
pub enum IROp {
    Store((Operand, Operand)),
    Mix((Operand, Operand, Operand)),
}

/// The operations of a tree, in post-order, with registers numbered from
/// `base`: a fluid leaf stores into the next register, a mix computes both
/// sides and mixes their registers into the next one.
pub open spec fn lower(e: Expr, base: nat) -> Seq<IROp>
    decreases e,
{
    match e {
        Expr::Fluid(f) => seq![IROp::Store((Operand::Const(f), Operand::VirtualRegister(base as usize)))],
        Expr::Mix(a, b) => {
            let la = lower(*a, base);
            let lb = lower(*b, base + la.len());
            let dst = base + la.len() + lb.len();
            la + lb + seq![
                IROp::Mix(
                    (
                        Operand::VirtualRegister((base + la.len() - 1) as usize),
                        Operand::VirtualRegister((dst - 1) as usize),
                        Operand::VirtualRegister(dst as usize),
                    ),
                ),
            ]
        },
        Expr::Number(_) => Seq::empty(),
    }
}

/// Operation `i` writes register `i`; a mix reads two earlier registers and a
/// store writes a constant.
pub open spec fn wf_op(op: IROp, i: int) -> bool {
    match op {
        IROp::Store((v, d)) => v is Const && d == Operand::VirtualRegister(i as usize),
        IROp::Mix((a, b, d)) => d == Operand::VirtualRegister(i as usize) && match (a, b) {
            (Operand::VirtualRegister(x), Operand::VirtualRegister(y)) => x < i && y < i,
            _ => false,
        },
    }
}

pub open spec fn wf_ir(ops: Seq<IROp>) -> bool {
    forall|i: int| 0 <= i < ops.len() ==> wf_op(#[trigger] ops[i], i)
}

/// Lowering yields one operation per leaf and per mix.
pub proof fn lemma_lower_len(e: Expr, base: nat)
    ensures
        lower(e, base).len() == if is_mixer_tree(e) { expr_size(e) } else { lower(e, base).len() },
        is_mixer_tree(e) ==> lower(e, base).len() >= 1,
    decreases e,
{
    match e {
        Expr::Mix(a, b) => {
            lemma_lower_len(*a, base);
            lemma_lower_len(*b, base + lower(*a, base).len());
        },
        _ => {},
    }
}

/// Lowering a tree after `base` operations gives well-formed operations at
/// positions `base..`.
pub proof fn lemma_lower_wf(e: Expr, base: nat)
    requires
        is_mixer_tree(e),
    ensures
        forall|i: int| 0 <= i < lower(e, base).len() ==> wf_op(#[trigger] lower(e, base)[i], base + i),
    decreases e,
{
    match e {
        Expr::Mix(a, b) => {
            lemma_lower_wf(*a, base);
            let la = lower(*a, base);
            lemma_lower_wf(*b, base + la.len());
            lemma_lower_len(*a, base);
            lemma_lower_len(*b, base + la.len());
            let lb = lower(*b, base + la.len());
            let all = lower(e, base);
            assert forall|i: int| 0 <= i < all.len() implies wf_op(#[trigger] all[i], base + i) by {
                if i < la.len() {
                    assert(all[i] == la[i]);
                } else if i < la.len() + lb.len() {
                    assert(all[i] == lb[i - la.len()]);
                }
            }
        },
        _ => {},
    }
}

/// Text of an operand: a fluid literal, or `%` and the register number.
pub open spec fn operand_text(o: Operand) -> Seq<char> {
    match o {
        Operand::Const(f) => fluid_text(f),
        Operand::VirtualRegister(v) => seq!['%'] + nat_text(v as nat),
    }
}

/// Text of an operation: `store V D` or `mix A B D`.
pub open spec fn op_text(op: IROp) -> Seq<char> {
    match op {
        IROp::Store((v, d)) => seq!['s', 't', 'o', 'r', 'e', ' '] + operand_text(v) + seq![' ']
            + operand_text(d),
        IROp::Mix((a, b, d)) => seq!['m', 'i', 'x', ' '] + operand_text(a) + seq![' ']
            + operand_text(b) + seq![' '] + operand_text(d),
    }
}

fn write_operand(out: &mut String, o: &Operand)
    ensures
        final(out)@ == old(out)@ + operand_text(*o),
{
    match o {
        Operand::Const(f) => write_fluid(out, f),
        Operand::VirtualRegister(v) => {
            proof { reveal_strlit("%"); }
            out.append("%");
            push_nat(out, *v as u64);
            assert(out@ =~= old(out)@ + operand_text(*o));
        },
    }
}

impl Operand {
    pub fn to_string(&self) -> (r: String)
        ensures
            r@ == operand_text(*self),
    {
        let mut out = String::new();
        write_operand(&mut out, self);
        out
    }
}

impl IROp {
    pub fn to_string(&self) -> (r: String)
        ensures
            r@ == op_text(*self),
    {
        let mut out = String::new();
        proof {
            reveal_strlit("store ");
            reveal_strlit("mix ");
            reveal_strlit(" ");
        }
        match self {
            IROp::Store((v, d)) => {
                out.append("store ");
                write_operand(&mut out, v);
                out.append(" ");
                write_operand(&mut out, d);
            },
            IROp::Mix((a, b, d)) => {
                out.append("mix ");
                write_operand(&mut out, a);
                out.append(" ");
                write_operand(&mut out, b);
                out.append(" ");
                write_operand(&mut out, d);
            },
        }
        assert(out@ =~= op_text(*self));
        out
    }
}

#[derive(Debug)]
pub struct IRContext {
    pub ir_output: Vec<IROp>,
}

/// Lowers mixer trees into operations.
#[derive(Debug)]
pub struct IRBuilder {
    pub context: IRContext,
}

impl IRBuilder {
    pub fn new() -> (r: Self)
        ensures
            r.context.ir_output@.len() == 0,
    {
        IRBuilder { context: IRContext { ir_output: Vec::new() } }
    }

    /// Lowers a whole mixer tree.
    pub fn build_ir(&mut self, expr: &Expr) -> (r: Vec<IROp>)
        requires
            is_mixer_tree(*expr),
            old(self).context.ir_output@.len() == 0,
            expr_size(*expr) < usize::MAX,
        ensures
            r@ == lower(*expr, 0),
            final(self).context.ir_output@ == lower(*expr, 0),
            wf_ir(r@),
    {
        self.compile_expr(expr);
        proof {
            lemma_lower_wf(*expr, 0);
        }
        assert(self.context.ir_output@ =~= lower(*expr, 0));
        let out = self.context.ir_output.clone();
        assert(out@ =~= self.context.ir_output@);
        out
    }

    /// Lowers `expr` after the operations already emitted; returns the register
    /// that holds its result, or `None` for a bare number, which emits nothing.
    pub fn compile_expr(&mut self, expr: &Expr) -> (r: Option<usize>)
        requires
            *expr is Number || is_mixer_tree(*expr),
            old(self).context.ir_output@.len() + expr_size(*expr) < usize::MAX,
        ensures
            final(self).context.ir_output@ == old(self).context.ir_output@ + lower(
                *expr,
                old(self).context.ir_output@.len(),
            ),
            r == match *expr {
                Expr::Number(_) => None::<usize>,
                _ => Some(
                    (old(self).context.ir_output@.len() + lower(
                        *expr,
                        old(self).context.ir_output@.len(),
                    ).len() - 1) as usize,
                ),
            },
        decreases expr_size(*expr), 1nat,
    {
        match expr {
            Expr::Mix(l_expr, r_expr) => Some(self.compile_mix(l_expr, r_expr)),
            Expr::Fluid(fluid) => Some(self.compile_fluid(*fluid)),
            Expr::Number(_) => {
                assert(self.context.ir_output@ =~= old(self).context.ir_output@ + lower(
                    *expr,
                    old(self).context.ir_output@.len(),
                ));
                None
            },
        }
    }

    /// Emits a store of `fluid` into the next register, and returns that register.
    pub fn compile_fluid(&mut self, fluid: Fluid) -> (r: usize)
        ensures
            r == old(self).context.ir_output@.len(),
            final(self).context.ir_output@ == old(self).context.ir_output@.push(
                IROp::Store((Operand::Const(fluid), Operand::VirtualRegister(r))),
            ),
    {
        let current_virtual_register_ix = self.context.ir_output.len();
        let store_destination_v_reg = Operand::VirtualRegister(current_virtual_register_ix);
        let value_to_store = Operand::Const(fluid);
        let ir_op = IROp::Store((value_to_store, store_destination_v_reg));
        self.context.ir_output.push(ir_op);
        current_virtual_register_ix
    }

    /// Emits both sides of a mix and the mix itself; returns its register.
    pub fn compile_mix(&mut self, lhs: &Expr, rhs: &Expr) -> (r: usize)
        requires
            is_mixer_tree(*lhs),
            is_mixer_tree(*rhs),
            old(self).context.ir_output@.len() + expr_size(*lhs) + expr_size(*rhs) + 1 < usize::MAX,
        ensures
            ({
                let base = old(self).context.ir_output@.len();
                let la = lower(*lhs, base);
                let lb = lower(*rhs, base + la.len());
                &&& final(self).context.ir_output@ == old(self).context.ir_output@ + la + lb
                    + seq![
                    IROp::Mix(
                        (
                            Operand::VirtualRegister((base + la.len() - 1) as usize),
                            Operand::VirtualRegister((base + la.len() + lb.len() - 1) as usize),
                            Operand::VirtualRegister(r),
                        ),
                    ),
                ]
                &&& r == base + la.len() + lb.len()
            }),
        decreases expr_size(*lhs) + expr_size(*rhs) + 1, 0nat,
    {
        let ghost base = self.context.ir_output@.len();
        proof {
            lemma_lower_len(*lhs, base as nat);
        }
        let lhs_vreg_ix = self.compile_expr(lhs);
        let ghost mid = self.context.ir_output@;
        proof {
            lemma_lower_len(*rhs, mid.len());
        }
        let rhs_vreg_ix = self.compile_expr(rhs);
        let l = match lhs_vreg_ix {
            Some(l) => l,
            None => 0,
        };
        let r = match rhs_vreg_ix {
            Some(r) => r,
            None => 0,
        };
        let current_virtual_register_ix = self.context.ir_output.len();
        let ir_op = IROp::Mix(
            (
                Operand::VirtualRegister(l),
                Operand::VirtualRegister(r),
                Operand::VirtualRegister(current_virtual_register_ix),
            ),
        );
        self.context.ir_output.push(ir_op);
        assert(self.context.ir_output@ =~= old(self).context.ir_output@ + lower(*lhs, base as nat)
            + lower(*rhs, mid.len()) + seq![ir_op]);
        current_virtual_register_ix
    }
}

} // verus!
