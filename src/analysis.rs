//! The domain analysis of the e-graph (what each e-class is known to hold),
//! the side conditions of the rewrite rules, and the extraction cost of an
//! e-node. An e-graph engine calls these on the data of the e-classes.
use vstd::prelude::*;
use crate::fluid::{spec_mix, Fluid};
use crate::number::{q_add, q_div, q_mul, q_sub, spec_valid, LimitedFloat, SCALE};

verus! {

/// An e-node of the term language: a number, an arithmetic operation, a mix or
/// a fluid constructor. The two fields of an operation are its children.
#[derive(Debug, Clone, Copy, PartialEq, Eq, Structural, Hash, PartialOrd, Ord)]
pub enum MixLang {
    Number(LimitedFloat),
    Add(usize, usize),
    Sub(usize, usize),
    Div(usize, usize),
    Mult(usize, usize),
    Mix(usize, usize),
    Fluid(usize, usize),
}

/// What an e-class is known to hold.
#[derive(Debug, Clone, Copy, PartialEq, Eq, Structural)]
pub enum ArithmeticAnalysisPayload {
    Number(LimitedFloat),
    Fluid(Fluid),
    Unknown,
}

/// Two classes that hold different constants were merged: a rule is unsound.
#[derive(Debug, Clone, Copy, PartialEq, Eq, Structural)]
pub struct AnalysisConflict {
    pub to: ArithmeticAnalysisPayload,
    pub from: ArithmeticAnalysisPayload,
}

impl ArithmeticAnalysisPayload {
    pub fn expect_number(self) -> (r: Option<LimitedFloat>)
        ensures
            r == match self {
                ArithmeticAnalysisPayload::Number(n) => Some(n),
                _ => None::<LimitedFloat>,
            },
    {
        match self {
            ArithmeticAnalysisPayload::Number(nm) => Some(nm),
            _ => None,
        }
    }
}

impl MixLang {
    pub fn expect_number(self) -> (r: Option<LimitedFloat>)
        ensures
            r == match self {
                MixLang::Number(n) => Some(n),
                _ => None::<LimitedFloat>,
            },
    {
        match self {
            MixLang::Number(nm) => Some(nm),
            _ => None,
        }
    }
}

/// The datum of a new e-node, from the data of its children (`left`, `right`;
/// unused for a number).
pub open spec fn spec_make(
    node: MixLang,
    left: ArithmeticAnalysisPayload,
    right: ArithmeticAnalysisPayload,
) -> ArithmeticAnalysisPayload {
    match node {
        MixLang::Number(n) => ArithmeticAnalysisPayload::Number(n),
        MixLang::Fluid(_, _) => match (left, right) {
            (ArithmeticAnalysisPayload::Number(c), ArithmeticAnalysisPayload::Number(v)) =>
                ArithmeticAnalysisPayload::Fluid(Fluid { concentration: c, unit_volume: v }),
            _ => ArithmeticAnalysisPayload::Unknown,
        },
        MixLang::Mix(_, _) => match (left, right) {
            (ArithmeticAnalysisPayload::Fluid(a), ArithmeticAnalysisPayload::Fluid(b)) =>
                ArithmeticAnalysisPayload::Fluid(spec_mix(a, b)),
            _ => ArithmeticAnalysisPayload::Unknown,
        },
        _ => match (left, right) {
            (ArithmeticAnalysisPayload::Number(a), ArithmeticAnalysisPayload::Number(b)) =>
                ArithmeticAnalysisPayload::Number(spec_arith(node, a, b)),
            _ => ArithmeticAnalysisPayload::Unknown,
        },
    }
}

/// The value of an arithmetic node on two numbers.
pub open spec fn spec_arith(node: MixLang, a: LimitedFloat, b: LimitedFloat) -> LimitedFloat {
    let (x, y) = (a.wrapped as int, b.wrapped as int);
    LimitedFloat {
        wrapped: match node {
            MixLang::Add(_, _) => q_add(x, y),
            MixLang::Sub(_, _) => q_sub(x, y),
            MixLang::Div(_, _) => q_div(x, y),
            _ => q_mul(x, y),
        } as i64,
    }
}

/// Computes the datum of a new e-node from the data of its children.
pub fn make_payload(
    node: &MixLang,
    left: &ArithmeticAnalysisPayload,
    right: &ArithmeticAnalysisPayload,
) -> (r: ArithmeticAnalysisPayload)
    ensures
        r == spec_make(*node, *left, *right),
{
    match node {
        MixLang::Number(n) => ArithmeticAnalysisPayload::Number(*n),
        MixLang::Fluid(_, _) => match (left, right) {
            (ArithmeticAnalysisPayload::Number(c), ArithmeticAnalysisPayload::Number(v)) => {
                ArithmeticAnalysisPayload::Fluid(Fluid::new(*c, *v))
            },
            _ => ArithmeticAnalysisPayload::Unknown,
        },
        MixLang::Mix(_, _) => match (left, right) {
            (ArithmeticAnalysisPayload::Fluid(a), ArithmeticAnalysisPayload::Fluid(b)) => {
                ArithmeticAnalysisPayload::Fluid(a.mix(b))
            },
            _ => ArithmeticAnalysisPayload::Unknown,
        },
        _ => match (left, right) {
            (ArithmeticAnalysisPayload::Number(a), ArithmeticAnalysisPayload::Number(b)) => {
                let v = match node {
                    MixLang::Add(_, _) => *a + *b,
                    MixLang::Sub(_, _) => *a - *b,
                    MixLang::Div(_, _) => *a / *b,
                    _ => *a * *b,
                };
                ArithmeticAnalysisPayload::Number(v)
            },
            _ => ArithmeticAnalysisPayload::Unknown,
        },
    }
}

/// Merges the datum `from` of a class into the datum `to` of the class it is
/// united with. Equal data stay; an unknown datum takes the other; two
/// different known data are a conflict, and `to` is left as it was. On
/// success, tells whether `to` changed and whether it differs from `from`.
pub fn merge_payloads(to: &mut ArithmeticAnalysisPayload, from: ArithmeticAnalysisPayload) -> (r:
    Result<(bool, bool), AnalysisConflict>)
    ensures
        r is Err <==> (*old(to) != ArithmeticAnalysisPayload::Unknown && from
            != ArithmeticAnalysisPayload::Unknown && *old(to) != from),
        r is Err ==> *final(to) == *old(to) && r->Err_0 == (AnalysisConflict {
            to: *old(to),
            from,
        }),
        r is Ok ==> *final(to) == if *old(to) == ArithmeticAnalysisPayload::Unknown {
            from
        } else {
            *old(to)
        },
        r is Ok ==> r->Ok_0 == (*old(to) == ArithmeticAnalysisPayload::Unknown && from
            != ArithmeticAnalysisPayload::Unknown, *old(to) != ArithmeticAnalysisPayload::Unknown
            && from == ArithmeticAnalysisPayload::Unknown),
{
    let current = *to;
    match (current, from) {
        (ArithmeticAnalysisPayload::Unknown, ArithmeticAnalysisPayload::Unknown) => Ok((false, false)),
        (ArithmeticAnalysisPayload::Unknown, _) => {
            *to = from;
            Ok((true, false))
        },
        (_, ArithmeticAnalysisPayload::Unknown) => Ok((false, true)),
        _ => {
            if current == from {
                Ok((false, false))
            } else {
                Err(AnalysisConflict { to: current, from })
            }
        },
    }
}

/// The constants that a class holding a fluid must show as e-nodes: its
/// concentration and its volume. The engine adds `Number` nodes for them and a
/// `Fluid` node over those, and unites that node with the class.
pub fn reified_constants(data: &ArithmeticAnalysisPayload) -> (r: Option<(LimitedFloat, LimitedFloat)>)
    ensures
        r == match *data {
            ArithmeticAnalysisPayload::Fluid(f) => Some((f.concentration, f.unit_volume)),
            _ => None::<(LimitedFloat, LimitedFloat)>,
        },
{
    match data {
        ArithmeticAnalysisPayload::Fluid(f) => Some((f.concentration, f.unit_volume)),
        _ => None,
    }
}

/// The nodes that the modify hook adds to a class holding a fluid carry that
/// same fluid, so merging them in leaves the datum as it was: running the hook
/// again, on any later rebuild, changes nothing.
pub proof fn lemma_modify_keeps_datum(f: Fluid, i: usize, j: usize)
    ensures
        ({
            let d = ArithmeticAnalysisPayload::Fluid(f);
            let c = spec_make(MixLang::Number(f.concentration), ArithmeticAnalysisPayload::Unknown,
                ArithmeticAnalysisPayload::Unknown);
            let v = spec_make(MixLang::Number(f.unit_volume), ArithmeticAnalysisPayload::Unknown,
                ArithmeticAnalysisPayload::Unknown);
            let added = spec_make(MixLang::Fluid(i, j), c, v);
            &&& added == d
            &&& c == ArithmeticAnalysisPayload::Number(f.concentration)
            &&& v == ArithmeticAnalysisPayload::Number(f.unit_volume)
        }),
{
}

/// Halving volume `w` keeps its exact value and leaves a positive volume.
pub open spec fn spec_volume_valid(w: int) -> bool {
    let half = q_div(w, 2 * SCALE);
    2 * half == w && half > 0
}

/// Side condition of the rule that splits a fluid into two halves.
pub fn volume_valid(vol: &ArithmeticAnalysisPayload) -> (r: bool)
    ensures
        r == match *vol {
            ArithmeticAnalysisPayload::Number(v) => spec_volume_valid(v.wrapped as int),
            _ => false,
        },
{
    match vol {
        ArithmeticAnalysisPayload::Number(v) => {
            let two = LimitedFloat::new(2 * SCALE);
            let half = *v / two;
            half.wrapped > 0 && half.wrapped as i128 * 2 == v.wrapped as i128
        },
        _ => false,
    }
}

/// Both concentrations stay valid when `step` is added to the first and taken
/// from the second.
pub open spec fn spec_concentration_valid(a: int, b: int, step: int) -> bool {
    spec_valid(q_add(a, step)) && spec_valid(q_sub(b, step))
}

/// Side condition of the rules that move two mixed concentrations apart.
pub fn concentration_valid(
    conc_a: &ArithmeticAnalysisPayload,
    conc_b: &ArithmeticAnalysisPayload,
    step: LimitedFloat,
) -> (r: bool)
    ensures
        r == match (*conc_a, *conc_b) {
            (ArithmeticAnalysisPayload::Number(a), ArithmeticAnalysisPayload::Number(b)) =>
                spec_concentration_valid(a.wrapped as int, b.wrapped as int, step.wrapped as int),
            _ => false,
        },
{
    match (conc_a, conc_b) {
        (ArithmeticAnalysisPayload::Number(a), ArithmeticAnalysisPayload::Number(b)) => {
            (*a + step).valid() && (*b - step).valid()
        },
        _ => false,
    }
}

/// Side condition of the rule that compresses two dilutions: volume `a` is
/// exactly `multiple` times volume `b`.
pub fn volume_multiple(
    vol_a: &ArithmeticAnalysisPayload,
    vol_b: &ArithmeticAnalysisPayload,
    multiple: LimitedFloat,
) -> (r: bool)
    ensures
        r == match (*vol_a, *vol_b) {
            (ArithmeticAnalysisPayload::Number(a), ArithmeticAnalysisPayload::Number(b)) =>
                a.wrapped as int * SCALE == multiple.wrapped as int * b.wrapped as int,
            _ => false,
        },
{
    match (vol_a, vol_b) {
        (ArithmeticAnalysisPayload::Number(a), ArithmeticAnalysisPayload::Number(b)) => {
            let lhs = a.wrapped as i128 * SCALE as i128;
            assert(-0x4000_0000_0000_0000_0000_0000_0000_0000 <= multiple.wrapped as i128
                * b.wrapped as i128 <= 0x4000_0000_0000_0000_0000_0000_0000_0000)
                by (nonlinear_arith)
                requires
                    i64::MIN <= multiple.wrapped <= i64::MAX,
                    i64::MIN <= b.wrapped <= i64::MAX,
            ;
            let rhs = multiple.wrapped as i128 * b.wrapped as i128;
            lhs == rhs
        },
        _ => false,
    }
}

/// Step by which the fine rule moves two mixed concentrations apart: 0.01.
pub const SMALL_STEP: i64 = 100;

/// Step by which the coarse rule moves two mixed concentrations apart: 0.1.
pub const LARGE_STEP: i64 = 1000;

/// Ratio of volumes under which two dilutions with a zero-concentration filler
/// compress into one: one half.
pub const COMPRESS_RATIO: i64 = 5000;

/// Volume of the target when saturation starts: large, and halvable many times.
pub const INITIAL_VOLUME: i64 = 4_294_967_296;

/// The term saturation starts from: the target fluid at the initial volume,
/// children first and root last.
pub fn target_term(target: LimitedFloat) -> (r: Vec<MixLang>)
    ensures
        r@ == seq![
            MixLang::Number(target),
            MixLang::Number(LimitedFloat { wrapped: INITIAL_VOLUME }),
            MixLang::Fluid(0, 1),
        ],
        crate::normalize::wf_term(r@),
{
    let mut term: Vec<MixLang> = Vec::new();
    term.push(MixLang::Number(target));
    term.push(MixLang::Number(LimitedFloat::new(INITIAL_VOLUME)));
    term.push(MixLang::Fluid(0, 1));
    term
}

/// Cost of an arithmetic node: heavy, so that extraction shows mixes and fluids.
pub const ARITH_COST: u64 = 1_000_000;

/// Cost of a mix.
pub const MIX_COST: u64 = 10_000;

/// Cost of a fluid whose children are not both numbers.
pub const OPAQUE_FLUID_COST: u64 = 10_000_000;

/// Cost that forbids a node.
pub const FORBIDDEN_COST: u64 = u64::MAX;

pub open spec fn abs_diff(a: int, b: int) -> int {
    if a >= b {
        a - b
    } else {
        b - a
    }
}

/// Distance, in steps, from `c` to the nearest stock concentration, capped at
/// one whole unit.
pub open spec fn proximity(c: int, stock: Seq<LimitedFloat>) -> int
    decreases stock.len(),
{
    if stock.len() == 0 {
        SCALE as int
    } else {
        let rest = proximity(c, stock.drop_last());
        let d = abs_diff(c, stock.last().wrapped as int);
        if d < rest {
            d
        } else {
            rest
        }
    }
}

/// Cost of one e-node, its children apart, for extracting a mix of `target`
/// from `stock`. `conc` and `vol` are the data of the children of a fluid node.
/// Costs are counted in steps: a mix costs one whole unit, an arithmetic node a
/// hundred, a stock fluid nothing, the target fluid (when not in stock) is
/// forbidden, and any other fluid costs its distance to the stock.
pub open spec fn spec_base_cost(
    node: MixLang,
    conc: ArithmeticAnalysisPayload,
    vol: ArithmeticAnalysisPayload,
    target: LimitedFloat,
    stock: Seq<LimitedFloat>,
) -> int {
    match node {
        MixLang::Number(_) => 0,
        MixLang::Mix(_, _) => MIX_COST as int,
        MixLang::Fluid(_, _) => match (conc, vol) {
            (ArithmeticAnalysisPayload::Number(c), ArithmeticAnalysisPayload::Number(_)) => {
                if stock.contains(c) {
                    0
                } else if c == target {
                    FORBIDDEN_COST as int
                } else {
                    proximity(c.wrapped as int, stock)
                }
            },
            _ => OPAQUE_FLUID_COST as int,
        },
        _ => ARITH_COST as int,
    }
}

/// Distance from `c` to the nearest stock concentration, capped at one unit.
pub fn proximity_cost(c: LimitedFloat, stock: &Vec<LimitedFloat>) -> (r: u64)
    ensures
        r as int == proximity(c.wrapped as int, stock@),
        r <= SCALE,
{
    let mut min: u64 = SCALE as u64;
    let mut i: usize = 0;
    while i < stock.len()
        invariant
            i <= stock@.len(),
            min as int == proximity(c.wrapped as int, stock@.subrange(0, i as int)),
            min <= SCALE,
        decreases stock@.len() - i,
    {
        let s = stock[i];
        let diff: i128 = c.wrapped as i128 - s.wrapped as i128;
        let d: i128 = if diff >= 0 { diff } else { -diff };
        proof {
            let sub = stock@.subrange(0, i as int + 1);
            assert(sub.drop_last() =~= stock@.subrange(0, i as int));
            assert(sub.last() == s);
        }
        if d < min as i128 {
            min = d as u64;
        }
        i = i + 1;
    }
    assert(stock@.subrange(0, stock@.len() as int) =~= stock@);
    min
}

/// Cost of one e-node, its children apart.
pub fn enode_base_cost(
    node: &MixLang,
    conc: &ArithmeticAnalysisPayload,
    vol: &ArithmeticAnalysisPayload,
    target: LimitedFloat,
    stock: &Vec<LimitedFloat>,
) -> (r: u64)
    ensures
        r as int == spec_base_cost(*node, *conc, *vol, target, stock@),
{
    match node {
        MixLang::Number(_) => 0,
        MixLang::Mix(_, _) => MIX_COST,
        MixLang::Fluid(_, _) => match (conc, vol) {
            (ArithmeticAnalysisPayload::Number(c), ArithmeticAnalysisPayload::Number(_)) => {
                if stock_contains(stock, *c) {
                    0
                } else if *c == target {
                    FORBIDDEN_COST
                } else {
                    proximity_cost(*c, stock)
                }
            },
            _ => OPAQUE_FLUID_COST,
        },
        _ => ARITH_COST,
    }
}

/// Whether `c` is one of the stock concentrations.
pub fn stock_contains(stock: &Vec<LimitedFloat>, c: LimitedFloat) -> (r: bool)
    ensures
        r == stock@.contains(c),
{
    let mut i: usize = 0;
    while i < stock.len()
        invariant
            i <= stock@.len(),
            forall|t: int| 0 <= t < i ==> stock@[t] != c,
        decreases stock@.len() - i,
    {
        if stock[i] == c {
            return true;
        }
        i = i + 1;
    }
    false
}

/// Adds the cost of a child to a running total; a forbidden cost stays forbidden.
pub fn cost_sum(total: u64, child: u64) -> (r: u64)
    ensures
        r as int == if total as int + child as int > u64::MAX { u64::MAX as int } else {
            total as int + child as int
        },
{
    total.saturating_add(child)
}

/// A node costs nothing exactly when it is a bare number or a fluid drawn from
/// the stock; so an extracted tree of cost zero is a single stock fluid.
pub proof fn lemma_zero_cost_is_stock_leaf(
    node: MixLang,
    conc: ArithmeticAnalysisPayload,
    vol: ArithmeticAnalysisPayload,
    target: LimitedFloat,
    stock: Seq<LimitedFloat>,
)
    ensures
        spec_base_cost(node, conc, vol, target, stock) == 0 <==> (node is Number || (
        node is Fluid && conc is Number && vol is Number && stock.contains(conc->Number_0))),
{
    match node {
        MixLang::Fluid(_, _) => match (conc, vol) {
            (ArithmeticAnalysisPayload::Number(c), ArithmeticAnalysisPayload::Number(_)) => {
                if !stock.contains(c) && c != target {
                    lemma_proximity_positive(c.wrapped as int, stock);
                }
            },
            _ => {},
        },
        _ => {},
    }
}

/// The distance to a stock that does not hold `c` is positive.
pub proof fn lemma_proximity_positive(c: int, stock: Seq<LimitedFloat>)
    requires
        forall|t: int| 0 <= t < stock.len() ==> stock[t].wrapped != c,
    ensures
        proximity(c, stock) > 0,
    decreases stock.len(),
{
    if stock.len() > 0 {
        lemma_proximity_positive(c, stock.drop_last());
    }
}

/// The target, when not in stock, is never an acceptable leaf: its fluid node is
/// forbidden, and any total that includes it stays forbidden.
pub proof fn lemma_target_leaf_forbidden(
    node: MixLang,
    conc: ArithmeticAnalysisPayload,
    vol: ArithmeticAnalysisPayload,
    target: LimitedFloat,
    stock: Seq<LimitedFloat>,
    other: int,
)
    requires
        node is Fluid,
        conc == ArithmeticAnalysisPayload::Number(target),
        vol is Number,
        !stock.contains(target),
        0 <= other,
    ensures
        spec_base_cost(node, conc, vol, target, stock) == u64::MAX,
        (if spec_base_cost(node, conc, vol, target, stock) + other > u64::MAX {
            u64::MAX as int
        } else {
            spec_base_cost(node, conc, vol, target, stock) + other
        }) == u64::MAX,
{
}

} // verus!
