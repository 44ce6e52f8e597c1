//! Configuration, and the pipeline from an extracted term to a mixer design:
//! normalize, read back, lower, analyze liveness, color the interference graph.
use vstd::prelude::*;
use vstd::string::StringExecFns;
use crate::analysis::MixLang;
use crate::error::{FluidoError, InterefenceGraphGenerationError, MixerGenerationError};
use crate::expr::{expr_at, expr_from_text, expr_size, is_mixer_tree, Expr};
use crate::interference::{
    adjacent, colorable, is_clique, is_min_color_count, lemma_register_count, max_plus_one,
    pair_total, proper_coloring, register_count, InterferenceGraph, InterferenceGraphBuilder,
};
use crate::ir::{lower, wf_ir, IRBuilder, IROp};
use crate::liveness::{lemma_live_out_bounded, lists_set, live_out, AnalysisPassKind, IRPassManager};
use crate::normalize::{normalize_expr_by_min_volume, normalized_text, wf_term};

verus! {

/// Settings for the logging of each stage.
#[derive(Debug, Clone, Copy)]
pub struct LogConfig {
    pub show_mixer_graph: bool,
    pub show_ir: bool,
    pub show_liveness: bool,
    pub show_interference_graph: bool,
}

impl LogConfig {
    pub fn new(
        show_mixer_graph: bool,
        show_ir: bool,
        show_liveness: bool,
        show_interference_graph: bool,
    ) -> (r: Self)
        ensures
            r.show_mixer_graph == show_mixer_graph,
            r.show_ir == show_ir,
            r.show_liveness == show_liveness,
            r.show_interference_graph == show_interference_graph,
    {
        Self { show_mixer_graph, show_ir, show_liveness, show_interference_graph }
    }

    /// Logs nothing.
    pub fn silent() -> (r: Self)
        ensures
            !r.show_mixer_graph && !r.show_ir && !r.show_liveness && !r.show_interference_graph,
    {
        Self::new(false, false, false, false)
    }
}

/// How a mixer is generated.
#[derive(Debug, Clone, Copy, PartialEq, Eq, Structural)]
pub enum MixerGenerator {
    EqualitySaturation,
}

/// Settings of the mixer generation.
#[derive(Debug, Clone, Copy)]
pub struct MixerGenerationConfig {
    /// Wall-clock budget of the saturation, in seconds.
    pub time_limit: u64,
    pub generator: MixerGenerator,
}

impl MixerGenerationConfig {
    pub fn new(time_limit: u64, generator: MixerGenerator) -> (r: Self)
        ensures
            r.time_limit == time_limit,
            r.generator == generator,
    {
        Self { time_limit, generator }
    }
}

/// General configuration: mixer generation and logging.
#[derive(Debug, Clone, Copy)]
pub struct Config {
    pub generation: MixerGenerationConfig,
    pub logging: LogConfig,
}

impl Config {
    pub fn new(generation: MixerGenerationConfig, logging: LogConfig) -> (r: Self)
        ensures
            r.generation == generation,
            r.logging == logging,
    {
        Self { generation, logging }
    }
}

/// A mixer for a target concentration: its normalized text, its extraction
/// cost (in steps of one ten-thousandth) and the storage cells it needs.
#[derive(Debug)]
pub struct MixerDesign {
    pub mixer_expr: String,
    pub cost: u64,
    pub storage_units_needed: u64,
}

impl MixerDesign {
    pub fn mixer_expr(&self) -> (r: &str)
        ensures
            r@ == self.mixer_expr@,
    {
        self.mixer_expr.as_str()
    }

    pub fn cost(&self) -> (r: u64)
        ensures
            r == self.cost,
    {
        self.cost
    }

    pub fn storage_units_needed(&self) -> (r: u64)
        ensures
            r == self.storage_units_needed,
    {
        self.storage_units_needed
    }
}

/// Whatever the text, an expression read from it is a mixer tree.
pub proof fn lemma_read_is_mixer_tree(s: Seq<char>, i: int, fuel: nat)
    requires
        expr_at(s, i, fuel) is Some,
    ensures
        is_mixer_tree(expr_at(s, i, fuel).unwrap().0),
    decreases fuel,
{
    let j = crate::text::space_run(s, i + 1);
    let e = crate::text::atom_end(s, j);
    if s.subrange(j, e) == crate::expr::mix_word() && s.subrange(j, e) != seq!['f', 'l', 'u', 'i', 'd'] {
        let k = crate::text::space_run(s, e);
        lemma_read_is_mixer_tree(s, k, (fuel - 1) as nat);
        let p = expr_at(s, k, (fuel - 1) as nat).unwrap().1;
        lemma_read_is_mixer_tree(s, crate::text::space_run(s, p), (fuel - 1) as nat);
    }
}

/// Registers `a` and `b` are live together after some operation.
pub open spec fn interfere(ops: Seq<IROp>, a: usize, b: usize) -> bool {
    a != b && exists|i: int|
        0 <= i < ops.len() && #[trigger] live_out(ops, i).contains(a) && live_out(ops, i).contains(b)
}

/// `cells` gives each register of `ops` one of `k` storage cells, and any two
/// registers that interfere different cells.
pub open spec fn cell_assignment(ops: Seq<IROp>, cells: Seq<u64>, k: nat) -> bool {
    &&& cells.len() == ops.len()
    &&& forall|v: int| 0 <= v < ops.len() ==> cells[v] < k
    &&& forall|a: usize, b: usize|
        a < ops.len() && b < ops.len() && #[trigger] interfere(ops, a, b) ==> cells[a as int]
            != cells[b as int]
}

pub open spec fn fits_cells(ops: Seq<IROp>, k: nat) -> bool {
    exists|cells: Seq<u64>| cell_assignment(ops, cells, k)
}

/// `k` is the fewest storage cells (at least one) that run `ops`.
pub open spec fn min_storage(ops: Seq<IROp>, k: nat) -> bool {
    &&& k >= 1
    &&& fits_cells(ops, k)
    &&& forall|j: nat| 1 <= j < k ==> !fits_cells(ops, j)
}

proof fn lemma_max_plus_one_upper(s: Seq<usize>, bound: nat)
    requires
        forall|i: int| 0 <= i < s.len() ==> s[i] < bound,
    ensures
        max_plus_one(s) <= bound,
    decreases s.len(),
{
    if s.len() > 0 {
        lemma_max_plus_one_upper(s.drop_last(), bound);
    }
}

proof fn lemma_register_count_upper(sets: Seq<Vec<usize>>, bound: nat)
    requires
        sets.len() <= bound,
        forall|t: int, i: int| 0 <= t < sets.len() && 0 <= i < sets[t]@.len() ==> #[trigger] sets[t]@[i] < bound,
    ensures
        register_count(sets) <= bound,
    decreases sets.len(),
{
    if sets.len() > 0 {
        let last = sets.len() - 1;
        assert forall|t: int, i: int|
            0 <= t < sets.drop_last().len() && 0 <= i < sets.drop_last()[t]@.len() implies #[trigger] sets.drop_last()[t]@[i]
                < bound by {
            assert(sets.drop_last()[t] == sets[t]);
        }
        lemma_register_count_upper(sets.drop_last(), bound);
        assert forall|i: int| 0 <= i < sets[last]@.len() implies sets[last]@[i] < bound by {
            assert(sets[last]@[i] < bound);
        }
        lemma_max_plus_one_upper(sets.last()@, bound);
    }
}

/// The interference graph of the live sets of `ops` has one node per
/// operation, and its colorings are exactly the storage cell assignments of
/// `ops`; so its chromatic number is the fewest storage cells.
pub proof fn lemma_graph_storage(ops: Seq<IROp>, sets: Seq<Vec<usize>>, g: InterferenceGraph, k: nat)
    requires
        wf_ir(ops),
        sets.len() == ops.len(),
        forall|i: int| 0 <= i < ops.len() ==> lists_set(#[trigger] sets[i]@, live_out(ops, i)),
        g.wf(),
        g.nodes().len() == register_count(sets),
        forall|i: int|
            0 <= i < g.edges().len() ==> exists|t: int|
                0 <= t < sets.len() && sets[t]@.contains((#[trigger] g.edges()[i]).0)
                    && sets[t]@.contains(g.edges()[i].1),
        forall|t: int, a: int, b: int|
            0 <= t < sets.len() && 0 <= a < sets[t]@.len() && 0 <= b < sets[t]@.len() && sets[t]@[a]
                != sets[t]@[b] ==> adjacent(g.edges(), #[trigger] sets[t]@[a], #[trigger] sets[t]@[b]),
        is_min_color_count(g.edges(), g.nodes().len(), k),
    ensures
        g.nodes().len() == ops.len(),
        min_storage(ops, k),
{
    let n = ops.len();
    let edges = g.edges();
    assert forall|t: int, i: int| 0 <= t < sets.len() && 0 <= i < sets[t]@.len() implies #[trigger] sets[t]@[i]
        < n by {
        assert(sets[t]@.contains(sets[t]@[i]));
        assert(lists_set(sets[t]@, live_out(ops, t)));
        lemma_live_out_bounded(ops, t);
    }
    lemma_register_count(sets);
    lemma_register_count_upper(sets, n);
    assert forall|c: Seq<u64>, j: nat| proper_coloring(edges, n, c, j) <==> #[trigger] cell_assignment(ops, c, j) by {
        if proper_coloring(edges, n, c, j) {
            assert forall|a: usize, b: usize| a < n && b < n && #[trigger] interfere(ops, a, b) implies c[a as int]
                != c[b as int] by {
                let i = choose|i: int|
                    0 <= i < ops.len() && #[trigger] live_out(ops, i).contains(a) && live_out(ops, i).contains(b);
                assert(lists_set(sets[i]@, live_out(ops, i)));
                assert(sets[i]@.contains(a));
                assert(sets[i]@.contains(b));
                let x = choose|x: int| 0 <= x < sets[i]@.len() && sets[i]@[x] == a;
                let y = choose|y: int| 0 <= y < sets[i]@.len() && sets[i]@[y] == b;
                assert(adjacent(edges, sets[i]@[x], sets[i]@[y]));
                let e = choose|e: int| 0 <= e < edges.len() && (edges[e] == (a, b) || edges[e] == (b, a));
                assert(c[edges[e].0 as int] != c[edges[e].1 as int]);
            }
        }
        if cell_assignment(ops, c, j) {
            assert forall|e: int| 0 <= e < edges.len() implies c[(#[trigger] edges[e]).0 as int]
                != c[edges[e].1 as int] by {
                let t = choose|t: int|
                    0 <= t < sets.len() && sets[t]@.contains(edges[e].0) && sets[t]@.contains(edges[e].1);
                assert(lists_set(sets[t]@, live_out(ops, t)));
                assert(live_out(ops, t).contains(edges[e].0));
                assert(interfere(ops, edges[e].0, edges[e].1));
            }
        }
    }
    assert forall|j: nat| colorable(edges, n, j) <==> fits_cells(ops, j) by {
        if colorable(edges, n, j) {
            let c = choose|c: Seq<u64>| proper_coloring(edges, n, c, j);
            assert(cell_assignment(ops, c, j));
        }
        if fits_cells(ops, j) {
            let c = choose|c: Seq<u64>| cell_assignment(ops, c, j);
            assert(proper_coloring(edges, n, c, j));
        }
    }
}

/// Size of an expression, or `usize::MAX` when it does not fit.
pub fn tree_size(e: &Expr) -> (r: usize)
    ensures
        r == if expr_size(*e) < usize::MAX { expr_size(*e) } else { usize::MAX as nat },
    decreases e,
{
    match e {
        Expr::Mix(a, b) => {
            let sa = tree_size(a);
            let sb = tree_size(b);
            if sa < usize::MAX && sb < usize::MAX - sa && sa + sb < usize::MAX - 1 {
                sa + sb + 1
            } else {
                usize::MAX
            }
        },
        _ => 1,
    }
}

/// Reads back the normalized text of an extracted term.
pub fn generate_graph(text: &str) -> (r: Result<Expr, MixerGenerationError>)
    ensures
        r is Ok <==> expr_from_text(text@) is Some,
        r is Ok ==> r->Ok_0 == expr_from_text(text@)->0 && is_mixer_tree(r->Ok_0),
        r is Err ==> r->Err_0 is SaturationError,
{
    match Expr::parse(text) {
        Ok(e) => {
            proof {
                let s = text@;
                lemma_read_is_mixer_tree(s, crate::text::space_run(s, 0), s.len());
            }
            Ok(e)
        },
        Err(crate::error::IRGenerationError::ParseError(msg)) => Err(
            MixerGenerationError::SaturationError(msg),
        ),
    }
}

/// The live sets of the operations, through a pass manager.
pub fn generate_liveness(ir_ops: &Vec<IROp>) -> (r: Result<Vec<Vec<usize>>, InterefenceGraphGenerationError>)
    requires
        crate::ir::wf_ir(ir_ops@),
    ensures
        r is Ok,
        r is Ok ==> r->Ok_0@.len() == ir_ops@.len() && forall|i: int|
            0 <= i < ir_ops@.len() ==> lists_set(#[trigger] r->Ok_0@[i]@, live_out(ir_ops@, i)),
{
    let mut manager = IRPassManager::new(ir_ops.clone(), Vec::new());
    assert(manager.ir_to_pass_over@ == ir_ops@);
    manager.register_analysis_pass(AnalysisPassKind::Liveness);
    let mut results = manager.apply_analysis_passes();
    let mut k: usize = 0;
    while k < results.len()
        invariant
            k <= results@.len(),
            forall|j: int|
                0 <= j < results@.len() ==> (#[trigger] results@[j]).0 == manager.analysis_passes@[j]
                    && (results@[j].1.sets_per_ir@.len() == ir_ops@.len() && forall|i: int|
                    0 <= i < results@[j].1.sets_per_ir@.len() ==> lists_set(
                        #[trigger] results@[j].1.sets_per_ir@[i]@,
                        live_out(ir_ops@, i),
                    )),
            results@.len() == 1,
            manager.analysis_passes@[0] == AnalysisPassKind::Liveness,
            forall|j: int| 0 <= j < k ==> (#[trigger] results@[j]).0 != AnalysisPassKind::Liveness,
        decreases results@.len() - k,
    {
        if results[k].0 == AnalysisPassKind::Liveness {
            let (_, found) = results.remove(k);
            return Ok(found.sets_per_ir);
        }
        k = k + 1;
    }
    assert(results@[0].0 == manager.analysis_passes@[0]);
    Err(InterefenceGraphGenerationError::MissingLivenessAnalysis)
}

/// At most a thousand sets of at most a thousand registers, each below a thousand.
pub open spec fn small_sets(sets: Seq<Vec<usize>>) -> bool {
    &&& sets.len() <= 1000
    &&& forall|t: int| 0 <= t < sets.len() ==> (#[trigger] sets[t])@.len() <= 1000
    &&& forall|t: int, i: int| 0 <= t < sets.len() && 0 <= i < sets[t]@.len() ==> #[trigger] sets[t]@[i] < 1000
}

/// A strictly increasing list of values below `n` has at most `n` elements.
proof fn lemma_increasing_len(v: Seq<usize>, n: nat)
    requires
        forall|a: int, b: int| 0 <= a < b < v.len() ==> v[a] < v[b],
        forall|a: int| 0 <= a < v.len() ==> v[a] < n,
    ensures
        v.len() <= n,
{
    assert forall|a: int| 0 <= a < v.len() implies v[a] >= a by {
        lemma_increasing_from(v, a);
    }
    if v.len() > 0 {
        assert(v[v.len() - 1] >= v.len() - 1);
    }
}

proof fn lemma_increasing_from(v: Seq<usize>, a: int)
    requires
        forall|x: int, y: int| 0 <= x < y < v.len() ==> v[x] < v[y],
        0 <= a < v.len(),
    ensures
        v[a] >= a,
    decreases a,
{
    if a > 0 {
        lemma_increasing_from(v, a - 1);
    }
}

/// Whether the live sets fit the index range of the interference graph.
fn fits_graph(sets: &Vec<Vec<usize>>) -> (r: bool)
    ensures
        r ==> register_count(sets@) < u32::MAX && pair_total(sets@) < u32::MAX,
        small_sets(sets@) ==> r,
{
    let limit: u64 = 0xffff_fffe;
    let mut count: u64 = 0;
    let mut pairs: u64 = 0;
    let mut t: usize = 0;
    while t < sets.len()
        invariant
            limit == 0xffff_fffe,
            t <= sets@.len(),
            count == register_count(sets@.subrange(0, t as int)),
            pairs == pair_total(sets@.subrange(0, t as int)),
            count <= limit,
            pairs <= limit,
            small_sets(sets@) ==> pairs <= t * 1_000_000,
        decreases sets@.len() - t,
    {
        let set = &sets[t];
        proof {
            if small_sets(sets@) {
                assert(sets@[t as int]@.len() <= 1000);
                assert forall|j: int| 0 <= j < set@.len() implies set@[j] < 1000 by {
                    assert(sets@[t as int]@[j] < 1000);
                }
            }
        }
        if set.len() >= 0x1_0000 {
            return false;
        }
        let mut here: u64 = 0;
        let mut i: usize = 0;
        while i < set.len()
            invariant
                i <= set@.len(),
                here == crate::interference::max_plus_one(set@.subrange(0, i as int)),
                here <= limit,
                limit == 0xffff_fffe,
                set@ == sets@[t as int]@,
                t < sets@.len(),
                small_sets(sets@) ==> set@.len() <= 1000 && forall|j: int|
                    0 <= j < set@.len() ==> set@[j] < 1000,
            decreases set@.len() - i,
        {
            proof {
                assert(set@.subrange(0, i + 1).drop_last() =~= set@.subrange(0, i as int));
                if small_sets(sets@) {
                    assert(set@[i as int] < 1000);
                }
            }
            if set[i] as u64 >= limit {
                return false;
            }
            if set[i] as u64 + 1 > here {
                here = set[i] as u64 + 1;
            }
            i = i + 1;
        }
        assert(set@.subrange(0, set@.len() as int) =~= set@);
        proof {
            assert(sets@.subrange(0, t + 1).drop_last() =~= sets@.subrange(0, t as int));
            assert(sets@.subrange(0, t + 1).last() == sets@[t as int]);
        }
        let sl = set.len() as u64;
        assert(sl * sl <= 0x1_0000_0000) by (nonlinear_arith)
            requires sl < 0x1_0000;
        let sq = sl * sl;
        proof {
            if small_sets(sets@) {
                assert(sl <= 1000);
                assert(sq <= 1_000_000) by (nonlinear_arith)
                    requires sq == sl * sl, sl <= 1000;
                assert(t < 1000);
                assert(pairs + sq <= (t + 1) * 1_000_000) by (nonlinear_arith)
                    requires pairs <= t * 1_000_000, sq <= 1_000_000;
                assert((t + 1) * 1_000_000 <= 1_000_000_000) by (nonlinear_arith)
                    requires t < 1000;
            }
        }
        if pairs + sq > limit || t as u64 + 1 > limit {
            return false;
        }
        pairs = pairs + sq;
        let len = t as u64 + 1;
        if count < len {
            count = len;
        }
        if here > count {
            count = here;
        }
        t = t + 1;
    }
    assert(sets@.subrange(0, sets@.len() as int) =~= sets@);
    true
}

/// The interference graph of the live sets.
pub fn generate_interference_graph(sets: &Vec<Vec<usize>>) -> (r: Result<
    InterferenceGraph,
    InterefenceGraphGenerationError,
>)
    ensures
        r is Ok ==> r->Ok_0.wf() && r->Ok_0.nodes().len() == register_count(sets@),
        r is Ok ==> forall|i: int|
            0 <= i < r->Ok_0.edges().len() ==> exists|t: int|
                0 <= t < sets@.len() && sets@[t]@.contains((#[trigger] r->Ok_0.edges()[i]).0)
                    && sets@[t]@.contains(r->Ok_0.edges()[i].1),
        r is Ok ==> forall|t: int, a: int, b: int|
            0 <= t < sets@.len() && 0 <= a < sets@[t]@.len() && 0 <= b < sets@[t]@.len()
                && sets@[t]@[a] != sets@[t]@[b] ==> adjacent(
                r->Ok_0.edges(),
                #[trigger] sets@[t]@[a],
                #[trigger] sets@[t]@[b],
            ),
        r is Err ==> r->Err_0 is TooManyRegisters,
        small_sets(sets@) ==> r is Ok,
{
    if !fits_graph(sets) {
        return Err(InterefenceGraphGenerationError::TooManyRegisters);
    }
    let builder = InterferenceGraphBuilder::new(sets.as_slice());
    Ok(builder.build())
}

/// The design from an extracted term (its root last) and its cost: the
/// normalized text, read back into a mixer tree, lowered, and the storage it
/// needs, which is the chromatic number of its interference graph.
pub fn design_from_extraction(best_expr: &Vec<MixLang>, cost: u64) -> (r: Result<
    MixerDesign,
    FluidoError,
>)
    requires
        best_expr@.len() > 0,
        wf_term(best_expr@),
    ensures
        r is Ok ==> r->Ok_0.mixer_expr@ == normalized_text(best_expr@) && r->Ok_0.cost == cost
            && expr_from_text(normalized_text(best_expr@)) is Some,
        r is Ok ==> min_storage(
            lower(expr_from_text(normalized_text(best_expr@))->0, 0),
            r->Ok_0.storage_units_needed as nat,
        ),
        expr_from_text(normalized_text(best_expr@)) is None ==> r is Err,
        expr_from_text(normalized_text(best_expr@)) is Some && expr_size(
            expr_from_text(normalized_text(best_expr@))->0,
        ) <= 1000 ==> r is Ok,
{
    let text = normalize_expr_by_min_volume(best_expr);
    let expr = match generate_graph(text.as_str()) {
        Ok(e) => e,
        Err(e) => {
            return Err(FluidoError::MixerGenerationError(e));
        },
    };
    if tree_size(&expr) >= usize::MAX {
        return Err(FluidoError::MixerGenerationError(MixerGenerationError::SaturationError(
            too_large(),
        )));
    }
    let mut builder = IRBuilder::new();
    let ir_ops = builder.build_ir(&expr);
    let sets = match generate_liveness(&ir_ops) {
        Ok(s) => s,
        Err(e) => {
            return Err(FluidoError::InterferenceGraphGenerationError(e));
        },
    };
    proof {
        let ops = ir_ops@;
        crate::ir::lemma_lower_len(expr, 0);
        if ops.len() <= 1000 {
            assert forall|t: int, i: int| 0 <= t < sets@.len() && 0 <= i < sets@[t]@.len() implies #[trigger] sets@[t]@[i]
                < 1000 by {
                assert(sets@[t]@.contains(sets@[t]@[i]));
                assert(lists_set(sets@[t]@, live_out(ops, t)));
                lemma_live_out_bounded(ops, t);
            }
            assert forall|t: int| 0 <= t < sets@.len() implies (#[trigger] sets@[t])@.len() <= 1000 by {
                assert(lists_set(sets@[t]@, live_out(ops, t)));
                lemma_increasing_len(sets@[t]@, 1000);
            }
            assert(small_sets(sets@));
        }
    }
    let graph = match generate_interference_graph(&sets) {
        Ok(g) => g,
        Err(e) => {
            return Err(FluidoError::InterferenceGraphGenerationError(e));
        },
    };
    let clique = largest_set(&sets);
    proof {
        let ops = ir_ops@;
        assert forall|t: int, i: int| 0 <= t < sets@.len() && 0 <= i < sets@[t]@.len() implies #[trigger] sets@[t]@[i]
            < ops.len() by {
            assert(sets@[t]@.contains(sets@[t]@[i]));
            assert(lists_set(sets@[t]@, live_out(ops, t)));
            lemma_live_out_bounded(ops, t);
        }
        lemma_register_count(sets@);
        lemma_register_count_upper(sets@, ops.len());
        if sets@.len() > 0 {
            let t = choose|t: int| 0 <= t < sets@.len() && clique@ == sets@[t]@;
            assert(lists_set(sets@[t]@, live_out(ops, t)));
            assert forall|a: int, b: int| 0 <= a < b < clique@.len() implies adjacent(
                graph.edges(),
                #[trigger] clique@[a],
                #[trigger] clique@[b],
            ) by {
                assert(sets@[t]@[a] != sets@[t]@[b]);
            }
            assert forall|a: int| 0 <= a < clique@.len() implies clique@[a] < graph.nodes().len() by {
                assert(sets@[t]@[a] < ops.len());
            }
        }
    }
    let storage = graph.find_min_color_count_above(&clique);
    proof {
        lemma_graph_storage(ir_ops@, sets@, graph, storage as nat);
    }
    Ok(MixerDesign { mixer_expr: text, cost, storage_units_needed: storage })
}

/// A copy of the longest of the sets (empty when there are none).
fn largest_set(sets: &Vec<Vec<usize>>) -> (r: Vec<usize>)
    ensures
        sets@.len() == 0 ==> r@.len() == 0,
        sets@.len() > 0 ==> exists|t: int| 0 <= t < sets@.len() && r@ == sets@[t]@,
        forall|t: int| 0 <= t < sets@.len() ==> sets@[t]@.len() <= r@.len(),
{
    if sets.len() == 0 {
        return Vec::new();
    }
    let mut best: usize = 0;
    let mut t: usize = 1;
    while t < sets.len()
        invariant
            best < sets@.len(),
            1 <= t <= sets@.len(),
            forall|u: int| 0 <= u < t ==> sets@[u]@.len() <= sets@[best as int]@.len(),
        decreases sets@.len() - t,
    {
        if sets[t].len() > sets[best].len() {
            best = t;
        }
        t = t + 1;
    }
    let chosen = &sets[best];
    let mut copy: Vec<usize> = Vec::new();
    let mut i: usize = 0;
    while i < chosen.len()
        invariant
            i <= chosen@.len(),
            copy@ == chosen@.subrange(0, i as int),
        decreases chosen@.len() - i,
    {
        copy.push(chosen[i]);
        i = i + 1;
        assert(copy@ =~= chosen@.subrange(0, i as int));
    }
    assert(copy@ =~= chosen@);
    copy
}

fn too_large() -> String {
    String::from_str("the extracted mixer is too large")
}

} // verus!
