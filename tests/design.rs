use fluido::analysis::MixLang;
use fluido::design::{
    design_from_extraction, Config, LogConfig, MixerGenerationConfig, MixerGenerator,
};
use fluido::expr::Expr;
use fluido::normalize::normalize_expr_by_min_volume;
use fluido::number::LimitedFloat;

fn q(w: i64) -> LimitedFloat {
    LimitedFloat::new(w)
}

/// `(mix (fluid c1 v1) (fluid c2 v2))` as a term whose root is last.
fn two_leaf_mix(c1: i64, v1: i64, c2: i64, v2: i64) -> Vec<MixLang> {
    vec![
        MixLang::Number(q(c1)),
        MixLang::Number(q(v1)),
        MixLang::Fluid(0, 1),
        MixLang::Number(q(c2)),
        MixLang::Number(q(v2)),
        MixLang::Fluid(3, 4),
        MixLang::Mix(2, 5),
    ]
}

#[test]
fn config_constructors() {
    let generation = MixerGenerationConfig::new(30, MixerGenerator::EqualitySaturation);
    let logging = LogConfig::new(true, false, true, false);
    let config = Config::new(generation, logging);
    assert_eq!(config.generation.time_limit, 30);
    assert!(config.logging.show_mixer_graph && config.logging.show_liveness);
    assert!(!config.logging.show_ir && !config.logging.show_interference_graph);
    let silent = LogConfig::silent();
    assert!(!silent.show_mixer_graph && !silent.show_ir);
}

#[test]
fn normalization_divides_by_smallest_volume() {
    let term = two_leaf_mix(1000, 5000, 2000, 10000);
    assert_eq!(
        normalize_expr_by_min_volume(&term),
        "(mix (fluid 0.1 1.0) (fluid 0.2 2.0))"
    );
    let term = two_leaf_mix(1000, 2_500_000, 2000, 2_500_000);
    assert_eq!(
        normalize_expr_by_min_volume(&term),
        "(mix (fluid 0.1 1.0) (fluid 0.2 1.0))"
    );
}

#[test]
fn normalization_prints_arithmetic() {
    let term = vec![
        MixLang::Number(q(1000)),
        MixLang::Number(q(20000)),
        MixLang::Number(q(10000)),
        MixLang::Div(1, 2),
        MixLang::Fluid(0, 3),
    ];
    assert_eq!(normalize_expr_by_min_volume(&term), "(fluid 0.1 (/ 2.0 1.0))");
    assert!(design_from_extraction(&term, 5).is_err());
}

#[test]
fn design_of_balanced_mix() {
    // target 0.15 from stock {0.1, 0.2}
    let term = two_leaf_mix(1000, 10000, 2000, 10000);
    let design = design_from_extraction(&term, 10000).unwrap();
    let expected = Expr::parse("(mix (fluid 0.1 1) (fluid 0.2 1))").unwrap();
    assert_eq!(Expr::parse(design.mixer_expr()).unwrap(), expected);
    assert_eq!(design.storage_units_needed(), 2);
    assert_eq!(design.cost(), 10000);
}

#[test]
fn design_of_single_stock_fluid() {
    // target 0.1 with 0.1 in stock: a single leaf
    let term = vec![MixLang::Number(q(1000)), MixLang::Number(q(4_294_967_296)), MixLang::Fluid(0, 1)];
    let design = design_from_extraction(&term, 0).unwrap();
    assert_eq!(design.mixer_expr(), "(fluid 0.1 1.0)");
    assert_eq!(design.storage_units_needed(), 1);
    assert_eq!(design.cost(), 0);
}

#[test]
fn design_of_two_level_dilution() {
    // 0.125 from {0.0, 0.5}: (mix (mix 0.5 0.0) 0.0) needs at most three cells
    let term = vec![
        MixLang::Number(q(5000)),
        MixLang::Number(q(10000)),
        MixLang::Fluid(0, 1),
        MixLang::Number(q(0)),
        MixLang::Fluid(3, 1),
        MixLang::Mix(2, 4),
        MixLang::Number(q(20000)),
        MixLang::Fluid(3, 6),
        MixLang::Mix(5, 7),
    ];
    let design = design_from_extraction(&term, 20000).unwrap();
    assert_eq!(
        design.mixer_expr(),
        "(mix (mix (fluid 0.5 1.0) (fluid 0.0 1.0)) (fluid 0.0 2.0))"
    );
    assert!(design.storage_units_needed() >= 2 && design.storage_units_needed() <= 3);
    assert_eq!(design.storage_units_needed(), 2);
}

#[test]
fn design_of_chain_of_mixes_needs_two_cells() {
    let leaves = [0i64, 10000, 0, 10000, 0, 10000];
    let mut term = vec![MixLang::Number(q(10000))];
    term.push(MixLang::Number(q(leaves[0])));
    term.push(MixLang::Fluid(1, 0));
    let mut acc = term.len() - 1;
    for c in &leaves[1..] {
        term.push(MixLang::Number(q(*c)));
        term.push(MixLang::Fluid(term.len() - 1, 0));
        term.push(MixLang::Mix(acc, term.len() - 1));
        acc = term.len() - 1;
    }
    let design = design_from_extraction(&term, 0).unwrap();
    assert_eq!(design.storage_units_needed(), 2);
}

#[test]
fn design_of_balanced_tree_of_four() {
    let term = vec![
        MixLang::Number(q(10000)),
        MixLang::Number(q(0)),
        MixLang::Fluid(1, 0),
        MixLang::Number(q(10000)),
        MixLang::Fluid(3, 0),
        MixLang::Mix(2, 4),
        MixLang::Mix(5, 5),
    ];
    let design = design_from_extraction(&term, 0).unwrap();
    assert_eq!(design.storage_units_needed(), 3);
}

#[test]
fn design_for_three_eighths() {
    // 0.375 from {0.0, 0.5}: (mix (fluid 0.5 2) (mix (fluid 0.5 1) (fluid 0.0 1)))
    let term = vec![
        MixLang::Number(q(5000)),
        MixLang::Number(q(20000)),
        MixLang::Fluid(0, 1),
        MixLang::Number(q(10000)),
        MixLang::Fluid(0, 3),
        MixLang::Number(q(0)),
        MixLang::Fluid(5, 3),
        MixLang::Mix(4, 6),
        MixLang::Mix(2, 7),
    ];
    let design = design_from_extraction(&term, 10000).unwrap();
    assert_eq!(
        design.mixer_expr(),
        "(mix (fluid 0.5 2.0) (mix (fluid 0.5 1.0) (fluid 0.0 1.0)))"
    );
    let storage = design.storage_units_needed();
    assert!(storage >= 2 && storage <= 3);
    assert_eq!(storage, 3);
}

#[test]
fn design_tree_reaches_its_target() {
    // 0.2 from {0.1, 0.3}
    let term = two_leaf_mix(1000, 10000, 3000, 10000);
    let design = design_from_extraction(&term, 10000).unwrap();
    let expr = Expr::parse(design.mixer_expr()).unwrap();
    assert_eq!(*expr.evaluate().unwrap().concentration(), q(2000));
    assert_eq!(design.storage_units_needed(), 2);
}

/// A balanced tree of `2^depth` leaves alternating between 0.0 and 1.0.
fn balanced_term(depth: u32) -> Vec<MixLang> {
    let mut term = vec![MixLang::Number(q(10000)), MixLang::Number(q(0))];
    let mut level: Vec<usize> = Vec::new();
    for i in 0..(1usize << depth) {
        let conc = if i % 2 == 0 { 1 } else { 0 };
        term.push(MixLang::Fluid(conc, 0));
        level.push(term.len() - 1);
    }
    while level.len() > 1 {
        let mut next = Vec::new();
        for pair in level.chunks(2) {
            term.push(MixLang::Mix(pair[0], pair[1]));
            next.push(term.len() - 1);
        }
        level = next;
    }
    term
}

#[test]
fn design_of_large_balanced_tree() {
    // 32 leaves, 63 registers: a post-order schedule needs depth + 1 cells
    let design = design_from_extraction(&balanced_term(5), 0).unwrap();
    assert_eq!(design.storage_units_needed(), 6);
}
