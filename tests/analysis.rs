use fluido::analysis::{
    concentration_valid, cost_sum, enode_base_cost, make_payload, merge_payloads, proximity_cost,
    reified_constants, volume_multiple, volume_valid, AnalysisConflict, ArithmeticAnalysisPayload,
    MixLang, ARITH_COST, FORBIDDEN_COST, MIX_COST, OPAQUE_FLUID_COST,
};
use fluido::fluid::Fluid;
use fluido::number::LimitedFloat;

fn q(w: i64) -> LimitedFloat {
    LimitedFloat::new(w)
}

fn num(w: i64) -> ArithmeticAnalysisPayload {
    ArithmeticAnalysisPayload::Number(q(w))
}

#[test]
fn make_folds_constants_and_fluids() {
    let unknown = ArithmeticAnalysisPayload::Unknown;
    assert_eq!(make_payload(&MixLang::Number(q(5)), &unknown, &unknown), num(5));
    assert_eq!(make_payload(&MixLang::Add(0, 1), &num(100), &num(1000)), num(1100));
    assert_eq!(make_payload(&MixLang::Sub(0, 1), &num(100), &num(1000)), num(-900));
    assert_eq!(make_payload(&MixLang::Div(0, 1), &num(10000), &num(20000)), num(5000));
    assert_eq!(make_payload(&MixLang::Mult(0, 1), &num(30000), &num(5000)), num(15000));
    assert_eq!(make_payload(&MixLang::Add(0, 1), &unknown, &num(1000)), unknown);
    let fa = Fluid::new(q(1000), q(10000));
    let fb = Fluid::new(q(2000), q(10000));
    assert_eq!(
        make_payload(&MixLang::Fluid(0, 1), &num(1000), &num(10000)),
        ArithmeticAnalysisPayload::Fluid(fa)
    );
    assert_eq!(
        make_payload(
            &MixLang::Mix(0, 1),
            &ArithmeticAnalysisPayload::Fluid(fa),
            &ArithmeticAnalysisPayload::Fluid(fb)
        ),
        ArithmeticAnalysisPayload::Fluid(Fluid::new(q(1500), q(20000)))
    );
    assert_eq!(make_payload(&MixLang::Mix(0, 1), &num(1), &num(2)), unknown);
}

#[test]
fn merging_different_numbers_is_a_conflict() {
    let mut to = num(1000);
    let r = merge_payloads(&mut to, num(2000));
    assert_eq!(r, Err(AnalysisConflict { to: num(1000), from: num(2000) }));
    assert_eq!(to, num(1000));
}

#[test]
fn merging_equal_or_unknown_data() {
    let mut to = num(1000);
    assert_eq!(merge_payloads(&mut to, num(1000)), Ok((false, false)));
    assert_eq!(to, num(1000));
    let mut to = ArithmeticAnalysisPayload::Unknown;
    assert_eq!(merge_payloads(&mut to, num(7)), Ok((true, false)));
    assert_eq!(to, num(7));
    let mut to = num(7);
    assert_eq!(merge_payloads(&mut to, ArithmeticAnalysisPayload::Unknown), Ok((false, true)));
    assert_eq!(to, num(7));
}

#[test]
fn modify_hook_keeps_datum_fixed() {
    let f = Fluid::new(q(1250), q(40000));
    let data = ArithmeticAnalysisPayload::Fluid(f);
    let (c, v) = reified_constants(&data).unwrap();
    assert_eq!((c, v), (q(1250), q(40000)));
    let unknown = ArithmeticAnalysisPayload::Unknown;
    let nc = make_payload(&MixLang::Number(c), &unknown, &unknown);
    let nv = make_payload(&MixLang::Number(v), &unknown, &unknown);
    let added = make_payload(&MixLang::Fluid(0, 1), &nc, &nv);
    let mut to = data;
    for _ in 0..3 {
        assert_eq!(merge_payloads(&mut to, added), Ok((false, false)));
        assert_eq!(to, data);
    }
    assert_eq!(reified_constants(&num(3)), None);
}

#[test]
fn rule_side_conditions() {
    assert!(volume_valid(&num(20000)));
    assert!(volume_valid(&num(2)));
    assert!(!volume_valid(&num(1)));
    assert!(!volume_valid(&num(0)));
    assert!(!volume_valid(&num(3)));
    assert!(!volume_valid(&ArithmeticAnalysisPayload::Unknown));
    assert!(concentration_valid(&num(5000), &num(5000), q(1000)));
    assert!(!concentration_valid(&num(9500), &num(5000), q(1000)));
    assert!(!concentration_valid(&num(5000), &num(500), q(1000)));
    assert!(volume_multiple(&num(5000), &num(10000), q(5000)));
    assert!(!volume_multiple(&num(5000), &num(10001), q(5000)));
}

#[test]
fn cost_of_stock_fluid_is_zero() {
    let stock = vec![q(1000), q(2000)];
    let target = q(1500);
    let cost = enode_base_cost(&MixLang::Fluid(0, 1), &num(1000), &num(10000), target, &stock);
    assert_eq!(cost, 0);
    // a target that is itself in stock is a zero-cost leaf
    let cost = enode_base_cost(&MixLang::Fluid(0, 1), &num(2000), &num(10000), q(2000), &stock);
    assert_eq!(cost, 0);
}

#[test]
fn target_leaf_is_forbidden_unless_in_stock() {
    let stock = vec![q(1000), q(2000)];
    let target = q(1500);
    let cost = enode_base_cost(&MixLang::Fluid(0, 1), &num(1500), &num(10000), target, &stock);
    assert_eq!(cost, FORBIDDEN_COST);
    assert_eq!(cost_sum(cost, 17), u64::MAX);
}

#[test]
fn cost_of_other_nodes() {
    let stock = vec![q(1000), q(2000)];
    let target = q(1500);
    let unknown = ArithmeticAnalysisPayload::Unknown;
    assert_eq!(enode_base_cost(&MixLang::Number(q(1)), &unknown, &unknown, target, &stock), 0);
    assert_eq!(enode_base_cost(&MixLang::Mix(0, 1), &unknown, &unknown, target, &stock), MIX_COST);
    assert_eq!(enode_base_cost(&MixLang::Div(0, 1), &unknown, &unknown, target, &stock), ARITH_COST);
    assert_eq!(
        enode_base_cost(&MixLang::Fluid(0, 1), &unknown, &num(1), target, &stock),
        OPAQUE_FLUID_COST
    );
    // 0.12 is 0.02 away from 0.1
    assert_eq!(enode_base_cost(&MixLang::Fluid(0, 1), &num(1200), &num(1), target, &stock), 200);
    assert_eq!(proximity_cost(q(9000), &stock), 7000);
    assert_eq!(proximity_cost(q(50000), &stock), 10000);
    assert_eq!(proximity_cost(q(3000), &vec![]), 10000);
    assert_eq!(cost_sum(3, 4), 7);
}

#[test]
fn saturation_starts_from_the_target_fluid() {
    let term = fluido::analysis::target_term(q(1250));
    assert_eq!(term.len(), 3);
    assert_eq!(term[0], MixLang::Number(q(1250)));
    assert_eq!(term[1], MixLang::Number(q(fluido::analysis::INITIAL_VOLUME)));
    assert_eq!(term[2], MixLang::Fluid(0, 1));
    // the initial volume can be halved many times
    let mut v = fluido::analysis::INITIAL_VOLUME;
    for _ in 0..20 {
        assert!(volume_valid(&num(v)));
        v /= 2;
    }
}
