use fluido::expr::Expr;
use fluido::fluid::Fluid;
use fluido::ir::{IRBuilder, IROp, Operand};
use fluido::liveness::{AnalysisPassKind, IRPassManager, LivenessAnalysis};
use fluido::number::LimitedFloat;

fn get_dummy_fluid_lf() -> Fluid {
    Fluid::new(LimitedFloat::new(1000), LimitedFloat::new(10000))
}

fn ir_from_str(input_str: &str) -> Vec<IROp> {
    let expr = Expr::parse(input_str).unwrap();
    let mut ir_builder = IRBuilder::new();
    ir_builder.build_ir(&expr)
}

#[test]
fn test_operand_display_lf() {
    let const_op = Operand::Const(get_dummy_fluid_lf());
    assert_eq!(const_op.to_string(), "(fluid 0.1 1.0)");

    let vreg_op: Operand = Operand::VirtualRegister(42);
    assert_eq!(vreg_op.to_string(), "%42");
}

#[test]
fn test_irops_display_lf() {
    let store_op = IROp::Store((Operand::Const(get_dummy_fluid_lf()), Operand::VirtualRegister(1)));
    assert_eq!(store_op.to_string(), "store (fluid 0.1 1.0) %1");

    let mix_op: IROp = IROp::Mix((
        Operand::VirtualRegister(1),
        Operand::VirtualRegister(2),
        Operand::VirtualRegister(3),
    ));
    assert_eq!(mix_op.to_string(), "mix %1 %2 %3");
}

#[test]
fn lowering_is_post_order() {
    let ir = ir_from_str("(mix (mix (fluid 0.0 1) (fluid 0.2 1)) (fluid 0.1 1))");
    let text: Vec<String> = ir.iter().map(|op| op.to_string()).collect();
    assert_eq!(
        text,
        vec![
            "store (fluid 0.0 1.0) %0",
            "store (fluid 0.2 1.0) %1",
            "mix %0 %1 %2",
            "store (fluid 0.1 1.0) %3",
            "mix %2 %3 %4",
        ]
    );
}

#[test]
fn liveness_single_mix_test() {
    let ir = ir_from_str("(mix (fluid 0.2 1) (fluid 0.2 1))");
    let liveness_analysis = LivenessAnalysis::new();
    let result = liveness_analysis.analyze(&ir);

    // Registers live after each operation.
    let expected_sets: Vec<Vec<usize>> = vec![vec![0], vec![0, 1], vec![]];
    assert_eq!(expected_sets, result.sets_per_ir)
}

#[test]
fn liveness_of_store_store_mix() {
    let f = get_dummy_fluid_lf();
    let ir = vec![
        IROp::Store((Operand::Const(f), Operand::VirtualRegister(0))),
        IROp::Store((Operand::Const(f), Operand::VirtualRegister(1))),
        IROp::Mix((
            Operand::VirtualRegister(0),
            Operand::VirtualRegister(1),
            Operand::VirtualRegister(2),
        )),
    ];
    let result = LivenessAnalysis::new().analyze(&ir);
    assert_eq!(result.sets_per_ir, vec![vec![0], vec![0, 1], vec![]]);
    assert_eq!(LivenessAnalysis::new().pass_name(), "liveness");
}

#[test]
fn liveness_of_nested_mix() {
    let ir = ir_from_str("(mix (mix (fluid 0.0 1) (fluid 0.2 1)) (fluid 0.1 1))");
    let result = LivenessAnalysis::new().analyze(&ir);
    assert_eq!(result.sets_per_ir, vec![vec![0], vec![0, 1], vec![2], vec![2, 3], vec![]]);
}

#[test]
fn test_register_analysis_pass() {
    let ir = vec![];
    let mut manager = IRPassManager::new(ir, vec![]);

    manager.register_analysis_pass(AnalysisPassKind::Liveness);

    assert_eq!(manager.analysis_passes.len(), 1);
    assert_eq!(manager.analysis_passes[0], AnalysisPassKind::Liveness);
}

#[test]
fn test_apply_analysis_passes() {
    let ir = ir_from_str("(mix (fluid 0.2 1) (fluid 0.3 1))");
    let mut manager = IRPassManager::new(ir, vec![AnalysisPassKind::Liveness]);
    manager.register_analysis_pass(AnalysisPassKind::Liveness);

    let results = manager.apply_analysis_passes();

    assert_eq!(results.len(), 2);
    assert_eq!(results[0].0, AnalysisPassKind::Liveness);
    assert_eq!(results[0].1.sets_per_ir.len(), 3);
    assert_eq!(results[1].1.sets_per_ir, vec![vec![0], vec![0, 1], vec![]]);
}
