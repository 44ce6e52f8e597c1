use fluido::expr::Expr;
use fluido::fluid::Fluid;
use fluido::number::LimitedFloat;

fn lf(x: f64) -> LimitedFloat {
    LimitedFloat::parse(&format!("{}", x)).unwrap()
}

#[test]
fn parse_fluid() {
    let input_str = "(fluid 0.2 1)";
    let expr = Expr::parse(input_str).unwrap();
    let expected_fluid = Expr::Fluid(Fluid::new(lf(0.2), lf(1.0)));
    assert_eq!(expected_fluid, expr)
}

#[test]
fn parse_single_mix() {
    let input_str = "(mix (fluid 0.2 1) (fluid 0.3 1))";
    let expr = Expr::parse(input_str).unwrap();
    let first_fluid = Expr::Fluid(Fluid::new(lf(0.2), lf(1.0)));
    let second_fluid = Expr::Fluid(Fluid::new(lf(0.3), lf(1.0)));
    let expected_expr = Expr::Mix(Box::new(first_fluid), Box::new(second_fluid));
    assert_eq!(expected_expr, expr)
}

#[test]
fn parser_parse_nested_mix() {
    let input_str = "(mix (fluid 0.2 1) (mix (fluid 0.3 1) (fluid 0.4 1)))";
    let expr = Expr::parse(input_str).unwrap();
    let first_fluid_expr = Expr::Fluid(Fluid::new(lf(0.2), lf(1.0)));
    let second_fluid_expr = Expr::Fluid(Fluid::new(lf(0.3), lf(1.0)));
    let third_fluid_expr = Expr::Fluid(Fluid::new(lf(0.4), lf(1.0)));

    let inner_mix = Expr::Mix(Box::new(second_fluid_expr), Box::new(third_fluid_expr));
    let final_mix = Expr::Mix(Box::new(first_fluid_expr), Box::new(inner_mix));

    assert_eq!(final_mix, expr)
}

#[test]
fn print_then_parse_gives_the_expression_back() {
    let texts = [
        "(fluid 0.1 1)",
        "(mix (fluid 0.1 1) (fluid 0.2 1))",
        "(mix (mix (fluid 0.0 1) (fluid 0.2 1)) (fluid 0.1 2.5))",
        "(mix (fluid 0.125 0.5) (mix (fluid 1 3) (fluid 0.9999 7)))",
    ];
    for text in texts {
        let e = Expr::parse(text).unwrap();
        let printed = e.to_string();
        assert_eq!(Expr::parse(&printed).unwrap(), e);
    }
    let e = Expr::parse("(mix (fluid 0.1 1) (fluid 0.2 1))").unwrap();
    assert_eq!(e.to_string(), "(mix (fluid 0.1 1.0) (fluid 0.2 1.0))");
}

#[test]
fn parser_rejects_malformed_text() {
    // missing parentheses
    assert!(Expr::parse("mix (fluid 0.1 1) (fluid 0.2 1)").is_err());
    assert!(Expr::parse("(mix (fluid 0.1 1) (fluid 0.2 1)").is_err());
    assert!(Expr::parse("(fluid 0.1 1").is_err());
    // missing keyword
    assert!(Expr::parse("((fluid 0.1 1) (fluid 0.2 1))").is_err());
    assert!(Expr::parse("(0.1 1)").is_err());
    assert!(Expr::parse("(blend (fluid 0.1 1) (fluid 0.2 1))").is_err());
    // non-numeric children
    assert!(Expr::parse("(fluid a 1)").is_err());
    assert!(Expr::parse("(fluid 0.1 b)").is_err());
    assert!(Expr::parse("(mix 0.1 0.2)").is_err());
    // trailing text
    assert!(Expr::parse("(fluid 0.1 1) x").is_err());
    assert!(Expr::parse("").is_err());
}

#[test]
fn evaluate_mixer_tree() {
    let e = Expr::parse("(mix (mix (fluid 0.0 1) (fluid 0.2 1)) (fluid 0.1 2))").unwrap();
    let f = e.evaluate().unwrap();
    assert_eq!(*f.concentration(), lf(0.1));
    assert_eq!(*f.unit_volume(), lf(4.0));
    assert_eq!(Expr::Number(lf(0.5)).evaluate(), None);
}
