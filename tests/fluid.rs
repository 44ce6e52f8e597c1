use fluido::fluid::{Fluid, FluidParseError};
use fluido::number::{LimitedFloat, NumberParseError};

fn lf(x: f64) -> LimitedFloat {
    LimitedFloat::parse(&format!("{}", x)).unwrap()
}

#[test]
fn parse_fluid_str() {
    let parsed_fluid: Fluid = Fluid::from_str("(fluid 0.1 1.0)").unwrap();
    let expected_fluid = Fluid::new(lf(0.1), lf(1.0));

    assert_eq!(expected_fluid, parsed_fluid)
}

#[test]
fn mix_two_equal_volume_fluids() {
    let fluid_a = Fluid::new(lf(0.1), lf(1.0));
    let fluid_b = Fluid::new(lf(0.2), lf(1.0));

    let resulting_fluid = fluid_a.mix(&fluid_b);

    let expected_fluid = Fluid::new(lf(0.15), lf(2.0));
    assert_eq!(expected_fluid, resulting_fluid);
}

#[test]
fn mix_two_diff_volumed_fluids() {
    let fluid_a = Fluid::new(lf(0.04), lf(1.0));
    let fluid_b = Fluid::new(lf(0.0), lf(3.0));

    let resulting_fluid = fluid_a.mix(&fluid_b);
    let expected_fluid = Fluid::new(lf(0.01), lf(4.0));

    assert_eq!(expected_fluid, resulting_fluid);
}

#[test]
fn mix_two_equal_volume_fluids_limited_float() {
    let fluid_a = Fluid::new(LimitedFloat::new(1000), LimitedFloat::new(10000));
    let fluid_b = Fluid::new(LimitedFloat::new(2000), LimitedFloat::new(10000));

    let resulting_fluid = fluid_a.mix(&fluid_b);

    let expected_fluid = Fluid::new(lf(0.15), lf(2.0));
    assert_eq!(expected_fluid, resulting_fluid);
}

#[test]
fn mix_two_diff_volumed_fluids_limited_float() {
    let fluid_a = Fluid::new(lf(0.04), lf(1.0));
    let fluid_b = Fluid::new(lf(0.0), lf(3.0));

    let resulting_fluid = fluid_a.mix(&fluid_b);
    let expected_fluid = Fluid::new(lf(0.01), lf(4.0));

    assert_eq!(expected_fluid, resulting_fluid);
}

#[test]
fn mix_unequal_volumes_is_quantized() {
    let fluid_a = Fluid::new(lf(0.1), lf(1.0));
    let fluid_b = Fluid::new(lf(0.2), lf(2.0));
    let mixed = fluid_a.mix(&fluid_b);
    assert_eq!(*mixed.concentration(), lf(0.1667));
    assert_eq!(*mixed.unit_volume(), lf(3.0));
}

#[test]
fn mix_is_commutative_and_conserves_volume() {
    let a = Fluid::new(lf(0.37), lf(1.5));
    let b = Fluid::new(lf(0.05), lf(0.25));
    let ab = a.mix(&b);
    let ba = b.mix(&a);
    assert_eq!(ab.concentration(), ba.concentration());
    assert_eq!(ab.unit_volume().wrapped, a.unit_volume().wrapped + b.unit_volume().wrapped);
}

#[test]
fn fluid_text_round_trip() {
    let f = Fluid::new(lf(0.125), lf(3.0));
    assert_eq!(f.to_string(), "(fluid 0.125 3.0)");
    assert_eq!(Fluid::from_str(&f.to_string()), Ok(f));
}

#[test]
fn fluid_parse_errors() {
    assert_eq!(Fluid::from_str("fluid 0.1 1.0"), Err(FluidParseError::MissingParanthesis));
    assert_eq!(Fluid::from_str("(fluid 0.1 1.0"), Err(FluidParseError::MissingParanthesis));
    assert_eq!(Fluid::from_str("(mix 0.1 1.0)"), Err(FluidParseError::MissingFluidKeyword));
    assert_eq!(Fluid::from_str("(fluid)"), Err(FluidParseError::MissingVolAndOrConcentration));
    assert_eq!(Fluid::from_str("(fluid 0.1)"), Err(FluidParseError::MissingVolAndOrConcentration));
    assert_eq!(
        Fluid::from_str("(fluid x 1.0)"),
        Err(FluidParseError::InvalidFloatParse(NumberParseError::Malformed))
    );
    assert_eq!(
        Fluid::from_str("(fluid 0.1 y)"),
        Err(FluidParseError::InvalidVolumeParse(NumberParseError::Malformed))
    );
    assert_eq!(Fluid::from_str("(fluid 0.1 1.0 2.0)"), Err(FluidParseError::MissingParanthesis));
}

#[test]
fn fluid_with_fraction_literals() {
    let f = Fluid::from_str("(fluid 1/10 1)").unwrap();
    assert_eq!(f, Fluid::new(LimitedFloat::new(1000), LimitedFloat::new(10000)));
}
