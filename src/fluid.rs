//! Fluids: a concentration together with a volume, and their 1:1 mixing.
use vstd::prelude::*;
use vstd::string::StringExecFns;
use crate::number::{
    fits_steps, lemma_number_text, number_text, parse_number_chars, parse_result, q_add, q_div,
    q_mul, write_number, LimitedFloat, NumberParseError,
};
use crate::text::{
    atom_end, chars_of, is_delim, lemma_atom_end_exact, scan_atom, skip_spaces, space_run, spells,
};

verus! {

/// A fluid: its concentration and its volume, fixed once created.
#[derive(Debug, Clone, Copy, PartialEq, Eq, Structural, Hash, PartialOrd, Ord)]
pub struct Fluid {
    pub concentration: LimitedFloat,
    pub unit_volume: LimitedFloat,
}

/// Why a text is not a fluid literal `(fluid C V)`.
#[derive(Debug, Clone, Copy, PartialEq, Eq, Structural)]
pub enum FluidParseError {
    /// The concentration is not a number.
    InvalidFloatParse(NumberParseError),
    /// The volume is not a number.
    InvalidVolumeParse(NumberParseError),
    /// An opening or closing parenthesis is missing.
    MissingParanthesis,
    /// The form does not start with the word `fluid`.
    MissingFluidKeyword,
    /// The word `fluid` is not followed by a space.
    MissingSpace,
    /// The concentration or the volume is absent.
    MissingVolAndOrConcentration,
}

/// Volume of the mix of two fluids: the sum of their volumes.
pub open spec fn mix_volume(a: Fluid, b: Fluid) -> int {
    q_add(a.unit_volume.wrapped as int, b.unit_volume.wrapped as int)
}

/// Concentration of the mix of two fluids: the volume-weighted mean, with each
/// product and the quotient quantized.
pub open spec fn mix_concentration(a: Fluid, b: Fluid) -> int {
    let ma = q_mul(a.concentration.wrapped as int, a.unit_volume.wrapped as int);
    let mb = q_mul(b.concentration.wrapped as int, b.unit_volume.wrapped as int);
    q_div(q_add(ma, mb), mix_volume(a, b))
}

pub open spec fn spec_mix(a: Fluid, b: Fluid) -> Fluid {
    Fluid {
        concentration: LimitedFloat { wrapped: mix_concentration(a, b) as i64 },
        unit_volume: LimitedFloat { wrapped: mix_volume(a, b) as i64 },
    }
}

/// Text of a fluid literal.
pub open spec fn fluid_text(f: Fluid) -> Seq<char> {
    seq!['(', 'f', 'l', 'u', 'i', 'd', ' '] + number_text(f.concentration.wrapped as int) + seq![' ']
        + number_text(f.unit_volume.wrapped as int) + seq![')']
}

pub open spec fn fluid_word() -> Seq<char> {
    seq!['f', 'l', 'u', 'i', 'd']
}

/// Reading a fluid literal `(fluid C V)` that starts at `i` of `s`: the fluid
/// and the position after its closing parenthesis. Atoms are separated by one
/// or more spaces; spaces may precede the closing parenthesis.
pub open spec fn fluid_at(s: Seq<char>, i: int) -> Result<(Fluid, int), FluidParseError> {
    if !(0 <= i < s.len() && s[i] == '(') {
        Err(FluidParseError::MissingParanthesis)
    } else {
        let j = space_run(s, i + 1);
        let e = atom_end(s, j);
        if s.subrange(j, e) != fluid_word() {
            Err(FluidParseError::MissingFluidKeyword)
        } else {
            let k = space_run(s, e);
            if k == e {
                if e == s.len() || s[e] == ')' {
                    Err(FluidParseError::MissingVolAndOrConcentration)
                } else {
                    Err(FluidParseError::MissingSpace)
                }
            } else {
                let c_end = atom_end(s, k);
                let m = space_run(s, c_end);
                let v_end = atom_end(s, m);
                if c_end == k || v_end == m {
                    Err(FluidParseError::MissingVolAndOrConcentration)
                } else {
                    match parse_result(s.subrange(k, c_end)) {
                        Err(ce) => Err(FluidParseError::InvalidFloatParse(ce)),
                        Ok(c) => match parse_result(s.subrange(m, v_end)) {
                            Err(ve) => Err(FluidParseError::InvalidVolumeParse(ve)),
                            Ok(v) => {
                                let n = space_run(s, v_end);
                                if n < s.len() && s[n] == ')' {
                                    Ok((Fluid { concentration: c, unit_volume: v }, n + 1))
                                } else {
                                    Err(FluidParseError::MissingParanthesis)
                                }
                            },
                        },
                    }
                }
            }
        }
    }
}

/// Reading a whole text as one fluid literal.
pub open spec fn fluid_from_text(s: Seq<char>) -> Result<Fluid, FluidParseError> {
    match fluid_at(s, 0) {
        Err(e) => Err(e),
        Ok((f, end)) => if end == s.len() {
            Ok(f)
        } else {
            Err(FluidParseError::MissingParanthesis)
        },
    }
}

impl Fluid {
    /// Creates a fluid from its concentration and its volume.
    pub fn new(concentration: LimitedFloat, unit_volume: LimitedFloat) -> (r: Self)
        ensures
            r.concentration == concentration,
            r.unit_volume == unit_volume,
    {
        Self { concentration, unit_volume }
    }

    /// Mixes two fluids perfectly, with no loss of volume.
    pub fn mix(&self, other: &Fluid) -> (r: Self)
        ensures
            r == spec_mix(*self, *other),
    {
        let resulting_vol = self.unit_volume + other.unit_volume;
        let self_mult = self.concentration * self.unit_volume;
        let other_mult = other.concentration * other.unit_volume;
        let resulting_conc = (self_mult + other_mult) / resulting_vol;
        Self::new(resulting_conc, resulting_vol)
    }

    pub fn concentration(&self) -> (r: &LimitedFloat)
        ensures
            *r == self.concentration,
    {
        &self.concentration
    }

    pub fn unit_volume(&self) -> (r: &LimitedFloat)
        ensures
            *r == self.unit_volume,
    {
        &self.unit_volume
    }

    /// Text of the fluid, `(fluid C V)`.
    pub fn to_string(&self) -> (r: String)
        ensures
            r@ == fluid_text(*self),
    {
        let mut out = String::new();
        write_fluid(&mut out, self);
        out
    }

    /// Reads a fluid literal `(fluid C V)`.
    pub fn from_str(s: &str) -> (r: Result<Self, FluidParseError>)
        ensures
            r == fluid_from_text(s@),
    {
        let cs = chars_of(s);
        match read_fluid(&cs, 0) {
            Err(e) => Err(e),
            Ok((f, end)) => if end == cs.len() {
                Ok(f)
            } else {
                Err(FluidParseError::MissingParanthesis)
            },
        }
    }
}

/// Appends the text of `f` to `out`.
pub fn write_fluid(out: &mut String, f: &Fluid)
    ensures
        final(out)@ == old(out)@ + fluid_text(*f),
{
    proof {
        reveal_strlit("(fluid ");
        reveal_strlit(" ");
        reveal_strlit(")");
    }
    out.append("(fluid ");
    write_number(out, f.concentration);
    out.append(" ");
    write_number(out, f.unit_volume);
    out.append(")");
    assert(out@ =~= old(out)@ + fluid_text(*f));
}

/// Reads the fluid literal that starts at `i` of `cs`.
pub fn read_fluid(cs: &Vec<char>, i: usize) -> (r: Result<(Fluid, usize), FluidParseError>)
    requires
        i <= cs@.len(),
    ensures
        match r {
            Ok((f, end)) => fluid_at(cs@, i as int) == Ok::<(Fluid, int), FluidParseError>(
                (f, end as int),
            ) && end <= cs@.len(),
            Err(e) => fluid_at(cs@, i as int) == Err::<(Fluid, int), FluidParseError>(e),
        },
{
    if !(i < cs.len() && cs[i] == '(') {
        return Err(FluidParseError::MissingParanthesis);
    }
    let j = skip_spaces(cs, i + 1);
    let e = scan_atom(cs, j);
    proof {
        reveal_strlit("fluid");
        assert("fluid"@ =~= fluid_word());
    }
    if !spells(cs, j, e, "fluid") {
        return Err(FluidParseError::MissingFluidKeyword);
    }
    let k = skip_spaces(cs, e);
    if k == e {
        if e == cs.len() || cs[e] == ')' {
            return Err(FluidParseError::MissingVolAndOrConcentration);
        } else {
            return Err(FluidParseError::MissingSpace);
        }
    }
    let c_end = scan_atom(cs, k);
    let m = skip_spaces(cs, c_end);
    let v_end = scan_atom(cs, m);
    if c_end == k || v_end == m {
        return Err(FluidParseError::MissingVolAndOrConcentration);
    }
    let c = match parse_number_chars(cs, k, c_end) {
        Err(ce) => {
            return Err(FluidParseError::InvalidFloatParse(ce));
        },
        Ok(c) => c,
    };
    let v = match parse_number_chars(cs, m, v_end) {
        Err(ve) => {
            return Err(FluidParseError::InvalidVolumeParse(ve));
        },
        Ok(v) => v,
    };
    let n = skip_spaces(cs, v_end);
    if n < cs.len() && cs[n] == ')' {
        Ok((Fluid { concentration: c, unit_volume: v }, n + 1))
    } else {
        Err(FluidParseError::MissingParanthesis)
    }
}

/// A fluid whose numbers can be written: neither is `i64::MIN`.
pub open spec fn writable(f: Fluid) -> bool {
    fits_steps(f.concentration.wrapped as int) && fits_steps(f.unit_volume.wrapped as int)
}

/// The text of a fluid, wherever it stands, reads back as that fluid and
/// ends where the text ends.
#[verifier::rlimit(100)]
#[verifier::spinoff_prover]
pub proof fn lemma_fluid_at_text(p: Seq<char>, f: Fluid, r: Seq<char>)
    requires
        writable(f),
    ensures
        fluid_at(p + fluid_text(f) + r, p.len() as int) == Ok::<(Fluid, int), FluidParseError>(
            (f, (p.len() + fluid_text(f).len()) as int),
        ),
{
    let n1 = number_text(f.concentration.wrapped as int);
    let n2 = number_text(f.unit_volume.wrapped as int);
    lemma_number_text(f.concentration.wrapped as int);
    lemma_number_text(f.unit_volume.wrapped as int);
    let s = p + fluid_text(f) + r;
    let i = p.len() as int;
    let k = i + 7;
    let c_end = k + n1.len();
    let m = c_end + 1;
    let v_end = m + n2.len();
    assert(s =~= p + seq!['(', 'f', 'l', 'u', 'i', 'd', ' '] + n1 + seq![' '] + n2 + seq![')'] + r);
    assert(s[i] == '(');
    assert(space_run(s, i + 1) == i + 1);
    lemma_atom_end_exact(s, i + 1, i + 6);
    assert(s.subrange(i + 1, i + 6) =~= fluid_word());
    assert(s[i + 6] == ' ');
    assert(s[k] == n1[0]);
    assert(space_run(s, k) == k);
    assert(space_run(s, i + 6) == k);
    assert forall|t: int| k <= t < c_end implies !is_delim(#[trigger] s[t]) by {
        assert(s[t] == n1[t - k]);
    }
    assert(s[c_end] == ' ');
    lemma_atom_end_exact(s, k, c_end);
    assert(s[m] == n2[0]);
    assert(space_run(s, m) == m);
    assert(space_run(s, c_end) == m);
    assert forall|t: int| m <= t < v_end implies !is_delim(#[trigger] s[t]) by {
        assert(s[t] == n2[t - m]);
    }
    assert(s[v_end] == ')');
    lemma_atom_end_exact(s, m, v_end);
    assert(space_run(s, v_end) == v_end);
    assert(s.subrange(k, c_end) =~= n1);
    assert(s.subrange(m, v_end) =~= n2);
}

/// Mixing is commutative in concentration and in volume.
pub proof fn lemma_mix_commutative(a: Fluid, b: Fluid)
    ensures
        spec_mix(a, b).concentration == spec_mix(b, a).concentration,
        spec_mix(a, b).unit_volume == spec_mix(b, a).unit_volume,
{
}

/// The volume of a mix is the sum of the volumes mixed, whenever that sum is
/// representable.
pub proof fn lemma_mix_conserves_volume(a: Fluid, b: Fluid)
    requires
        a.unit_volume.wrapped as int + b.unit_volume.wrapped as int <= i64::MAX,
        a.unit_volume.wrapped as int + b.unit_volume.wrapped as int >= i64::MIN,
    ensures
        spec_mix(a, b).unit_volume.wrapped == a.unit_volume.wrapped + b.unit_volume.wrapped,
{
}

} // verus!
