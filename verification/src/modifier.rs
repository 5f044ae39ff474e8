//! Module modifiers.
//!
//! A module changes a unit's crafting speed, output quantity and energy
//! draw.  All deltas are exact hundredths, accumulated additively and
//! scaled by the module count.  The energy multiplier starts at one
//! (one hundred hundredths); its floor of one fifth is applied where the
//! effective energy consumption is computed, not here.

use vstd::prelude::*;

verus! {

/// A modifier kind: productivity, speed or efficiency, tiers one to
/// three.
#[derive(Clone, Copy, PartialEq, Eq, Structural, Debug)]
pub enum Module {
    Productivity1,
    Productivity2,
    Productivity3,
    Speed1,
    Speed2,
    Speed3,
    Efficiency1,
    Efficiency2,
    Efficiency3,
}

impl Module {
    /// The canonical display name of the modifier kind.
    pub fn display_name(&self) -> &'static str {
        match *self {
            Module::Productivity1 => "Productivity 1",
            Module::Productivity2 => "Productivity 2",
            Module::Productivity3 => "Productivity 3",
            Module::Speed1 => "Speed 1",
            Module::Speed2 => "Speed 2",
            Module::Speed3 => "Speed 3",
            Module::Efficiency1 => "Efficiency 1",
            Module::Efficiency2 => "Efficiency 2",
            Module::Efficiency3 => "Efficiency 3",
        }
    }
}

/// Speed delta of one module, in hundredths.
pub open spec fn speed_delta_centi(m: Module) -> int {
    match m {
        Module::Productivity1 => -15,
        Module::Productivity2 => -15,
        Module::Productivity3 => -15,
        Module::Speed1 => 20,
        Module::Speed2 => 30,
        Module::Speed3 => 50,
        Module::Efficiency1 => 0,
        Module::Efficiency2 => 0,
        Module::Efficiency3 => 0,
    }
}

/// Productivity delta of one module, in hundredths.
pub open spec fn productivity_delta_centi(m: Module) -> int {
    match m {
        Module::Productivity1 => 4,
        Module::Productivity2 => 6,
        Module::Productivity3 => 10,
        Module::Speed1 => 0,
        Module::Speed2 => 0,
        Module::Speed3 => 0,
        Module::Efficiency1 => 0,
        Module::Efficiency2 => 0,
        Module::Efficiency3 => 0,
    }
}

/// Energy-multiplier delta of one module, in hundredths.
pub open spec fn energy_delta_centi(m: Module) -> int {
    match m {
        Module::Productivity1 => 40,
        Module::Productivity2 => 60,
        Module::Productivity3 => 80,
        Module::Speed1 => 50,
        Module::Speed2 => 60,
        Module::Speed3 => 70,
        Module::Efficiency1 => -30,
        Module::Efficiency2 => -40,
        Module::Efficiency3 => -50,
    }
}

/// Total speed delta of a module list, in hundredths.
pub open spec fn spec_speed_centi(ms: Seq<(Module, i16)>) -> int
    decreases ms.len(),
{
    if ms.len() == 0 {
        0
    } else {
        spec_speed_centi(ms.drop_last()) + speed_delta_centi(ms.last().0) * ms.last().1
    }
}

/// Total productivity delta of a module list, in hundredths.
pub open spec fn spec_productivity_centi(ms: Seq<(Module, i16)>) -> int
    decreases ms.len(),
{
    if ms.len() == 0 {
        0
    } else {
        spec_productivity_centi(ms.drop_last()) + productivity_delta_centi(ms.last().0)
            * ms.last().1
    }
}

/// Total energy multiplier of a module list, in hundredths; one hundred
/// with no modules.
pub open spec fn spec_energy_centi(ms: Seq<(Module, i16)>) -> int
    decreases ms.len(),
{
    if ms.len() == 0 {
        100
    } else {
        spec_energy_centi(ms.drop_last()) + energy_delta_centi(ms.last().0) * ms.last().1
    }
}

/// The combined effect of a unit's modules, in exact hundredths.
pub struct Modifiers {
    pub speed_centi: i128,
    pub productivity_centi: i128,
    pub energy_centi: i128,
}

impl Modifiers {
    /// No modules: zero deltas, unit energy multiplier.
    pub fn new() -> (r: Modifiers)
        ensures
            r.speed_centi == 0,
            r.productivity_centi == 0,
            r.energy_centi == 100,
    {
        Modifiers { speed_centi: 0, productivity_centi: 0, energy_centi: 100 }
    }

    /// Accumulates the deltas of a module list, each scaled by its count.
    pub fn from_modules(modules: &Vec<(Module, i16)>) -> (r: Modifiers)
        ensures
            r.speed_centi as int == spec_speed_centi(modules@),
            r.productivity_centi as int == spec_productivity_centi(modules@),
            r.energy_centi as int == spec_energy_centi(modules@),
            -(modules@.len() * 3000000) <= r.speed_centi <= modules@.len() * 3000000,
            -(modules@.len() * 3000000) <= r.productivity_centi <= modules@.len() * 3000000,
            100 - modules@.len() * 3000000 <= r.energy_centi <= 100 + modules@.len() * 3000000,
    {
        let n = modules.len();
        let mut speed: i128 = 0;
        let mut productivity: i128 = 0;
        let mut energy: i128 = 100;
        let mut i: usize = 0;
        while i < n
            invariant
                n == modules@.len(),
                0 <= i <= n,
                speed as int == spec_speed_centi(modules@.take(i as int)),
                productivity as int == spec_productivity_centi(modules@.take(i as int)),
                energy as int == spec_energy_centi(modules@.take(i as int)),
                -(i * 3000000) <= speed <= i * 3000000,
                -(i * 3000000) <= productivity <= i * 3000000,
                100 - i * 3000000 <= energy <= 100 + i * 3000000,
            decreases n - i,
        {
            let (m, count) = modules[i];
            let c = count as i128;
            let sd: i128 = match m {
                Module::Productivity1 => -15,
                Module::Productivity2 => -15,
                Module::Productivity3 => -15,
                Module::Speed1 => 20,
                Module::Speed2 => 30,
                Module::Speed3 => 50,
                Module::Efficiency1 => 0,
                Module::Efficiency2 => 0,
                Module::Efficiency3 => 0,
            };
            let pd: i128 = match m {
                Module::Productivity1 => 4,
                Module::Productivity2 => 6,
                Module::Productivity3 => 10,
                Module::Speed1 => 0,
                Module::Speed2 => 0,
                Module::Speed3 => 0,
                Module::Efficiency1 => 0,
                Module::Efficiency2 => 0,
                Module::Efficiency3 => 0,
            };
            let ed: i128 = match m {
                Module::Productivity1 => 40,
                Module::Productivity2 => 60,
                Module::Productivity3 => 80,
                Module::Speed1 => 50,
                Module::Speed2 => 60,
                Module::Speed3 => 70,
                Module::Efficiency1 => -30,
                Module::Efficiency2 => -40,
                Module::Efficiency3 => -50,
            };
            proof {
                lemma_delta_bound(sd as int, c as int);
                lemma_delta_bound(pd as int, c as int);
                lemma_delta_bound(ed as int, c as int);
                assert(i * 3000000 + 3000000 == (i + 1) * 3000000) by (nonlinear_arith);
                assert(modules@.take((i + 1) as int).drop_last() =~= modules@.take(i as int));
                assert(modules@.take((i + 1) as int).last() == modules@[i as int]);
            }
            speed = speed + sd * c;
            productivity = productivity + pd * c;
            energy = energy + ed * c;
            i = i + 1;
        }
        proof {
            assert(modules@.take(n as int) =~= modules@);
        }
        Modifiers { speed_centi: speed, productivity_centi: productivity, energy_centi: energy }
    }
}

/// A per-module delta scaled by an `i16` count stays small.
proof fn lemma_delta_bound(d: int, c: int)
    requires
        -50 <= d <= 80,
        -0x8000 <= c <= 0x7fff,
    ensures
        -3000000 <= d * c <= 3000000,
{
    assert(-3000000 <= d * c <= 3000000) by (nonlinear_arith)
        requires
            -50 <= d <= 80,
            -0x8000 <= c <= 0x7fff,
    ;
}

} // verus!
