//! Effective values of a unit: crafting speed, processing time, output
//! quantities and energy draw, after its modules are applied.
//!
//! Speed and productivity scale linearly with the accumulated deltas;
//! the energy multiplier is floored at one fifth, never an error.

use vstd::prelude::*;
use crate::design::{copy_bytes, rl_pairs_view, Building, BuildingV, Recipe};
use crate::errors::AnalyzeError;
use crate::modifier::{
    spec_energy_centi, spec_productivity_centi, spec_speed_centi, Modifiers, Module,
};
use crate::rat::{
    lemma_q_eq_trans, lemma_q_mul_congr, lemma_rat_view_wf, q_canon, q_div, q_eq, q_fits,
    q_int, q_is_neg, q_is_zero, q_le, q_mul, q_wf, Q, Rat,
};
use vstd::arithmetic::mul::lemma_mul_nonzero;

verus! {

/// The speed multiplier of a module list: one plus the speed delta.
pub open spec fn speed_factor(ms: Seq<(Module, i16)>) -> Q {
    Q { num: 100 + spec_speed_centi(ms), den: 100 }
}

/// The output-quantity multiplier: one plus the productivity delta.
pub open spec fn prod_factor(ms: Seq<(Module, i16)>) -> Q {
    Q { num: 100 + spec_productivity_centi(ms), den: 100 }
}

/// The energy multiplier, floored at one fifth.
pub open spec fn energy_factor(ms: Seq<(Module, i16)>) -> Q {
    let e = spec_energy_centi(ms);
    Q { num: if e < 20 {
        20
    } else {
        e
    }, den: 100 }
}

/// A unit's effective crafting speed.
pub open spec fn effective_speed(b: BuildingV) -> Q {
    q_mul(b.crafting_speed, speed_factor(b.modules))
}

/// A unit's effective processing time: base time over effective speed.
pub open spec fn effective_time(b: BuildingV) -> Q {
    crate::rat::q_div(b.recipe.time, effective_speed(b))
}

/// An output quantity after productivity scaling.
pub open spec fn effective_out_qty(q: Q, ms: Seq<(Module, i16)>) -> Q {
    q_mul(q, prod_factor(ms))
}

/// A unit's effective energy consumption.
pub open spec fn effective_energy(b: BuildingV) -> Q {
    q_mul(b.energy_consumption, energy_factor(b.modules))
}

/// A unit whose base time or effective speed is zero has no defined
/// rates.
pub open spec fn rates_zero(b: BuildingV) -> bool {
    q_is_zero(b.recipe.time) || q_is_zero(effective_speed(b))
}

/// The speed multiplier, in lowest terms.
pub open spec fn canon_speed_factor(b: BuildingV) -> Q {
    q_canon(Q { num: 100 + spec_speed_centi(b.modules), den: 100 })
}

/// The effective crafting speed as it is computed: in lowest terms.
pub open spec fn canon_effective_speed(b: BuildingV) -> Q {
    q_canon(q_mul(b.crafting_speed, canon_speed_factor(b)))
}

/// The effective processing time as it is computed: in lowest terms.
pub open spec fn canon_effective_time(b: BuildingV) -> Q {
    q_canon(q_div(b.recipe.time, canon_effective_speed(b)))
}

/// The output-quantity multiplier, in lowest terms.
pub open spec fn canon_prod_factor(b: BuildingV) -> Q {
    q_canon(Q { num: 100 + spec_productivity_centi(b.modules), den: 100 })
}

/// The energy multiplier after the floor, in hundredths.
pub open spec fn clamped_energy_centi(ms: Seq<(Module, i16)>) -> int {
    let e = spec_energy_centi(ms);
    if e < 20 {
        20
    } else {
        e
    }
}

/// The energy multiplier after the floor, in lowest terms.
pub open spec fn canon_energy_factor(b: BuildingV) -> Q {
    q_canon(Q { num: clamped_energy_centi(b.modules), den: 100 })
}

/// The exact machine-range conditions on the way to the effective time:
/// the speed multiplier leaves the field range, or a reduced
/// intermediate value does.
pub open spec fn time_overflow(b: BuildingV) -> bool {
    ||| !(-0x7fff_ffff_ffff_ffff <= 100 + spec_speed_centi(b.modules)
        <= 0x7fff_ffff_ffff_ffff)
    ||| !q_fits(q_mul(b.crafting_speed, canon_speed_factor(b)))
    ||| !q_fits(q_div(b.recipe.time, canon_effective_speed(b)))
}

/// The exact machine-range conditions of the modified recipe: the
/// effective time's, the productivity multiplier's, or a scaled output
/// quantity's.
pub open spec fn recipe_overflow(b: BuildingV) -> bool {
    ||| time_overflow(b)
    ||| !(-0x7fff_ffff_ffff_ffff <= 100 + spec_productivity_centi(b.modules)
        <= 0x7fff_ffff_ffff_ffff)
    ||| exists|i: int|
        0 <= i < b.recipe.outputs.len() && !q_fits(
            q_mul((#[trigger] b.recipe.outputs[i]).1, canon_prod_factor(b)),
        )
}

/// The exact machine-range conditions of the effective energy draw.
pub open spec fn energy_overflow(b: BuildingV) -> bool {
    ||| !(clamped_energy_centi(b.modules) <= 0x7fff_ffff_ffff_ffff)
    ||| !q_fits(q_mul(b.energy_consumption, canon_energy_factor(b)))
}

/// Converts a centi-valued multiplier to an exact rational.
pub(crate) fn centi_to_rat(c: i128) -> (r: Option<Rat>)
    ensures
        r is Some <==> -0x7fff_ffff_ffff_ffff <= c <= 0x7fff_ffff_ffff_ffff,
        r is Some ==> r->0@ == q_canon(Q { num: c as int, den: 100 }),
        r is Some ==> q_eq(r->0@, Q { num: c as int, den: 100 }) && q_wf(r->0@),
{
    if c < -0x7fff_ffff_ffff_ffff || c > 0x7fff_ffff_ffff_ffff {
        return None;
    }
    proof {
        crate::rat::lemma_fits_within(c as int, 100);
    }
    let r = Rat::new(c as i64, 100);
    r
}

impl Building {
    /// The combined modifiers of this unit's modules.
    pub fn modifiers(&self) -> (r: Modifiers)
        ensures
            r.speed_centi as int == spec_speed_centi(self@.modules),
            r.productivity_centi as int == spec_productivity_centi(self@.modules),
            r.energy_centi as int == spec_energy_centi(self@.modules),
            -(self@.modules.len() * 3000000) <= r.speed_centi <= self@.modules.len() * 3000000,
            -(self@.modules.len() * 3000000) <= r.productivity_centi <= self@.modules.len()
                * 3000000,
            100 - self@.modules.len() * 3000000 <= r.energy_centi <= 100 + self@.modules.len()
                * 3000000,
    {
        Modifiers::from_modules(&self.modules)
    }

    /// The unit's effective processing time.  Fails with `ZeroRate`
    /// exactly when the base time or the effective speed is zero, and
    /// with `Overflow` exactly when a value leaves the machine range;
    /// otherwise success is owed.
    pub fn effective_time_rat(&self) -> (r: Result<Rat, AnalyzeError>)
        ensures
            match r {
                Ok(t) => q_eq(t@, effective_time(self@)) && t@ == canon_effective_time(self@)
                    && !q_is_zero(t@) && !q_is_zero(effective_speed(self@)) && !q_is_zero(
                    self@.recipe.time,
                ),
                Err(e) => e == AnalyzeError::ZeroRate || e == AnalyzeError::Overflow,
            },
            r == Err::<Rat, AnalyzeError>(AnalyzeError::ZeroRate) <==> rates_zero(self@),
            r == Err::<Rat, AnalyzeError>(AnalyzeError::Overflow) <==> !rates_zero(self@)
                && time_overflow(self@),
    {
        broadcast use lemma_rat_view_wf;

        if self.recipe.time.is_zero() {
            return Err(AnalyzeError::ZeroRate);
        }
        let ml = self.modules.len();
        let mods = self.modifiers();
        // A zero effective speed is detected before any conversion, so
        // the zero-rate answer never depends on the machine range.
        if self.crafting_speed.is_zero() || 100 + mods.speed_centi == 0 {
            proof {
                let sfq = Q { num: 100 + spec_speed_centi(self@.modules), den: 100 };
                assert(effective_speed(self@).num == self.crafting_speed@.num * sfq.num);
                if self.crafting_speed@.num == 0 {
                    assert(effective_speed(self@).num == 0);
                } else {
                    assert(effective_speed(self@).num == 0);
                }
            }
            return Err(AnalyzeError::ZeroRate);
        }
        proof {
            lemma_mul_nonzero(self.crafting_speed@.num, 100 + spec_speed_centi(self@.modules));
            assert(!rates_zero(self@));
        }
        let sf = match centi_to_rat(100 + mods.speed_centi) {
            Some(f) => f,
            None => {
                return Err(AnalyzeError::Overflow);
            },
        };
        proof {
            assert(sf@ == canon_speed_factor(self@));
        }
        let espeed = match self.crafting_speed.mul(&sf) {
            Some(s) => s,
            None => {
                return Err(AnalyzeError::Overflow);
            },
        };
        proof {
            assert(espeed@ == canon_effective_speed(self@));
            crate::rat::lemma_q_add_wf(self.crafting_speed@, sf@);
            crate::rat::lemma_q_add_wf(self.crafting_speed@, speed_factor(self@.modules));
            lemma_q_mul_congr(
                self.crafting_speed@,
                self.crafting_speed@,
                sf@,
                speed_factor(self@.modules),
            );
            lemma_q_eq_trans(
                espeed@,
                q_mul(self.crafting_speed@, sf@),
                effective_speed(self@),
            );
            crate::rat::lemma_q_eq_zero(espeed@, effective_speed(self@));
        }
        let t = match self.recipe.time.div(&espeed) {
            Some(t) => t,
            None => {
                return Err(AnalyzeError::Overflow);
            },
        };
        proof {
            assert(t@ == canon_effective_time(self@));
            crate::rat::lemma_q_add_wf(self.crafting_speed@, speed_factor(self@.modules));
            crate::rat::lemma_q_div_wf(self.recipe.time@, espeed@);
            crate::rat::lemma_q_div_wf(self.recipe.time@, effective_speed(self@));
            crate::rat::lemma_q_div_congr(
                self.recipe.time@,
                self.recipe.time@,
                espeed@,
                effective_speed(self@),
            );
            lemma_q_eq_trans(
                t@,
                crate::rat::q_div(self.recipe.time@, espeed@),
                effective_time(self@),
            );
            crate::rat::lemma_q_div_nonzero(self.recipe.time@, effective_speed(self@));
            crate::rat::lemma_q_eq_zero(t@, effective_time(self@));
        }
        Ok(t)
    }

    /// The recipe with module effects applied: inputs unchanged, outputs
    /// scaled by productivity, time divided by effective speed.
    pub fn modified_recipe(&self) -> (r: Result<Recipe, AnalyzeError>)
        ensures
            match r {
                Ok(rc) => {
                    &&& rc@.name == self@.recipe.name
                    &&& rc@.inputs == self@.recipe.inputs
                    &&& rc@.outputs.len() == self@.recipe.outputs.len()
                    &&& forall|i: int|
                        0 <= i < rc@.outputs.len() ==> (#[trigger] rc@.outputs[i]).0
                            == self@.recipe.outputs[i].0 && q_eq(
                            rc@.outputs[i].1,
                            effective_out_qty(self@.recipe.outputs[i].1, self@.modules),
                        )
                    &&& q_eq(rc@.time, effective_time(self@))
                },
                Err(e) => e == AnalyzeError::ZeroRate || e == AnalyzeError::Overflow,
            },
            r == Err::<Recipe, AnalyzeError>(AnalyzeError::ZeroRate) <==> rates_zero(self@),
            r == Err::<Recipe, AnalyzeError>(AnalyzeError::Overflow) <==> !rates_zero(self@)
                && recipe_overflow(self@),
    {
        broadcast use lemma_rat_view_wf;

        let t = match self.effective_time_rat() {
            Ok(t) => t,
            Err(e) => {
                return Err(e);
            },
        };
        let ml = self.modules.len();
        let mods = self.modifiers();
        let pf = match centi_to_rat(100 + mods.productivity_centi) {
            Some(f) => f,
            None => {
                return Err(AnalyzeError::Overflow);
            },
        };
        proof {
            assert(pf@ == canon_prod_factor(self@));
        }
        let n = self.recipe.outputs.len();
        let mut outputs: Vec<(crate::design::ResourceLine, Rat)> = Vec::new();
        let mut i: usize = 0;
        while i < n
            invariant
                n == self.recipe.outputs@.len(),
                0 <= i <= n,
                !rates_zero(self@),
                !time_overflow(self@),
                -0x7fff_ffff_ffff_ffff <= 100 + spec_productivity_centi(self@.modules)
                    <= 0x7fff_ffff_ffff_ffff,
                q_eq(pf@, prod_factor(self@.modules)),
                pf@ == canon_prod_factor(self@),
                q_wf(pf@),
                outputs@.len() == i,
                forall|m: int|
                    0 <= m < i ==> q_fits(
                        q_mul((#[trigger] self@.recipe.outputs[m]).1, canon_prod_factor(self@)),
                    ),
                forall|m: int|
                    0 <= m < i ==> (#[trigger] rl_pairs_view(outputs@)[m]).0
                        == self@.recipe.outputs[m].0 && q_eq(
                        rl_pairs_view(outputs@)[m].1,
                        effective_out_qty(self@.recipe.outputs[m].1, self@.modules),
                    ),
            decreases n - i,
        {
            let line = self.recipe.outputs[i].0.clone();
            let scaled = match self.recipe.outputs[i].1.mul(&pf) {
                Some(s) => s,
                None => {
                    proof {
                        assert(self@.recipe.outputs[i as int].1
                            == self.recipe.outputs@[i as int].1@);
                        assert(!q_fits(
                            q_mul(self@.recipe.outputs[i as int].1, canon_prod_factor(self@)),
                        ));
                        assert(recipe_overflow(self@));
                    }
                    return Err(AnalyzeError::Overflow);
                },
            };
            proof {
                assert(self@.recipe.outputs[i as int].1 == self.recipe.outputs@[i as int].1@);
                assert(q_fits(
                    q_mul(self@.recipe.outputs[i as int].1, canon_prod_factor(self@)),
                ));
            }
            proof {
                broadcast use lemma_rat_view_wf;

                crate::rat::lemma_q_add_wf(self.recipe.outputs@[i as int].1@, pf@);
                crate::rat::lemma_q_add_wf(
                    self.recipe.outputs@[i as int].1@,
                    prod_factor(self@.modules),
                );
                lemma_q_mul_congr(
                    self.recipe.outputs@[i as int].1@,
                    self.recipe.outputs@[i as int].1@,
                    pf@,
                    prod_factor(self@.modules),
                );
                lemma_q_eq_trans(
                    scaled@,
                    q_mul(self.recipe.outputs@[i as int].1@, pf@),
                    effective_out_qty(self@.recipe.outputs[i as int].1, self@.modules),
                );
            }
            let ghost prev_outputs = outputs@;
            outputs.push((line, scaled));
            i = i + 1;
            proof {
                assert forall|m: int|
                    0 <= m < i implies (#[trigger] rl_pairs_view(outputs@)[m]).0
                    == self@.recipe.outputs[m].0 && q_eq(
                    rl_pairs_view(outputs@)[m].1,
                    effective_out_qty(self@.recipe.outputs[m].1, self@.modules),
                ) by {
                    if m < i - 1 {
                        assert(outputs@[m] == prev_outputs[m]);
                        assert(rl_pairs_view(prev_outputs)[m] == (
                            prev_outputs[m].0@,
                            prev_outputs[m].1@,
                        ));
                    }
                }
            }
        }
        let mut inputs: Vec<(crate::design::ResourceLine, Rat)> = Vec::new();
        let mut j: usize = 0;
        while j < self.recipe.inputs.len()
            invariant
                0 <= j <= self.recipe.inputs@.len(),
                inputs@.len() == j,
                forall|m: int|
                    0 <= m < j ==> #[trigger] rl_pairs_view(inputs@)[m] == rl_pairs_view(
                        self.recipe.inputs@,
                    )[m],
            decreases self.recipe.inputs@.len() - j,
        {
            let line = self.recipe.inputs[j].0.clone();
            let qty = self.recipe.inputs[j].1.clone();
            let ghost prev_inputs = inputs@;
            inputs.push((line, qty));
            j = j + 1;
            proof {
                assert forall|m: int|
                    0 <= m < j implies #[trigger] rl_pairs_view(inputs@)[m] == rl_pairs_view(
                    self.recipe.inputs@,
                )[m] by {
                    assert(rl_pairs_view(inputs@)[m] == (inputs@[m].0@, inputs@[m].1@));
                    if m < j - 1 {
                        assert(inputs@[m] == prev_inputs[m]);
                        assert(rl_pairs_view(prev_inputs)[m] == (
                            prev_inputs[m].0@,
                            prev_inputs[m].1@,
                        ));
                        assert(rl_pairs_view(self.recipe.inputs@)[m] == (
                            self.recipe.inputs@[m].0@,
                            self.recipe.inputs@[m].1@,
                        ));
                    }
                }
            }
        }
        let rc = Recipe { name: copy_bytes(&self.recipe.name), inputs, outputs, time: t };
        proof {
            assert(rc@.inputs =~= self@.recipe.inputs);
            assert(!recipe_overflow(self@));
        }
        Ok(rc)
    }

    /// The unit's effective energy consumption: the base draw scaled by
    /// the accumulated multiplier, floored at one fifth.  The floor is
    /// never an error; `None` comes exactly when a value leaves the
    /// machine range.
    pub fn modified_energy_consumption(&self) -> (r: Option<Rat>)
        ensures
            r is Some ==> q_eq(r->0@, effective_energy(self@)),
            r is Some <==> !energy_overflow(self@),
    {
        broadcast use lemma_rat_view_wf;

        let ml = self.modules.len();
        let mods = self.modifiers();
        let clamped: i128 = if mods.energy_centi < 20 {
            20
        } else {
            mods.energy_centi
        };
        proof {
            assert(clamped as int == clamped_energy_centi(self@.modules));
        }
        let ef = match centi_to_rat(clamped) {
            Some(f) => f,
            None => {
                return None;
            },
        };
        proof {
            assert(ef@ == canon_energy_factor(self@));
        }
        let e = match self.energy_consumption.mul(&ef) {
            Some(e) => e,
            None => {
                return None;
            },
        };
        proof {
            crate::rat::lemma_q_add_wf(self.energy_consumption@, ef@);
            crate::rat::lemma_q_add_wf(self.energy_consumption@, energy_factor(self@.modules));
            lemma_q_mul_congr(
                self.energy_consumption@,
                self.energy_consumption@,
                ef@,
                energy_factor(self@.modules),
            );
            lemma_q_eq_trans(
                e@,
                q_mul(self.energy_consumption@, ef@),
                effective_energy(self@),
            );
        }
        Some(e)
    }
}

/// Applying `n` tier-one productivity modules to a unit multiplies every
/// output quantity by exactly `1 + 4n/100`, multiplies the effective
/// crafting speed by exactly `1 - 15n/100`, and raises the energy
/// multiplier to `1 + 40n/100` before the floor.
pub proof fn lemma_productivity_scaling(b: BuildingV, n: i16)
    requires
        b.modules == seq![(Module::Productivity1, n)],
    ensures
        prod_factor(b.modules) == (Q { num: 100 + 4 * n, den: 100 }),
        effective_out_qty(q_int(1), b.modules) == (Q { num: 100 + 4 * n, den: 100 }),
        effective_speed(b) == q_mul(b.crafting_speed, Q { num: 100 - 15 * n, den: 100 }),
        spec_energy_centi(b.modules) == 100 + 40 * n,
{
    reveal_with_fuel(spec_productivity_centi, 2);
    reveal_with_fuel(spec_speed_centi, 2);
    reveal_with_fuel(spec_energy_centi, 2);
    let ms = b.modules;
    assert(ms.drop_last() =~= Seq::<(Module, i16)>::empty());
    assert(ms.last() == (Module::Productivity1, n));
    assert(spec_productivity_centi(ms) == 0 + 4 * n);
    assert(spec_speed_centi(ms) == 0 + (-15) * n);
    assert((-15) * n == -(15 * n) == 0 - 15 * n) by (nonlinear_arith);
    assert(spec_energy_centi(ms) == 100 + 40 * n);
    assert(1 * (100 + 4 * n) == 100 + 4 * n) by (nonlinear_arith);
    assert(1 * 100 == 100) by (nonlinear_arith);
    assert(effective_out_qty(q_int(1), ms) == (Q { num: 100 + 4 * n, den: 100 }));
}

/// The effective energy consumption of a unit with a nonnegative base
/// draw never falls below one fifth of that base, whatever its modules.
pub proof fn lemma_energy_floor(b: BuildingV)
    requires
        q_wf(b.energy_consumption),
        !q_is_neg(b.energy_consumption),
    ensures
        q_le(q_mul(b.energy_consumption, Q { num: 1, den: 5 }), effective_energy(b)),
{
    let e = b.energy_consumption;
    let f = energy_factor(b.modules);
    assert(f.num >= 20);
    assert((e.num * 1) * (e.den * 100) <= (e.num * f.num) * (e.den * 5)) by (nonlinear_arith)
        requires
            e.num >= 0,
            e.den > 0,
            f.num >= 20,
    ;
}

} // verus!
