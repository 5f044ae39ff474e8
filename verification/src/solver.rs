//! The balance solver.
//!
//! The variable space has one unknown per resource line and per unit,
//! addressed by the shared index.  One balance equation per line says
//! that the line's net rate plus the signed contributions of every unit
//! equals zero; one closure equation per internal line pins it to zero;
//! one normalization equation pins the anchor line to the normalization
//! target.  The system is solved by exact dense elimination and the
//! candidate is then checked against every equation, so a returned
//! vector satisfies the balance model exactly; anything else is an
//! analysis error.

use vstd::prelude::*;
use crate::design::{
    contains_name, dwf, names_view, rl_pairs_view, Building, BuildingV, Design, DesignV, LineV,
};
use crate::errors::AnalyzeError;
use crate::rat::{
    lemma_q_add_wf, lemma_q_div_congr, lemma_q_div_nonzero, lemma_q_div_wf, lemma_q_eq_trans,
    lemma_q_eq_zero, lemma_q_mul_congr, lemma_q_sub_congr, lemma_rat_view_wf, q_add, q_canon,
    q_div, q_eq, q_fits, q_int, q_is_zero, q_mul, q_sub, q_wf, Q, Rat,
};
use crate::unitcalc::{
    canon_effective_time, canon_prod_factor, centi_to_rat, effective_speed, effective_time,
    prod_factor, rates_zero, time_overflow,
};

verus! {

/// The values of a solution vector.
pub open spec fn vals_view(x: Seq<Rat>) -> Seq<Q> {
    Seq::new(x.len(), |i: int| x[i]@)
}

/// Sum of the quantities that a recipe side assigns to the line with
/// this index.
pub open spec fn sum_qty(entries: Seq<(LineV, Q)>, idx: int) -> Q
    decreases entries.len(),
{
    if entries.len() == 0 {
        q_int(0)
    } else {
        let s = sum_qty(entries.drop_last(), idx);
        if entries.last().0.index == idx {
            q_add(s, entries.last().1)
        } else {
            s
        }
    }
}

/// A unit's coefficient for one line: inputs count positively, outputs
/// negatively after productivity scaling, all divided by the effective
/// processing time.
pub open spec fn unit_coeff(b: BuildingV, idx: int) -> Q {
    q_div(
        q_sub(
            sum_qty(b.recipe.inputs, idx),
            q_mul(sum_qty(b.recipe.outputs, idx), prod_factor(b.modules)),
        ),
        effective_time(b),
    )
}

/// Folds the units' contributions to one line's balance over a base
/// value, in unit order.
pub open spec fn contrib_fold(bs: Seq<BuildingV>, idx: int, x: Seq<Q>, base: Q) -> Q
    decreases bs.len(),
{
    if bs.len() == 0 {
        base
    } else {
        q_add(
            contrib_fold(bs.drop_last(), idx, x, base),
            q_mul(unit_coeff(bs.last(), idx), x[bs.last().index]),
        )
    }
}

/// The quantity sum as it is computed: each partial sum in lowest terms,
/// `None` as soon as one leaves the machine range.
pub open spec fn canon_sum_qty(entries: Seq<(LineV, Q)>, idx: int) -> Option<Q>
    decreases entries.len(),
{
    if entries.len() == 0 {
        Some(q_int(0))
    } else {
        match canon_sum_qty(entries.drop_last(), idx) {
            None => None,
            Some(s) => {
                if entries.last().0.index == idx {
                    if q_fits(q_add(s, entries.last().1)) {
                        Some(q_canon(q_add(s, entries.last().1)))
                    } else {
                        None
                    }
                } else {
                    Some(s)
                }
            },
        }
    }
}

/// Once a prefix of the sum has left the machine range, the whole sum
/// has.
proof fn lemma_canon_sum_none_extends(entries: Seq<(LineV, Q)>, k: int, idx: int)
    requires
        0 <= k <= entries.len(),
        canon_sum_qty(entries.take(k), idx) is None,
    ensures
        canon_sum_qty(entries, idx) is None,
    decreases entries.len(),
{
    if entries.len() > k {
        assert(entries.drop_last().take(k) =~= entries.take(k));
        lemma_canon_sum_none_extends(entries.drop_last(), k, idx);
    } else {
        assert(entries.take(k) =~= entries);
    }
}

/// The exact machine-range conditions of a unit's coefficient for one
/// line: the effective time's, the productivity multiplier's, a quantity
/// sum's, or a combining step's.
pub open spec fn coeff_overflow(b: BuildingV, idx: int) -> bool {
    ||| time_overflow(b)
    ||| !(-0x7fff_ffff_ffff_ffff <= 100 + crate::modifier::spec_productivity_centi(b.modules)
        <= 0x7fff_ffff_ffff_ffff)
    ||| canon_sum_qty(b.recipe.inputs, idx) is None
    ||| canon_sum_qty(b.recipe.outputs, idx) is None
    ||| !q_fits(q_mul(canon_sum_qty(b.recipe.outputs, idx)->0, canon_prod_factor(b)))
    ||| !q_fits(
        q_sub(
            canon_sum_qty(b.recipe.inputs, idx)->0,
            q_canon(q_mul(canon_sum_qty(b.recipe.outputs, idx)->0, canon_prod_factor(b))),
        ),
    )
    ||| !q_fits(
        q_div(
            q_canon(
                q_sub(
                    canon_sum_qty(b.recipe.inputs, idx)->0,
                    q_canon(
                        q_mul(canon_sum_qty(b.recipe.outputs, idx)->0, canon_prod_factor(b)),
                    ),
                ),
            ),
            canon_effective_time(b),
        ),
    )
}

/// Every unit's base time and effective speed are nonzero, so its rates
/// are defined.
pub open spec fn rates_defined(d: DesignV) -> bool {
    forall|i: int|
        0 <= i < d.buildings.len() ==> !q_is_zero(effective_speed(#[trigger] d.buildings[i]))
            && !q_is_zero(d.buildings[i].recipe.time)
}

/// A line is internal when it is declared on neither boundary.
pub open spec fn is_internal(d: DesignV, l: LineV) -> bool {
    !contains_name(d.inputs, l.name) && !contains_name(d.outputs, l.name)
}

/// The line's balance equation: its net rate plus all unit
/// contributions is zero.
pub open spec fn balance_holds(d: DesignV, l: LineV, x: Seq<Q>) -> bool {
    q_eq(contrib_fold(d.buildings, l.index, x, x[l.index]), q_int(0))
}

/// A solution vector satisfies the design's whole balance system: every
/// balance equation, zero net rate on every internal line, and the
/// normalization anchor pinned to the target value.
pub open spec fn design_satisfied(d: DesignV, x: Seq<Q>) -> bool {
    &&& x.len() == d.next_index
    &&& forall|j: int| 0 <= j < x.len() ==> q_wf(#[trigger] x[j])
    &&& rates_defined(d)
    &&& forall|i: int| 0 <= i < d.lines.len() ==> balance_holds(d, #[trigger] d.lines[i], x)
    &&& forall|i: int|
        0 <= i < d.lines.len() && is_internal(d, #[trigger] d.lines[i]) ==> q_eq(
            x[d.lines[i].index],
            q_int(0),
        )
    &&& match d.normalized_var {
        Some(v) => q_eq(x[v], d.normalized_value),
        None => true,
    }
}

/// The quantity sum over a recipe side is well-formed.
proof fn lemma_sum_qty_wf(entries: Seq<(LineV, Q)>, idx: int)
    requires
        forall|i: int| 0 <= i < entries.len() ==> q_wf((#[trigger] entries[i]).1),
    ensures
        q_wf(sum_qty(entries, idx)),
    decreases entries.len(),
{
    if entries.len() > 0 {
        assert forall|i: int| 0 <= i < entries.drop_last().len() implies q_wf(
            (#[trigger] entries.drop_last()[i]).1,
        ) by {
            assert(entries.drop_last()[i] == entries[i]);
        }
        lemma_sum_qty_wf(entries.drop_last(), idx);
        lemma_q_add_wf(sum_qty(entries.drop_last(), idx), entries.last().1);
    }
}

/// A unit's coefficient is well-formed when its rates are defined.
proof fn lemma_unit_coeff_wf(b: BuildingV, idx: int)
    requires
        crate::design::bwf(b),
        !q_is_zero(effective_speed(b)),
        !q_is_zero(b.recipe.time),
    ensures
        q_wf(unit_coeff(b, idx)),
{
    lemma_sum_qty_wf(b.recipe.inputs, idx);
    lemma_sum_qty_wf(b.recipe.outputs, idx);
    lemma_q_add_wf(b.crafting_speed, crate::unitcalc::speed_factor(b.modules));
    lemma_q_div_wf(b.recipe.time, effective_speed(b));
    lemma_q_div_nonzero(b.recipe.time, effective_speed(b));
    lemma_q_add_wf(sum_qty(b.recipe.outputs, idx), prod_factor(b.modules));
    lemma_q_add_wf(
        sum_qty(b.recipe.inputs, idx),
        crate::rat::q_neg(q_mul(sum_qty(b.recipe.outputs, idx), prod_factor(b.modules))),
    );
    lemma_q_div_wf(
        q_sub(
            sum_qty(b.recipe.inputs, idx),
            q_mul(sum_qty(b.recipe.outputs, idx), prod_factor(b.modules)),
        ),
        effective_time(b),
    );
}

/// The balance fold is well-formed when the design and the vector are.
proof fn lemma_contrib_fold_wf(bs: Seq<BuildingV>, idx: int, x: Seq<Q>, base: Q)
    requires
        q_wf(base),
        forall|j: int| 0 <= j < x.len() ==> q_wf(#[trigger] x[j]),
        forall|i: int|
            0 <= i < bs.len() ==> crate::design::bwf(#[trigger] bs[i]) && !q_is_zero(
                effective_speed(bs[i]),
            ) && !q_is_zero(bs[i].recipe.time) && 0 <= bs[i].index < x.len(),
    ensures
        q_wf(contrib_fold(bs, idx, x, base)),
    decreases bs.len(),
{
    if bs.len() > 0 {
        assert forall|i: int|
            0 <= i < bs.drop_last().len() implies crate::design::bwf(#[trigger] bs.drop_last()[i])
            && !q_is_zero(effective_speed(bs.drop_last()[i])) && !q_is_zero(
            bs.drop_last()[i].recipe.time,
        ) && 0 <= bs.drop_last()[i].index < x.len() by {
            assert(bs.drop_last()[i] == bs[i]);
        }
        lemma_contrib_fold_wf(bs.drop_last(), idx, x, base);
        lemma_unit_coeff_wf(bs.last(), idx);
        lemma_q_add_wf(unit_coeff(bs.last(), idx), x[bs.last().index]);
        lemma_q_add_wf(
            contrib_fold(bs.drop_last(), idx, x, base),
            q_mul(unit_coeff(bs.last(), idx), x[bs.last().index]),
        );
    }
}

/// Internal lines among the first `k`.
pub open spec fn internal_count_upto(d: DesignV, k: int) -> int
    decreases k,
{
    if k <= 0 {
        0
    } else {
        internal_count_upto(d, k - 1) + if is_internal(d, d.lines[k - 1]) {
            1int
        } else {
            0int
        }
    }
}

/// How many of the design's lines are internal: on neither boundary.
pub open spec fn internal_count(d: DesignV) -> int {
    internal_count_upto(d, d.lines.len() as int)
}

/// Whether one unit's base time or effective speed is zero; detected
/// without any conversion, so never a range failure.
fn building_rates_zero(b: &Building) -> (r: bool)
    ensures
        r == rates_zero(b@),
{
    broadcast use lemma_rat_view_wf;

    if b.recipe.time.is_zero() {
        return true;
    }
    let ml = b.modules.len();
    let mods = b.modifiers();
    let r = b.crafting_speed.is_zero() || 100 + mods.speed_centi == 0;
    proof {
        let sfn = 100 + crate::modifier::spec_speed_centi(b@.modules);
        assert(effective_speed(b@).num == b.crafting_speed@.num * sfn);
        if r {
            vstd::arithmetic::mul::lemma_mul_by_zero_is_zero(b.crafting_speed@.num);
            vstd::arithmetic::mul::lemma_mul_by_zero_is_zero(sfn);
            assert(b.crafting_speed@.num * sfn == 0);
        } else {
            vstd::arithmetic::mul::lemma_mul_nonzero(b.crafting_speed@.num, sfn);
        }
    }
    r
}

/// Whether a name is in a boundary set.
fn name_in(names: &Vec<Vec<u8>>, n: &Vec<u8>) -> (r: bool)
    ensures
        r == contains_name(names_view(names@), n@),
{
    let ghost vs = names_view(names@);
    let len = names.len();
    let mut i: usize = 0;
    while i < len
        invariant
            len == names@.len(),
            vs == names_view(names@),
            0 <= i <= len,
            forall|m: int| 0 <= m < i ==> vs[m] != n@,
        decreases len - i,
    {
        if crate::design::bytes_eq(&names[i], n) {
            proof {
                assert(vs[i as int] == n@);
            }
            return true;
        }
        i = i + 1;
    }
    false
}

impl Building {
    /// The unit's exact coefficient for the line with this index.
    pub fn analysis_coefficient(&self, index: usize) -> (r: Result<Rat, AnalyzeError>)
        ensures
            match r {
                Ok(c) => q_eq(c@, unit_coeff(self@, index as int)) && !q_is_zero(
                    effective_speed(self@),
                ) && !q_is_zero(self@.recipe.time),
                Err(e) => e == AnalyzeError::ZeroRate || e == AnalyzeError::Overflow,
            },
            r == Err::<Rat, AnalyzeError>(AnalyzeError::ZeroRate) <==> rates_zero(self@),
            r == Err::<Rat, AnalyzeError>(AnalyzeError::Overflow) <==> !rates_zero(self@)
                && coeff_overflow(self@, index as int),
    {
        broadcast use lemma_rat_view_wf;

        let ghost bv = self@;
        let ghost idx = index as int;
        let t = match self.effective_time_rat() {
            Ok(t) => t,
            Err(e) => {
                return Err(e);
            },
        };
        let ml = self.modules.len();
        let mods = self.modifiers();
        let pf = match centi_to_rat(100 + mods.productivity_centi) {
            Some(f) => f,
            None => {
                return Err(AnalyzeError::Overflow);
            },
        };
        proof {
            assert(pf@ == canon_prod_factor(bv));
        }
        let sum_in = match self.side_sum(index, true) {
            Ok(s) => s,
            Err(_) => {
                return Err(AnalyzeError::Overflow);
            },
        };
        let sum_out = match self.side_sum(index, false) {
            Ok(s) => s,
            Err(_) => {
                return Err(AnalyzeError::Overflow);
            },
        };
        let scaled = match sum_out.mul(&pf) {
            Some(s) => s,
            None => {
                return Err(AnalyzeError::Overflow);
            },
        };
        proof {
            assert(scaled@ == q_canon(q_mul(canon_sum_qty(bv.recipe.outputs, idx)->0,
                canon_prod_factor(bv))));
        }
        let diff = match sum_in.sub(&scaled) {
            Some(s) => s,
            None => {
                return Err(AnalyzeError::Overflow);
            },
        };
        proof {
            assert(diff@ == q_canon(q_sub(canon_sum_qty(bv.recipe.inputs, idx)->0, scaled@)));
        }
        proof {
            lemma_sum_qty_wf(bv.recipe.inputs, idx);
            lemma_sum_qty_wf(bv.recipe.outputs, idx);
            lemma_q_add_wf(sum_qty(bv.recipe.outputs, idx), prod_factor(bv.modules));
            lemma_q_add_wf(sum_out@, pf@);
            lemma_q_mul_congr(
                sum_out@,
                sum_qty(bv.recipe.outputs, idx),
                pf@,
                prod_factor(bv.modules),
            );
            lemma_q_eq_trans(
                scaled@,
                q_mul(sum_out@, pf@),
                q_mul(sum_qty(bv.recipe.outputs, idx), prod_factor(bv.modules)),
            );
            lemma_q_sub_congr(
                sum_in@,
                sum_qty(bv.recipe.inputs, idx),
                scaled@,
                q_mul(sum_qty(bv.recipe.outputs, idx), prod_factor(bv.modules)),
            );
            lemma_q_add_wf(sum_in@, crate::rat::q_neg(scaled@));
            lemma_q_add_wf(
                sum_qty(bv.recipe.inputs, idx),
                crate::rat::q_neg(q_mul(sum_qty(bv.recipe.outputs, idx), prod_factor(bv.modules))),
            );
            lemma_q_eq_trans(
                diff@,
                q_sub(sum_in@, scaled@),
                q_sub(
                    sum_qty(bv.recipe.inputs, idx),
                    q_mul(sum_qty(bv.recipe.outputs, idx), prod_factor(bv.modules)),
                ),
            );
        }
        let c = match diff.div(&t) {
            Some(c) => c,
            None => {
                proof {
                    assert(coeff_overflow(bv, idx));
                }
                return Err(AnalyzeError::Overflow);
            },
        };
        proof {
            assert(!coeff_overflow(bv, idx));
        }
        proof {
            let spec_num = q_sub(
                sum_qty(bv.recipe.inputs, idx),
                q_mul(sum_qty(bv.recipe.outputs, idx), prod_factor(bv.modules)),
            );
            lemma_q_add_wf(bv.crafting_speed, crate::unitcalc::speed_factor(bv.modules));
            lemma_q_div_wf(bv.recipe.time, effective_speed(bv));
            lemma_q_div_nonzero(bv.recipe.time, effective_speed(bv));
            lemma_q_div_congr(diff@, spec_num, t@, effective_time(bv));
            lemma_q_div_wf(diff@, t@);
            lemma_q_div_wf(spec_num, effective_time(bv));
            lemma_q_eq_trans(c@, q_div(diff@, t@), unit_coeff(bv, idx));
        }
        Ok(c)
    }

    /// The exact quantity this unit's recipe assigns to one line on one
    /// side.
    fn side_sum(&self, index: usize, is_input: bool) -> (r: Result<Rat, AnalyzeError>)
        ensures
            match r {
                Ok(s) => q_eq(
                    s@,
                    sum_qty(
                        if is_input {
                            self@.recipe.inputs
                        } else {
                            self@.recipe.outputs
                        },
                        index as int,
                    ),
                ) && Some(s@) == canon_sum_qty(
                    if is_input {
                        self@.recipe.inputs
                    } else {
                        self@.recipe.outputs
                    },
                    index as int,
                ),
                Err(e) => e == AnalyzeError::Overflow,
            },
            r is Err ==> canon_sum_qty(
                if is_input {
                    self@.recipe.inputs
                } else {
                    self@.recipe.outputs
                },
                index as int,
            ) is None,
    {
        broadcast use lemma_rat_view_wf;

        let entries = if is_input {
            &self.recipe.inputs
        } else {
            &self.recipe.outputs
        };
        let ghost evs = if is_input {
            self@.recipe.inputs
        } else {
            self@.recipe.outputs
        };
        proof {
            assert(evs == rl_pairs_view(entries@));
        }
        let n = entries.len();
        let mut acc = Rat::zero();
        let mut i: usize = 0;
        proof {
            assert(evs.take(0) =~= Seq::<(LineV, Q)>::empty());
        }
        while i < n
            invariant
                n == entries@.len(),
                0 <= i <= n,
                evs == rl_pairs_view(entries@),
                evs == if is_input {
                    self@.recipe.inputs
                } else {
                    self@.recipe.outputs
                },
                evs.len() == n,
                q_wf(acc@),
                q_eq(acc@, sum_qty(evs.take(i as int), index as int)),
                Some(acc@) == canon_sum_qty(evs.take(i as int), index as int),
            decreases n - i,
        {
            proof {
                broadcast use lemma_rat_view_wf;

                assert(evs.take(i + 1).drop_last() =~= evs.take(i as int));
                assert(evs.take(i + 1).last() == evs[i as int]);
                assert(evs[i as int] == (entries@[i as int].0@, entries@[i as int].1@));
                assert forall|m: int| 0 <= m < i + 1 implies q_wf(
                    (#[trigger] evs.take(i + 1)[m]).1,
                ) by {
                    assert(evs.take(i + 1)[m] == (entries@[m].0@, entries@[m].1@));
                }
                lemma_sum_qty_wf(evs.take(i as int), index as int);
                lemma_sum_qty_wf(evs.take(i + 1), index as int);
            }
            if entries[i].0.index == index {
                let acc2 = match acc.add(&entries[i].1) {
                    Some(a) => a,
                    None => {
                        proof {
                            assert(canon_sum_qty(evs.take(i + 1), index as int) is None);
                            lemma_canon_sum_none_extends(evs, i + 1, index as int);
                        }
                        return Err(AnalyzeError::Overflow);
                    },
                };
                proof {
                    assert(Some(acc2@) == canon_sum_qty(evs.take(i + 1), index as int));
                }
                proof {
                    lemma_q_add_wf(acc@, entries@[i as int].1@);
                    crate::rat::lemma_q_add_congr(
                        acc@,
                        sum_qty(evs.take(i as int), index as int),
                        entries@[i as int].1@,
                        entries@[i as int].1@,
                    );
                    lemma_q_eq_trans(
                        acc2@,
                        q_add(acc@, entries@[i as int].1@),
                        sum_qty(evs.take(i + 1), index as int),
                    );
                }
                acc = acc2;
            } else {
                proof {
                    assert(sum_qty(evs.take(i + 1), index as int) == sum_qty(
                        evs.take(i as int),
                        index as int,
                    ));
                }
            }
            i = i + 1;
        }
        proof {
            assert(evs.take(n as int) =~= evs);
        }
        Ok(acc)
    }
}

/// A row of zeros.
fn rat_row(n: usize) -> (r: Vec<Rat>)
    ensures
        r@.len() == n,
{
    let mut row: Vec<Rat> = Vec::new();
    let mut i: usize = 0;
    while i < n
        invariant
            0 <= i <= n,
            row@.len() == i,
        decreases n - i,
    {
        row.push(Rat::zero());
        i = i + 1;
    }
    row
}

/// A copy of a row.
fn copy_rats(v: &Vec<Rat>) -> (out: Vec<Rat>)
    ensures
        out@.len() == v@.len(),
{
    let n = v.len();
    let mut out: Vec<Rat> = Vec::new();
    let mut i: usize = 0;
    while i < n
        invariant
            n == v@.len(),
            0 <= i <= n,
            out@.len() == i,
        decreases n - i,
    {
        let q = v[i].clone();
        out.push(q);
        i = i + 1;
    }
    out
}

/// Solves a square system by exact elimination.  Only the lengths are
/// promised here; `Design::check_design` holds any returned candidate to
/// the balance model.
fn solve_system(rows0: Vec<Vec<Rat>>, rhs0: Vec<Rat>, n: usize) -> (r: Result<
    Vec<Rat>,
    AnalyzeError,
>)
    requires
        rows0@.len() == rhs0@.len(),
        forall|i: int| 0 <= i < rows0@.len() ==> (#[trigger] rows0@[i])@.len() == n,
    ensures
        match r {
            Ok(x) => x@.len() == n,
            Err(e) => e == AnalyzeError::NonSquare || e == AnalyzeError::Singular || e
                == AnalyzeError::Overflow,
        },
        rows0@.len() == n ==> r != Err::<Vec<Rat>, AnalyzeError>(AnalyzeError::NonSquare),
{
    let mut rows = rows0;
    let mut rhs = rhs0;
    if rows.len() != n {
        return Err(AnalyzeError::NonSquare);
    }
    let mut marked: Vec<bool> = Vec::new();
    let mut i: usize = 0;
    while i < n
        invariant
            0 <= i <= n,
            marked@.len() == i,
        decreases n - i,
    {
        marked.push(false);
        i = i + 1;
    }
    let mut pivot_rows: Vec<usize> = Vec::new();
    let mut k: usize = 0;
    while k < n
        invariant
            0 <= k <= n,
            rows@.len() == n,
            rhs@.len() == n,
            marked@.len() == n,
            pivot_rows@.len() == k,
            forall|m: int| 0 <= m < k ==> (#[trigger] pivot_rows@[m]) < n,
            forall|i: int| 0 <= i < n ==> (#[trigger] rows@[i])@.len() == n,
        decreases n - k,
    {
        // Find an unused row with a nonzero entry in this column.
        let mut p: usize = 0;
        let mut found: bool = false;
        let mut r: usize = 0;
        while r < n
            invariant
                0 <= r <= n,
                k < n,
                rows@.len() == n,
                marked@.len() == n,
                found ==> p < n,
                forall|i: int| 0 <= i < n ==> (#[trigger] rows@[i])@.len() == n,
            decreases n - r,
        {
            if !marked[r] && !rows[r][k].is_zero() {
                p = r;
                found = true;
                r = n;
            } else {
                r = r + 1;
            }
        }
        if !found {
            return Err(AnalyzeError::Singular);
        }
        marked.set(p, true);
        pivot_rows.push(p);
        let prow = copy_rats(&rows[p]);
        let prhs = rhs[p].clone();
        // Eliminate the column from every other row.
        let mut s: usize = 0;
        while s < n
            invariant
                0 <= s <= n,
                k < n,
                p < n,
                prow@.len() == n,
                rows@.len() == n,
                rhs@.len() == n,
                forall|i: int| 0 <= i < n ==> (#[trigger] rows@[i])@.len() == n,
            decreases n - s,
        {
            if s != p && !rows[s][k].is_zero() {
                let factor = match rows[s][k].div(&prow[k]) {
                    Some(f) => f,
                    None => {
                        return Err(AnalyzeError::Overflow);
                    },
                };
                let mut new_row: Vec<Rat> = Vec::new();
                let mut c: usize = 0;
                while c < n
                    invariant
                        0 <= c <= n,
                        k < n,
                        s < n,
                        p < n,
                        prow@.len() == n,
                        rows@.len() == n,
                        new_row@.len() == c,
                        forall|i: int| 0 <= i < n ==> (#[trigger] rows@[i])@.len() == n,
                    decreases n - c,
                {
                    let scaled = match factor.mul(&prow[c]) {
                        Some(v) => v,
                        None => {
                            return Err(AnalyzeError::Overflow);
                        },
                    };
                    let v = match rows[s][c].sub(&scaled) {
                        Some(v) => v,
                        None => {
                            return Err(AnalyzeError::Overflow);
                        },
                    };
                    new_row.push(v);
                    c = c + 1;
                }
                rows.set(s, new_row);
                let scaled = match factor.mul(&prhs) {
                    Some(v) => v,
                    None => {
                        return Err(AnalyzeError::Overflow);
                    },
                };
                let v = match rhs[s].sub(&scaled) {
                    Some(v) => v,
                    None => {
                        return Err(AnalyzeError::Overflow);
                    },
                };
                rhs.set(s, v);
            }
            s = s + 1;
        }
        k = k + 1;
    }
    // Each pivot row now isolates its column; read the solution off.
    let mut x: Vec<Rat> = Vec::new();
    let mut k2: usize = 0;
    while k2 < n
        invariant
            0 <= k2 <= n,
            x@.len() == k2,
            rows@.len() == n,
            rhs@.len() == n,
            pivot_rows@.len() == n,
            forall|m: int| 0 <= m < n ==> (#[trigger] pivot_rows@[m]) < n,
            forall|i: int| 0 <= i < n ==> (#[trigger] rows@[i])@.len() == n,
        decreases n - k2,
    {
        let pr = pivot_rows[k2];
        if rows[pr][k2].is_zero() {
            return Err(AnalyzeError::Singular);
        }
        let xk = match rhs[pr].div(&rows[pr][k2]) {
            Some(v) => v,
            None => {
                return Err(AnalyzeError::Overflow);
            },
        };
        x.push(xk);
        k2 = k2 + 1;
    }
    Ok(x)
}

impl Design {
    /// Assembles the dense system: one balance row per line, one closure
    /// row per internal line, and the normalization row.
    fn assemble(&self, anchor: usize) -> (r: Result<(Vec<Vec<Rat>>, Vec<Rat>), AnalyzeError>)
        requires
            dwf(self@),
            rates_defined(self@),
            anchor < self@.next_index,
        ensures
            match r {
                Ok(sys) => sys.0@.len() == sys.1@.len() && sys.0@.len() == self@.lines.len()
                    + internal_count(self@) + 1 && forall|i: int|
                    0 <= i < sys.0@.len() ==> (#[trigger] sys.0@[i])@.len() == self@.next_index,
                Err(e) => e == AnalyzeError::Overflow,
            },
    {
        let ghost d = self@;
        let n = self.next_index;
        let mut rows: Vec<Vec<Rat>> = Vec::new();
        let mut rhs: Vec<Rat> = Vec::new();
        let ln = self.resource_lines.len();
        let bn = self.buildings.len();
        let mut k: usize = 0;
        while k < ln
            invariant
                d == self@,
                dwf(d),
                n == self@.next_index,
                ln == self.resource_lines@.len(),
                bn == self.buildings@.len(),
                rates_defined(d),
                0 <= k <= ln,
                rows@.len() == rhs@.len(),
                rows@.len() == k,
                forall|i: int| 0 <= i < rows@.len() ==> (#[trigger] rows@[i])@.len() == n,
            decreases ln - k,
        {
            let mut row = rat_row(n);
            proof {
                assert(d.lines[k as int].index == self.resource_lines@[k as int].index as int);
            }
            row.set(self.resource_lines[k].index, Rat::one());
            let mut b: usize = 0;
            while b < bn
                invariant
                    d == self@,
                    dwf(d),
                    n == self@.next_index,
                    k < self.resource_lines@.len(),
                    bn == self.buildings@.len(),
                    rates_defined(d),
                    0 <= b <= bn,
                    row@.len() == n,
                decreases bn - b,
            {
                proof {
                    assert(d.buildings[b as int].index == self.buildings@[b as int].index as int);
                }
                let c = match self.buildings[b].analysis_coefficient(
                    self.resource_lines[k].index,
                ) {
                    Ok(c) => c,
                    Err(e) => {
                        proof {
                            // A zero rate is excluded by the requires, so
                            // the only failure left is the machine range.
                            assert(!rates_zero(d.buildings[b as int]));
                        }
                        return Err(e);
                    },
                };
                row.set(self.buildings[b].index, c);
                b = b + 1;
            }
            rows.push(row);
            rhs.push(Rat::zero());
            k = k + 1;
        }
        // Closure rows: internal lines must net to zero.
        let mut k2: usize = 0;
        while k2 < ln
            invariant
                d == self@,
                dwf(d),
                n == self@.next_index,
                ln == self.resource_lines@.len(),
                d.lines.len() == ln,
                0 <= k2 <= ln,
                rows@.len() == rhs@.len(),
                rows@.len() == ln + internal_count_upto(d, k2 as int),
                forall|i: int| 0 <= i < rows@.len() ==> (#[trigger] rows@[i])@.len() == n,
            decreases ln - k2,
        {
            let l = &self.resource_lines[k2];
            proof {
                assert(l.name@ == d.lines[k2 as int].name);
            }
            if !name_in(&self.input_lines, &l.name) && !name_in(&self.output_lines, &l.name) {
                let mut row = rat_row(n);
                proof {
                    assert(d.lines[k2 as int].index == self.resource_lines@[k2 as int].index
                        as int);
                    assert(is_internal(d, d.lines[k2 as int]));
                }
                row.set(l.index, Rat::one());
                rows.push(row);
                rhs.push(Rat::zero());
            } else {
                proof {
                    assert(!is_internal(d, d.lines[k2 as int]));
                }
            }
            k2 = k2 + 1;
        }
        // Normalization row.
        let mut row = rat_row(n);
        row.set(anchor, Rat::one());
        rows.push(row);
        rhs.push(self.normalized_value.clone());
        Ok((rows, rhs))
    }

    /// Checks a candidate solution against every equation of the balance
    /// model.
    fn check_design(&self, x: &Vec<Rat>) -> (r: Result<(), AnalyzeError>)
        requires
            dwf(self@),
            self@.normalized_var is Some,
        ensures
            r is Ok ==> design_satisfied(self@, vals_view(x@)),
            r != Err::<(), AnalyzeError>(AnalyzeError::NoNormalization),
            rates_defined(self@) ==> (r is Ok || r == Err::<(), AnalyzeError>(
                AnalyzeError::Singular,
            ) || r == Err::<(), AnalyzeError>(AnalyzeError::Overflow)),
    {
        broadcast use lemma_rat_view_wf;

        let ghost d = self@;
        let ghost xv = vals_view(x@);
        let n = self.next_index;
        if x.len() != n {
            return Err(AnalyzeError::Singular);
        }
        proof {
            assert forall|j: int| 0 <= j < xv.len() implies q_wf(#[trigger] xv[j]) by {
                assert(xv[j] == x@[j]@);
            }
        }
        // Rates are defined for every unit.
        let bn = self.buildings.len();
        let mut bi: usize = 0;
        while bi < bn
            invariant
                d == self@,
                dwf(d),
                bn == self.buildings@.len(),
                0 <= bi <= bn,
                forall|m: int|
                    0 <= m < bi ==> !q_is_zero(effective_speed(#[trigger] d.buildings[m]))
                        && !q_is_zero(d.buildings[m].recipe.time),
            decreases bn - bi,
        {
            match self.buildings[bi].effective_time_rat() {
                Ok(_) => {},
                Err(e) => {
                    proof {
                        if rates_defined(d) {
                            assert(!rates_zero(d.buildings[bi as int]));
                            assert(d.buildings[bi as int] == self.buildings@[bi as int]@);
                        }
                    }
                    return Err(e);
                },
            }
            bi = bi + 1;
        }
        assert(rates_defined(d));
        // Balance and closure per line.
        let ln = self.resource_lines.len();
        let mut k: usize = 0;
        while k < ln
            invariant
                d == self@,
                dwf(d),
                rates_defined(d),
                n == self@.next_index,
                x@.len() == n,
                xv == vals_view(x@),
                xv.len() == n,
                forall|j: int| 0 <= j < xv.len() ==> q_wf(#[trigger] xv[j]),
                ln == self.resource_lines@.len(),
                bn == self.buildings@.len(),
                0 <= k <= ln,
                forall|m: int| 0 <= m < k ==> balance_holds(d, #[trigger] d.lines[m], xv),
                forall|m: int|
                    0 <= m < k && is_internal(d, #[trigger] d.lines[m]) ==> q_eq(
                        xv[d.lines[m].index],
                        q_int(0),
                    ),
            decreases ln - k,
        {
            let l = &self.resource_lines[k];
            let ghost lv = d.lines[k as int];
            let ghost idx = lv.index;
            proof {
                assert(lv.index == l.index as int);
                assert(0 <= idx < n);
            }
            let mut acc = x[l.index].clone();
            proof {
                assert(acc@ == xv[idx]);
                assert(d.buildings.take(0) =~= Seq::<BuildingV>::empty());
            }
            let mut b: usize = 0;
            while b < bn
                invariant
                    d == self@,
                    dwf(d),
                    rates_defined(d),
                    n == self@.next_index,
                    x@.len() == n,
                    xv == vals_view(x@),
                    xv.len() == n,
                    forall|j: int| 0 <= j < xv.len() ==> q_wf(#[trigger] xv[j]),
                    k < self.resource_lines@.len(),
                    lv == d.lines[k as int],
                    idx == lv.index,
                    0 <= idx < n,
                    l == &self.resource_lines[k as int],
                    bn == self.buildings@.len(),
                    0 <= b <= bn,
                    q_wf(acc@),
                    q_eq(acc@, contrib_fold(d.buildings.take(b as int), idx, xv, xv[idx])),
                decreases bn - b,
            {
                broadcast use lemma_rat_view_wf;

                let ghost bv = d.buildings[b as int];
                proof {
                    assert(bv.index == self.buildings@[b as int].index as int);
                    assert(0 <= bv.index < n);
                }
                let c = match self.buildings[b].analysis_coefficient(l.index) {
                    Ok(c) => c,
                    Err(e) => {
                        return Err(e);
                    },
                };
                let term = match c.mul(&x[self.buildings[b].index]) {
                    Some(t) => t,
                    None => {
                        return Err(AnalyzeError::Overflow);
                    },
                };
                let acc2 = match acc.add(&term) {
                    Some(a) => a,
                    None => {
                        return Err(AnalyzeError::Overflow);
                    },
                };
                proof {
                    let fold_b = contrib_fold(d.buildings.take(b as int), idx, xv, xv[idx]);
                    let uc = unit_coeff(bv, idx);
                    let xb = xv[bv.index];
                    assert(x@[bv.index]@ == xb);
                    lemma_unit_coeff_wf(bv, idx);
                    lemma_q_add_wf(c@, xb);
                    lemma_q_mul_congr(c@, uc, xb, xb);
                    lemma_q_add_wf(uc, xb);
                    lemma_q_eq_trans(term@, q_mul(c@, xb), q_mul(uc, xb));
                    assert forall|i: int|
                        0 <= i < d.buildings.take(b as int).len() implies crate::design::bwf(
                        #[trigger] d.buildings.take(b as int)[i],
                    ) && !q_is_zero(effective_speed(d.buildings.take(b as int)[i])) && !q_is_zero(
                        d.buildings.take(b as int)[i].recipe.time,
                    ) && 0 <= d.buildings.take(b as int)[i].index < xv.len() by {
                        assert(d.buildings.take(b as int)[i] == d.buildings[i]);
                    }
                    lemma_contrib_fold_wf(d.buildings.take(b as int), idx, xv, xv[idx]);
                    lemma_q_add_wf(fold_b, q_mul(uc, xb));
                    crate::rat::lemma_q_add_congr(acc@, fold_b, term@, q_mul(uc, xb));
                    lemma_q_add_wf(acc@, term@);
                    assert(d.buildings.take(b + 1).drop_last() =~= d.buildings.take(b as int));
                    assert(d.buildings.take(b + 1).last() == bv);
                    lemma_q_eq_trans(
                        acc2@,
                        q_add(acc@, term@),
                        contrib_fold(d.buildings.take(b + 1), idx, xv, xv[idx]),
                    );
                }
                acc = acc2;
                b = b + 1;
            }
            proof {
                assert(d.buildings.take(bn as int) =~= d.buildings);
            }
            let ghost fold_all = contrib_fold(d.buildings, idx, xv, xv[idx]);
            proof {
                assert forall|i: int|
                    0 <= i < d.buildings.len() implies crate::design::bwf(#[trigger] d.buildings[i])
                    && !q_is_zero(effective_speed(d.buildings[i])) && !q_is_zero(
                    d.buildings[i].recipe.time,
                ) && 0 <= d.buildings[i].index < xv.len() by {}
                lemma_contrib_fold_wf(d.buildings, idx, xv, xv[idx]);
                lemma_q_eq_zero(acc@, fold_all);
            }
            if !acc.is_zero() {
                return Err(AnalyzeError::Singular);
            }
            proof {
                assert(q_is_zero(fold_all));
                assert(balance_holds(d, lv, xv));
            }
            let internal = !name_in(&self.input_lines, &l.name) && !name_in(
                &self.output_lines,
                &l.name,
            );
            proof {
                assert(l.name@ == lv.name);
                assert(internal == is_internal(d, lv));
            }
            if internal {
                if !x[l.index].is_zero() {
                    return Err(AnalyzeError::Singular);
                }
                proof {
                    assert(q_is_zero(xv[idx]));
                }
            }
            k = k + 1;
        }
        // Normalization.
        match self.normalized_var {
            Some(v) => {
                proof {
                    let w = choose|i: int|
                        0 <= i < d.lines.len() && (#[trigger] d.lines[i]).index == v as int;
                    assert(0 <= v < n);
                }
                if !x[v].eq_rat(&self.normalized_value) {
                    return Err(AnalyzeError::Singular);
                }
                proof {
                    assert(q_eq(xv[v as int], d.normalized_value));
                }
            },
            None => {
                return Err(AnalyzeError::Singular);
            },
        }
        Ok(())
    }

    /// Computes the unique steady state: one activity level per unit and
    /// one signed net rate per resource line, indexed by the shared
    /// variable index.  A returned vector satisfies every balance,
    /// closure and normalization equation exactly.  A design with no
    /// declared output has no anchor and fails with `NoNormalization`; a
    /// unit with a zero base time or zero effective speed fails with
    /// `ZeroRate`; a system whose row count differs from its variable
    /// count fails with `NonSquare` -- each exactly.  What remains is
    /// `Singular` when the elimination finds no pivot or the candidate
    /// fails an equation, and `Overflow` when an exact value leaves the
    /// machine range.
    pub fn analyze(&self) -> (r: Result<Vec<Rat>, AnalyzeError>)
        requires
            dwf(self@),
        ensures
            match r {
                Ok(x) => x@.len() == self@.next_index && design_satisfied(self@, vals_view(x@)),
                Err(e) => e == AnalyzeError::NoNormalization || e == AnalyzeError::ZeroRate || e
                    == AnalyzeError::NonSquare || e == AnalyzeError::Singular || e
                    == AnalyzeError::Overflow,
            },
            r == Err::<Vec<Rat>, AnalyzeError>(AnalyzeError::NoNormalization)
                <==> self@.normalized_var is None,
            r == Err::<Vec<Rat>, AnalyzeError>(AnalyzeError::ZeroRate) <==> self@.normalized_var
                is Some && !rates_defined(self@),
            r == Err::<Vec<Rat>, AnalyzeError>(AnalyzeError::NonSquare) <==> self@.normalized_var
                is Some && rates_defined(self@) && self@.lines.len() + internal_count(self@) + 1
                != self@.next_index,
    {
        let ghost d = self@;
        let anchor = match self.normalized_var {
            Some(v) => v,
            None => {
                return Err(AnalyzeError::NoNormalization);
            },
        };
        // Rates first: a zero rate is reported whatever else is wrong.
        let bn = self.buildings.len();
        let mut bi: usize = 0;
        while bi < bn
            invariant
                d == self@,
                d.normalized_var is Some,
                bn == self.buildings@.len(),
                0 <= bi <= bn,
                forall|m: int| 0 <= m < bi ==> !rates_zero(#[trigger] d.buildings[m]),
            decreases bn - bi,
        {
            if building_rates_zero(&self.buildings[bi]) {
                proof {
                    assert(rates_zero(d.buildings[bi as int]));
                    assert(!rates_defined(d));
                }
                return Err(AnalyzeError::ZeroRate);
            }
            bi = bi + 1;
        }
        proof {
            assert(rates_defined(d));
        }
        // Then shape: the row count must match the variable count.
        let ln = self.resource_lines.len();
        let mut internal: usize = 0;
        let mut k: usize = 0;
        while k < ln
            invariant
                d == self@,
                ln == self.resource_lines@.len(),
                d.lines.len() == ln,
                0 <= k <= ln,
                internal <= k,
                internal as int == internal_count_upto(d, k as int),
            decreases ln - k,
        {
            let l = &self.resource_lines[k];
            proof {
                assert(l.name@ == d.lines[k as int].name);
            }
            if !name_in(&self.input_lines, &l.name) && !name_in(&self.output_lines, &l.name) {
                proof {
                    assert(is_internal(d, d.lines[k as int]));
                }
                internal = internal + 1;
            } else {
                proof {
                    assert(!is_internal(d, d.lines[k as int]));
                }
            }
            k = k + 1;
        }
        if (ln as u128) + (internal as u128) + 1 != (self.next_index as u128) {
            return Err(AnalyzeError::NonSquare);
        }
        proof {
            let w = choose|i: int|
                0 <= i < d.lines.len() && (#[trigger] d.lines[i]).index == anchor as int;
            assert(anchor < self@.next_index);
        }
        let (rows, rhs) = match self.assemble(anchor) {
            Ok(sys) => sys,
            Err(e) => {
                return Err(e);
            },
        };
        let x = match solve_system(rows, rhs, self.next_index) {
            Ok(x) => x,
            Err(e) => {
                return Err(e);
            },
        };
        match self.check_design(&x) {
            Ok(_) => Ok(x),
            Err(e) => Err(e),
        }
    }
}


/// Whether a recipe reads or writes the line with this index.
pub open spec fn recipe_mentions(r: crate::design::RecipeV, idx: int) -> bool {
    (exists|i: int| 0 <= i < r.inputs.len() && (#[trigger] r.inputs[i]).0.index == idx) || (
    exists|i: int| 0 <= i < r.outputs.len() && (#[trigger] r.outputs[i]).0.index == idx)
}

/// A side that never names the line contributes no quantity to it.
proof fn lemma_sum_qty_unmatched(entries: Seq<(LineV, Q)>, idx: int)
    requires
        forall|i: int| 0 <= i < entries.len() ==> (#[trigger] entries[i]).0.index != idx,
    ensures
        sum_qty(entries, idx) == q_int(0),
    decreases entries.len(),
{
    if entries.len() > 0 {
        assert forall|i: int|
            0 <= i < entries.drop_last().len() implies (#[trigger] entries.drop_last()[i]).0.index
            != idx by {
            assert(entries.drop_last()[i] == entries[i]);
        }
        lemma_sum_qty_unmatched(entries.drop_last(), idx);
    }
}

/// A unit whose recipe never names the line has a zero coefficient for
/// it.
proof fn lemma_unit_coeff_untouched(b: BuildingV, idx: int)
    requires
        crate::design::bwf(b),
        !q_is_zero(effective_speed(b)),
        !q_is_zero(b.recipe.time),
        !recipe_mentions(b.recipe, idx),
    ensures
        q_wf(unit_coeff(b, idx)),
        q_is_zero(unit_coeff(b, idx)),
{
    lemma_unit_coeff_wf(b, idx);
    assert forall|i: int| 0 <= i < b.recipe.inputs.len() implies (
    #[trigger] b.recipe.inputs[i]).0.index != idx by {}
    assert forall|i: int| 0 <= i < b.recipe.outputs.len() implies (
    #[trigger] b.recipe.outputs[i]).0.index != idx by {}
    lemma_sum_qty_unmatched(b.recipe.inputs, idx);
    lemma_sum_qty_unmatched(b.recipe.outputs, idx);
    let si = sum_qty(b.recipe.inputs, idx);
    let so = sum_qty(b.recipe.outputs, idx);
    let pf = prod_factor(b.modules);
    let m = q_mul(so, pf);
    assert(m.num == 0) by (nonlinear_arith)
        requires
            so.num == 0,
            m.num == so.num * pf.num,
    ;
    let s = q_sub(si, m);
    assert(s.num == 0) by (nonlinear_arith)
        requires
            si.num == 0,
            m.num == 0,
            s.num == si.num * m.den + (-m.num) * si.den,
    ;
    let et = effective_time(b);
    assert(s.num * et.den == 0) by (nonlinear_arith)
        requires
            s.num == 0,
    ;
    assert(-(s.num * et.den) == 0);
}

/// Folding only zero contributions preserves the base's zero-ness.
proof fn lemma_fold_untouched(bs: Seq<BuildingV>, idx: int, x: Seq<Q>, base: Q)
    requires
        q_wf(base),
        forall|j: int| 0 <= j < x.len() ==> q_wf(#[trigger] x[j]),
        forall|i: int|
            0 <= i < bs.len() ==> crate::design::bwf(#[trigger] bs[i]) && !q_is_zero(
                effective_speed(bs[i]),
            ) && !q_is_zero(bs[i].recipe.time) && 0 <= bs[i].index < x.len() && !recipe_mentions(
                bs[i].recipe,
                idx,
            ),
    ensures
        q_wf(contrib_fold(bs, idx, x, base)),
        q_is_zero(contrib_fold(bs, idx, x, base)) <==> q_is_zero(base),
    decreases bs.len(),
{
    if bs.len() > 0 {
        assert forall|i: int|
            0 <= i < bs.drop_last().len() implies crate::design::bwf(#[trigger] bs.drop_last()[i])
            && !q_is_zero(effective_speed(bs.drop_last()[i])) && !q_is_zero(
            bs.drop_last()[i].recipe.time,
        ) && 0 <= bs.drop_last()[i].index < x.len() && !recipe_mentions(
            bs.drop_last()[i].recipe,
            idx,
        ) by {
            assert(bs.drop_last()[i] == bs[i]);
        }
        lemma_fold_untouched(bs.drop_last(), idx, x, base);
        let b = bs.last();
        lemma_unit_coeff_untouched(b, idx);
        let uc = unit_coeff(b, idx);
        let xb = x[b.index];
        let term = q_mul(uc, xb);
        let prev = contrib_fold(bs.drop_last(), idx, x, base);
        crate::rat::lemma_q_add_wf(uc, xb);
        crate::rat::lemma_q_add_wf(prev, term);
        assert(term.num == uc.num * xb.num);
        assert(uc.num * xb.num == 0) by (nonlinear_arith)
            requires
                uc.num == 0,
        ;
        assert(contrib_fold(bs, idx, x, base).num == prev.num * term.den + term.num * prev.den);
        assert(term.num * prev.den == 0) by (nonlinear_arith)
            requires
                term.num == 0,
        ;
        vstd::arithmetic::mul::lemma_mul_nonzero(prev.num, term.den);
    }
}

/// A design whose normalization anchor is a line that no unit reads or
/// writes admits no solution at all: its balance equation forces the
/// anchor to zero while the normalization equation pins it to a nonzero
/// value.  `analyze` only ever returns vectors that satisfy the balance
/// model, so on such a design it must surface an analysis error.
pub proof fn lemma_untouched_anchor_unsolvable(d: DesignV)
    requires
        dwf(d),
        d.normalized_var is Some,
        !q_is_zero(d.normalized_value),
        forall|i: int|
            0 <= i < d.buildings.len() ==> !recipe_mentions(
                (#[trigger] d.buildings[i]).recipe,
                d.normalized_var->0,
            ),
    ensures
        forall|x: Seq<Q>| !design_satisfied(d, x),
{
    let v = d.normalized_var->0;
    assert forall|x: Seq<Q>| !design_satisfied(d, x) by {
        if design_satisfied(d, x) {
            let w = choose|i: int|
                0 <= i < d.lines.len() && (#[trigger] d.lines[i]).index == v;
            let lv = d.lines[w];
            assert(balance_holds(d, lv, x));
            assert forall|i: int|
                0 <= i < d.buildings.len() implies crate::design::bwf(#[trigger] d.buildings[i])
                && !q_is_zero(effective_speed(d.buildings[i])) && !q_is_zero(
                d.buildings[i].recipe.time,
            ) && 0 <= d.buildings[i].index < x.len() && !recipe_mentions(
                d.buildings[i].recipe,
                v,
            ) by {}
            lemma_fold_untouched(d.buildings, v, x, x[v]);
            let fold_all = contrib_fold(d.buildings, v, x, x[v]);
            // The balance equation makes the fold, hence the anchor, zero.
            assert(q_eq(fold_all, q_int(0)));
            assert(fold_all.num * 1 == 0 * fold_all.den);
            assert(0 * fold_all.den == 0) by (nonlinear_arith);
            assert(fold_all.num * 1 == fold_all.num) by (nonlinear_arith);
            assert(q_is_zero(x[v]));
            // The normalization equation pins it to a nonzero value.
            assert(q_eq(x[v], d.normalized_value));
            assert(x[v].num * d.normalized_value.den == d.normalized_value.num * x[v].den);
            assert(x[v].num * d.normalized_value.den == 0) by (nonlinear_arith)
                requires
                    x[v].num == 0,
            ;
            vstd::arithmetic::mul::lemma_mul_nonzero(d.normalized_value.num, x[v].den);
            assert(false);
        }
    }
}

} // verus!
