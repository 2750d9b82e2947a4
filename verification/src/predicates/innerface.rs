//! Choose the degrees of the faces around the inner face: one round per color picks the
//! number of colors of the face that lacks only that color; the last round checks the
//! sum and canonicality, then restricts those faces to cycles of the chosen lengths.

use crate::context::SearchContext;
use crate::context::dynamic::{slot_value, target_valid};
use crate::engine::{Predicate, PredicateResult};
use crate::geometry::constants::{NCOLORS, TOTAL_CENTRAL_NEIGHBOR_DEGREE};
use crate::geometry::constants::{NCYCLES, NFACES};
use crate::propagation::cascade::choice_settled;
use crate::propagation::setup::{neighbor_fits, neighbor_settled, setup_central_face};
use crate::state::faces::spec_encode_index;
use crate::symmetry::s6::{check_symmetry, spec_symmetry, SymmetryType};
use crate::trail::{Target, TRAIL_MAX_SIZE};
use vstd::prelude::*;

verus! {

/// The inner-face degrees predicate.
#[derive(Debug)]
pub struct InnerFacePredicate;

/// The sum of the chosen degrees.
pub open spec fn degree_sum(d: Seq<u64>) -> int {
    d[0] + d[1] + d[2] + d[3] + d[4] + d[5]
}

/// The chosen degrees, each cut to its low byte.
pub open spec fn degree_bytes(d: Seq<u64>) -> Seq<u8> {
    Seq::new(NCOLORS as nat, |i: int| d[i] as u8)
}

impl Predicate for InnerFacePredicate {
    /// Rounds 0 to NCOLORS - 1 offer NCOLORS - 2 choices (degrees NCOLORS down to 3).
    /// Round NCOLORS fails unless the degrees sum to TOTAL_CENTRAL_NEIGHBOR_DEGREE and
    /// are canonical or equivocal; then the faces around the inner face are restricted to
    /// cycles of those lengths and the inner face's cycle is propagated, failing if that
    /// fails. It succeeds when those restrictions and that propagation have nothing left
    /// to do and the log has room.
    fn try_pred(&mut self, ctx: &mut SearchContext, round: usize) -> (r: PredicateResult)
        ensures
            round != NCOLORS ==> r == PredicateResult::Choices((NCOLORS - 2) as usize) && *final(ctx) == *old(ctx),
            round == NCOLORS ==> {
                let d = old(ctx).dynamic.spec_state().current_face_degrees@;
                &&& (degree_sum(d) != TOTAL_CENTRAL_NEIGHBOR_DEGREE || spec_symmetry(degree_bytes(d))
                    == SymmetryType::NonCanonical) ==> r == PredicateResult::Failure && *final(ctx) == *old(ctx)
                &&& r == PredicateResult::Success ==> degree_sum(d) == TOTAL_CENTRAL_NEIGHBOR_DEGREE && spec_symmetry(
                    degree_bytes(d),
                ) != SymmetryType::NonCanonical
                &&& r == PredicateResult::Success || r == PredicateResult::Failure
                &&& r == PredicateResult::Success ==> {
                    &&& forall|i: int| 0 <= i < NCOLORS ==> #[trigger] neighbor_fits(&old(ctx).dynamic, d, i)
                    &&& slot_value(final(ctx).dynamic.spec_state(), Target::CurrentCycle((NFACES - 1) as u16)) == spec_encode_index(
                        Some((NCYCLES - 1) as u64),
                    )
                }
                &&& (degree_sum(d) == TOTAL_CENTRAL_NEIGHBOR_DEGREE && spec_symmetry(degree_bytes(d)) != SymmetryType::NonCanonical
                    && (forall|i: int| 0 <= i < NCOLORS ==> #[trigger] neighbor_settled(&old(ctx).dynamic, d, i))
                    && old(ctx).dynamic.spec_entries().len() < TRAIL_MAX_SIZE) ==> slot_value(
                    final(ctx).dynamic.spec_state(),
                    Target::CurrentCycle((NFACES - 1) as u16),
                ) == spec_encode_index(Some((NCYCLES - 1) as u64))
                &&& (degree_sum(d) == TOTAL_CENTRAL_NEIGHBOR_DEGREE && spec_symmetry(degree_bytes(d)) != SymmetryType::NonCanonical
                    && (forall|i: int| 0 <= i < NCOLORS ==> #[trigger] neighbor_settled(&old(ctx).dynamic, d, i)) && choice_settled(
                    &old(ctx).dynamic,
                    (NFACES - 1) as usize,
                    (NCYCLES - 1) as int,
                ) && old(ctx).dynamic.spec_entries().len() + 11 <= TRAIL_MAX_SIZE) ==> r == PredicateResult::Success
            },
    {
        if round != NCOLORS {
            return PredicateResult::Choices(NCOLORS - 2);
        }
        let degrees = *ctx.get_face_degrees();
        let mut sum: u128 = 0;
        let mut i: usize = 0;
        while i < NCOLORS
            invariant
                i <= NCOLORS,
                degrees@ == ctx.dynamic.spec_state().current_face_degrees@,
                sum == (if i == 0 {
                    0
                } else if i == 1 {
                    degrees@[0] as int
                } else if i == 2 {
                    degrees@[0] + degrees@[1]
                } else if i == 3 {
                    degrees@[0] + degrees@[1] + degrees@[2]
                } else if i == 4 {
                    degrees@[0] + degrees@[1] + degrees@[2] + degrees@[3]
                } else if i == 5 {
                    degrees@[0] + degrees@[1] + degrees@[2] + degrees@[3] + degrees@[4]
                } else {
                    degree_sum(degrees@)
                }),
            decreases NCOLORS - i,
        {
            sum = sum + degrees[i] as u128;
            i = i + 1;
        }
        if sum != TOTAL_CENTRAL_NEIGHBOR_DEGREE as u128 {
            return PredicateResult::Failure;
        }
        let mut degrees_u8 = [0u8; 6];
        let mut j: usize = 0;
        while j < NCOLORS
            invariant
                j <= NCOLORS,
                forall|k: int| 0 <= k < j ==> #[trigger] degrees_u8@[k] == degrees@[k] as u8,
            decreases NCOLORS - j,
        {
            degrees_u8[j] = degrees[j] as u8;
            j = j + 1;
        }
        assert(degrees_u8@ =~= degree_bytes(degrees@));
        match check_symmetry(&degrees_u8) {
            SymmetryType::NonCanonical => PredicateResult::Failure,
            _ => {
                match setup_central_face(&ctx.memo, &mut ctx.dynamic, &degrees) {
                    Ok(()) => PredicateResult::Success,
                    Err(_) => PredicateResult::Failure,
                }
            },
        }
    }

    /// Choice c sets this round's degree to NCOLORS - c (recorded) and stays for the next
    /// round. A choice giving a degree below 3, a round beyond the colors, or a full log
    /// fails without a change.
    fn retry_pred(&mut self, ctx: &mut SearchContext, round: usize, choice: usize) -> (r: PredicateResult)
        ensures
            (choice <= NCOLORS - 3 && round < NCOLORS && old(ctx).dynamic.spec_entries().len() < TRAIL_MAX_SIZE) ==> {
                &&& r == PredicateResult::SuccessSamePredicate
                &&& slot_value(final(ctx).dynamic.spec_state(), Target::FaceDegree(round as u16)) == NCOLORS - choice
                &&& forall|u: Target| target_valid(u) && u != Target::FaceDegree(round as u16) ==> #[trigger] slot_value(
                    final(ctx).dynamic.spec_state(),
                    u,
                ) == slot_value(old(ctx).dynamic.spec_state(), u)
            },
            !(choice <= NCOLORS - 3 && round < NCOLORS && old(ctx).dynamic.spec_entries().len() < TRAIL_MAX_SIZE) ==> r
                == PredicateResult::Failure && *final(ctx) == *old(ctx),
    {
        if choice > NCOLORS - 3 || round >= NCOLORS || !ctx.dynamic.has_room(1) {
            return PredicateResult::Failure;
        }
        let degree = (NCOLORS - choice) as u64;
        ctx.set_face_degree(round, degree);
        PredicateResult::SuccessSamePredicate
    }

    fn name(&self) -> (r: &'static str)
        ensures
            r@ == "InnerFace"@,
    {
        "InnerFace"
    }
}

} // verus!
