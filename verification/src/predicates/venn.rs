//! The main search predicate: one round per face, choosing the face with the fewest
//! possible cycles and trying each of them, propagating each choice.

use crate::context::SearchContext;
use crate::context::dynamic::{slot_value, target_valid, DynamicState};
use crate::engine::{Predicate, PredicateResult};
use crate::geometry::bits::popcount;
use crate::geometry::constants::{NCOLORS, NCYCLES, NFACES};
use crate::geometry::cycle::CycleId;
use crate::geometry::cycle_set::CycleSet;
use crate::propagation::cascade::{choice_settled, lemma_choice_settled_frame, possible_of, propagate_cycle_choice};
use crate::propagation::setup::setup_central_face;
use crate::propagation::validation::{face_rings_ok, validate_face_cycles};
use crate::state::faces::{spec_decode_index, spec_encode_index};
use crate::symmetry::canonical::{all_faces_assigned, check_all_faces_assigned, check_solution_canonicality, order_ok, solution_degrees, spec_solution_symmetry};
use crate::symmetry::s6::SymmetryType;
use crate::trail::{Target, TRAIL_MAX_SIZE};
use vstd::prelude::*;

verus! {

/// The Venn search predicate: the face chosen in each round, and the face order used to
/// check canonicality of complete solutions, when one is given.
#[derive(Debug)]
pub struct VennPredicate {
    /// The face chosen in each round.
    pub faces_in_order: [usize; 64],
    /// The face order and its inverse for the canonicality check.
    pub face_order: Option<([usize; 64], [usize; 64])>,
}

/// Whether face `f` has no current cycle.
pub open spec fn unassigned(s: DynamicState, f: int) -> bool {
    spec_decode_index(s.faces.faces@[f].current_cycle_encoded) is None
}

/// Face `f` is the unassigned face with the fewest possible cycles (below the largest
/// u64), the first such face on ties.
pub open spec fn is_next_face(s: DynamicState, f: int) -> bool {
    &&& 0 <= f < NFACES
    &&& unassigned(s, f)
    &&& s.faces.faces@[f].cycle_count < u64::MAX
    &&& forall|g: int| 0 <= g < f && unassigned(s, g) ==> #[trigger] s.faces.faces@[g].cycle_count > s.faces.faces@[f].cycle_count
    &&& forall|g: int| f < g < NFACES && unassigned(s, g) ==> #[trigger] s.faces.faces@[g].cycle_count >= s.faces.faces@[f].cycle_count
}

/// No face is left to choose: each has a cycle, or the largest u64 as its count.
pub open spec fn no_next_face(s: DynamicState) -> bool {
    forall|g: int| 0 <= g < NFACES && unassigned(s, g) ==> #[trigger] s.faces.faces@[g].cycle_count == u64::MAX
}

/// The least possible cycle of a set above `current` (any, when there is no current one).
pub open spec fn is_next_cycle(set: CycleSet, current: Option<u64>, c: int) -> bool {
    let low: int = match current {
        Some(x) => x + 1,
        None => 0,
    };
    &&& low <= c < NCYCLES
    &&& set.has(c)
    &&& forall|m: int| low <= m < c ==> !#[trigger] set.has(m)
}

/// The unassigned face with the fewest possible cycles, the first on ties.
pub fn choose_next_face(ctx: &SearchContext) -> (r: Option<usize>)
    requires
        ctx.wf(),
    ensures
        r matches Some(f) ==> is_next_face(ctx.dynamic.spec_state(), f as int),
        r is None ==> no_next_face(ctx.dynamic.spec_state()),
{
    let ghost s = ctx.dynamic.spec_state();
    let state = ctx.state();
    let mut min_count = u64::MAX;
    let mut best_face: Option<usize> = None;
    let mut face_id: usize = 0;
    while face_id < NFACES
        invariant
            face_id <= NFACES,
            *state == s,
            s.wf(),
            best_face matches Some(b) ==> {
                &&& b < face_id
                &&& unassigned(s, b as int)
                &&& s.faces.faces@[b as int].cycle_count == min_count
                &&& forall|g: int| 0 <= g < b && unassigned(s, g) ==> #[trigger] s.faces.faces@[g].cycle_count > min_count
            },
            best_face is None ==> min_count == u64::MAX,
            best_face is Some ==> min_count < u64::MAX,
            forall|g: int| 0 <= g < face_id && unassigned(s, g) ==> #[trigger] s.faces.faces@[g].cycle_count >= min_count,
        decreases NFACES - face_id,
    {
        let face = &state.faces.faces[face_id];
        if face.current_cycle().is_none() && face.cycle_count < min_count {
            min_count = face.cycle_count;
            best_face = Some(face_id);
        }
        face_id = face_id + 1;
    }
    best_face
}

/// The least possible cycle of the face above `current` (the least one when there is
/// none); None when there is no such cycle.
pub fn choose_next_cycle(ctx: &SearchContext, face_id: usize, current: Option<u64>) -> (r: Option<CycleId>)
    requires
        ctx.wf(),
        face_id < NFACES,
    ensures
        ({
            let set = ctx.dynamic.spec_state().faces.faces@[face_id as int].possible_cycles;
            &&& r matches Some(c) ==> is_next_cycle(set, current, c as int)
            &&& r is None ==> forall|c: int| #![trigger set.has(c)] !is_next_cycle(set, current, c)
        }),
{
    let possible_cycles = ctx.get_face_possible_cycles(face_id);
    let start: u64 = match current {
        Some(c) => {
            if c >= NCYCLES as u64 {
                return None;
            }
            c + 1
        },
        None => 0,
    };
    let mut id = start;
    while id < NCYCLES as u64
        invariant
            start <= id <= NCYCLES,
            start == (match current {
                Some(x) => x + 1,
                None => 0int,
            }),
            forall|m: int| start <= m < id ==> !#[trigger] possible_cycles.has(m),
        decreases NCYCLES - id,
    {
        if possible_cycles.contains(id) {
            return Some(id);
        }
        id = id + 1;
    }
    None
}

impl VennPredicate {
    /// A predicate with no faces chosen yet and no face order (no canonicality check).
    pub fn new() -> (r: Self)
        ensures
            forall|i: int| 0 <= i < NFACES ==> #[trigger] r.faces_in_order@[i] == 0,
            r.face_order is None,
    {
        Self { faces_in_order: [0usize; 64], face_order: None }
    }

    /// A predicate that checks the canonicality of complete solutions with the given face
    /// order and its inverse.
    pub fn with_face_order(order: [usize; 64], inverse: [usize; 64]) -> (r: Self)
        ensures
            forall|i: int| 0 <= i < NFACES ==> #[trigger] r.faces_in_order@[i] == 0,
            r.face_order == Some((order, inverse)),
    {
        Self { faces_in_order: [0usize; 64], face_order: Some((order, inverse)) }
    }
}

impl Default for VennPredicate {
    fn default() -> (r: Self)
        ensures
            forall|i: int| 0 <= i < NFACES ==> #[trigger] r.faces_in_order@[i] == 0,
            r.face_order is None,
    {
        Self::new()
    }
}

impl Predicate for VennPredicate {
    /// Round 0 first sets up the inner face if it has no cycle (failing if that fails),
    /// and, with a face order, fails a complete non-canonical solution. Then the
    /// unassigned face with the fewest possible cycles is chosen for this round, its
    /// cycle is cleared (recorded), and its possible cycles are offered as choices. With
    /// no face left, the solution is validated: success or failure.
    fn try_pred(&mut self, ctx: &mut SearchContext, round: usize) -> (r: PredicateResult)
        ensures
            r is Choices ==> {
                let f = final(self).faces_in_order@[round as int];
                &&& round < NFACES
                &&& final(self).faces_in_order@ == old(self).faces_in_order@.update(round as int, f)
                &&& unassigned(final(ctx).dynamic.spec_state(), f as int)
                &&& r == PredicateResult::Choices(final(ctx).dynamic.spec_state().faces.faces@[f as int].cycle_count as usize)
            },
            r is Success || r is Failure || r is Choices,
            ({
                let s = old(ctx).dynamic.spec_state();
                let inner_set = slot_value(s, Target::CurrentCycle((NFACES - 1) as u16)) != 0;
                let rejected = old(self).face_order matches Some((o, inv)) && all_faces_assigned(s) && order_ok(o@, inv@)
                    && spec_solution_symmetry(solution_degrees(s, o@), o@, inv@) == SymmetryType::NonCanonical;
                let plain = round != 0 || (inner_set && !rejected);
                let room = round < NFACES && old(ctx).dynamic.spec_entries().len() < TRAIL_MAX_SIZE;
                &&& round == 0 && inner_set && rejected ==> r == PredicateResult::Failure && *final(ctx) == *old(ctx)
                &&& round == 0 && !inner_set ==> r == PredicateResult::Failure || slot_value(
                    final(ctx).dynamic.spec_state(),
                    Target::CurrentCycle((NFACES - 1) as u16),
                ) == spec_encode_index(Some((NCYCLES - 1) as u64))
                &&& plain && (exists|f: int| #[trigger] is_next_face(s, f)) && room ==> r is Choices && is_next_face(
                    s,
                    final(self).faces_in_order@[round as int] as int,
                )
                &&& plain && (exists|f: int| #[trigger] is_next_face(s, f)) && !room ==> r == PredicateResult::Failure && *final(ctx)
                    == *old(ctx)
                &&& plain && no_next_face(s) ==> *final(ctx) == *old(ctx) && (r is Success || r is Failure) && (r is Success ==> forall|g: int|
                    0 <= g < NFACES && 0 < popcount(g as u64) < NCOLORS ==> (#[trigger] s.faces.faces@[g]).next_face_id_encoded != 0)
                &&& plain && no_next_face(s) ==> (r is Success <==> face_rings_ok(s))
            }),
    {
        if round == 0 {
            let inner_face_id = NFACES - 1;
            if ctx.state().faces.faces[inner_face_id].current_cycle().is_none() {
                let no_restrictions = [0u64; 6];
                if setup_central_face(&ctx.memo, &mut ctx.dynamic, &no_restrictions).is_err() {
                    return PredicateResult::Failure;
                }
            }
            match self.face_order {
                Some((order, inverse)) => {
                    if check_all_faces_assigned(ctx.state()) && order_in_range(&order) && order_in_range(&inverse) {
                        match check_solution_canonicality(ctx.state(), &ctx.memo, &order, &inverse) {
                            SymmetryType::NonCanonical => {
                                return PredicateResult::Failure;
                            },
                            _ => {},
                        }
                    }
                },
                None => {},
            }
        }
        match choose_next_face(ctx) {
            Some(face_id) => {
                if round >= NFACES || !ctx.dynamic.has_room(1) {
                    return PredicateResult::Failure;
                }
                self.faces_in_order[round] = face_id;
                ctx.reset_face_cycle(face_id);
                let cycle_count = ctx.get_face_cycle_count(face_id);
                PredicateResult::Choices(cycle_count as usize)
            },
            None => {
                if validate_face_cycles(&ctx.memo, ctx.state()).is_err() {
                    return PredicateResult::Failure;
                }
                PredicateResult::Success
            },
        }
    }

    /// The face chosen in this round moves on to its next possible cycle (above the
    /// current one), set without recording so that the next retry continues from it; the
    /// choice is then propagated. Fails when there is no next cycle or propagation fails;
    /// succeeds when the next cycle's choice is settled and the log has room.
    fn retry_pred(&mut self, ctx: &mut SearchContext, round: usize, choice: usize) -> (r: PredicateResult)
        ensures
            ({
                let f = old(self).faces_in_order@[round as int] as int;
                let s = old(ctx).dynamic.spec_state();
                let has_next = round < NFACES && f < NFACES && exists|c: int| #[trigger] is_next_cycle(
                    s.faces.faces@[f].possible_cycles,
                    spec_decode_index(s.faces.faces@[f].current_cycle_encoded),
                    c,
                );
                &&& !has_next ==> r == PredicateResult::Failure && *final(ctx) == *old(ctx)
                &&& has_next ==> (spec_decode_index(final(ctx).dynamic.spec_state().faces.faces@[f].current_cycle_encoded) matches Some(
                    x,
                ) && is_next_cycle(
                    s.faces.faces@[f].possible_cycles,
                    spec_decode_index(s.faces.faces@[f].current_cycle_encoded),
                    x as int,
                ))
                &&& r is SuccessSamePredicate || r is Failure
                &&& has_next ==> forall|x: int|
                    #![trigger is_next_cycle(s.faces.faces@[f].possible_cycles, spec_decode_index(s.faces.faces@[f].current_cycle_encoded), x)]
                    is_next_cycle(s.faces.faces@[f].possible_cycles, spec_decode_index(s.faces.faces@[f].current_cycle_encoded), x)
                        && choice_settled(&old(ctx).dynamic, f as usize, x) && old(ctx).dynamic.spec_entries().len() + 10 <= TRAIL_MAX_SIZE
                        ==> r == PredicateResult::SuccessSamePredicate
                &&& r == PredicateResult::SuccessSamePredicate ==> (spec_decode_index(
                    final(ctx).dynamic.spec_state().faces.faces@[f].current_cycle_encoded,
                ) matches Some(x) && forall|c: int| #[trigger] possible_of(&final(ctx).dynamic, f).has(c) ==> c == x)
            }),
    {
        if round >= NFACES {
            return PredicateResult::Failure;
        }
        let face_id = self.faces_in_order[round];
        if face_id >= NFACES {
            return PredicateResult::Failure;
        }
        let current_cycle = ctx.state().faces.faces[face_id].current_cycle();
        let next_cycle = match choose_next_cycle(ctx, face_id, current_cycle) {
            Some(c) => c,
            None => {
                return PredicateResult::Failure;
            },
        };
        let ghost before_cursor = ctx.dynamic;
        ctx.set_retry_cursor_untrailed(face_id, Some(next_cycle));
        let ghost after_cursor = ctx.dynamic;
        proof {
            let set = before_cursor.spec_state().faces.faces@[face_id as int].possible_cycles;
            assert forall|x: int|
                #![trigger is_next_cycle(set, current_cycle, x)]
                is_next_cycle(set, current_cycle, x) && choice_settled(&before_cursor, face_id, x) implies choice_settled(
                &after_cursor,
                face_id,
                x,
            ) by {
                if x < next_cycle {
                    assert(!set.has(x));
                } else if x > next_cycle {
                    assert(!set.has(next_cycle as int));
                }
                lemma_choice_settled_frame(&ctx.memo, &before_cursor, &after_cursor, face_id, x);
            }
        }
        let propagated = propagate_cycle_choice(&ctx.memo, &mut ctx.dynamic, face_id, next_cycle, 0);
        proof {
            assert(slot_value(after_cursor.spec_state(), Target::CurrentCycle(face_id as u16)) == next_cycle + 1);
            assert(slot_value(ctx.dynamic.spec_state(), Target::CurrentCycle(face_id as u16)) == slot_value(
                after_cursor.spec_state(),
                Target::CurrentCycle(face_id as u16),
            ));
        }
        if propagated.is_err() {
            return PredicateResult::Failure;
        }
        PredicateResult::SuccessSamePredicate
    }

    fn name(&self) -> (r: &'static str)
        ensures
            r@ == "Venn"@,
    {
        "Venn"
    }
}

/// Whether every entry of a face order is a face id.
fn order_in_range(order: &[usize; 64]) -> (r: bool)
    ensures
        r == forall|i: int| 0 <= i < NFACES ==> #[trigger] order@[i] < NFACES,
{
    let mut i: usize = 0;
    while i < NFACES
        invariant
            i <= NFACES,
            forall|k: int| 0 <= k < i ==> #[trigger] order@[k] < NFACES,
        decreases NFACES - i,
    {
        if order[i] >= NFACES {
            return false;
        }
        i = i + 1;
    }
    true
}

} // verus!
