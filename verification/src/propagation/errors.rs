//! Why a propagation failed.

use crate::text::push_decimal;
use vstd::prelude::*;
use vstd::string::StringExecFns;

verus! {

/// Why a propagation failed.
#[derive(Debug, Clone, PartialEq, Eq, Structural)]
pub enum PropagationFailure {
    /// A face has no possible cycle left.
    NoMatchingCycles { face_id: usize, depth: usize },
    /// A face's assigned cycle is not among those a constraint allows.
    ConflictingConstraints { face_id: usize, assigned_cycle: u64, depth: usize },
    /// The propagation went deeper than the limit.
    DepthExceeded { depth: usize },
    /// Two curves cross more often than a pair of triangles can.
    CrossingLimitExceeded { color_i: usize, color_j: usize, count: usize, max_allowed: usize, depth: usize },
    /// A curve needs more corners than a triangle has.
    TooManyCorners { color: usize, corner_count: usize, max_allowed: usize, depth: usize },
    /// A curve forms more than one loop.
    DisconnectedCurve { color: usize, edges_visited: usize, total_edges: usize, depth: usize },
    /// The undo log is full, or a recorded count is at its largest value.
    LimitReached { depth: usize },
}

impl PropagationFailure {
    /// The number of kinds of failure.
    pub const COUNT: usize = 7;

    /// The message describing the failure.
    pub open spec fn message(&self) -> Seq<char> {
        match *self {
            PropagationFailure::NoMatchingCycles { face_id, depth } => "Face "@ + crate::text::decimal_digits(face_id as nat)
                + " has no matching cycles (depth "@ + crate::text::decimal_digits(depth as nat) + ")"@,
            PropagationFailure::ConflictingConstraints { face_id, assigned_cycle, depth } => "Face "@ + crate::text::decimal_digits(
                face_id as nat,
            ) + " assigned cycle "@ + crate::text::decimal_digits(assigned_cycle as nat) + " conflicts with constraints (depth "@
                + crate::text::decimal_digits(depth as nat) + ")"@,
            PropagationFailure::DepthExceeded { depth } => "Propagation depth "@ + crate::text::decimal_digits(depth as nat)
                + " exceeded max"@,
            PropagationFailure::CrossingLimitExceeded { color_i, color_j, count, max_allowed, depth } => "Colors "@
                + crate::text::decimal_digits(color_i as nat) + " and "@ + crate::text::decimal_digits(color_j as nat) + " cross "@
                + crate::text::decimal_digits(count as nat) + " times (max "@ + crate::text::decimal_digits(max_allowed as nat)
                + ") (depth "@ + crate::text::decimal_digits(depth as nat) + ")"@,
            PropagationFailure::TooManyCorners { color, corner_count, max_allowed, depth } => "Color "@ + crate::text::decimal_digits(
                color as nat,
            ) + " requires "@ + crate::text::decimal_digits(corner_count as nat) + " corners (max "@ + crate::text::decimal_digits(
                max_allowed as nat,
            ) + " for triangles) (depth "@ + crate::text::decimal_digits(depth as nat) + ")"@,
            PropagationFailure::DisconnectedCurve { color, edges_visited, total_edges, depth } => "Color "@
                + crate::text::decimal_digits(color as nat) + " curve is disconnected: visited "@ + crate::text::decimal_digits(
                edges_visited as nat,
            ) + " edges but "@ + crate::text::decimal_digits(total_edges as nat) + " total (depth "@ + crate::text::decimal_digits(
                depth as nat,
            ) + ")"@,
            PropagationFailure::LimitReached { depth } => "Undo log or recorded count at its limit (depth "@
                + crate::text::decimal_digits(depth as nat) + ")"@,
        }
    }

    /// The message describing the failure (what `Display` shows).
    pub fn to_display_string(&self) -> (r: String)
        ensures
            r@ == self.message(),
    {
        match self {
            PropagationFailure::NoMatchingCycles { face_id, depth } => {
                let mut s = String::from_str("Face ");
                push_decimal(&mut s, *face_id as u64);
                s.append(" has no matching cycles (depth ");
                push_decimal(&mut s, *depth as u64);
                s.append(")");
                s
            },
            PropagationFailure::ConflictingConstraints { face_id, assigned_cycle, depth } => {
                let mut s = String::from_str("Face ");
                push_decimal(&mut s, *face_id as u64);
                s.append(" assigned cycle ");
                push_decimal(&mut s, *assigned_cycle);
                s.append(" conflicts with constraints (depth ");
                push_decimal(&mut s, *depth as u64);
                s.append(")");
                s
            },
            PropagationFailure::DepthExceeded { depth } => {
                let mut s = String::from_str("Propagation depth ");
                push_decimal(&mut s, *depth as u64);
                s.append(" exceeded max");
                s
            },
            PropagationFailure::CrossingLimitExceeded { color_i, color_j, count, max_allowed, depth } => {
                let mut s = String::from_str("Colors ");
                push_decimal(&mut s, *color_i as u64);
                s.append(" and ");
                push_decimal(&mut s, *color_j as u64);
                s.append(" cross ");
                push_decimal(&mut s, *count as u64);
                s.append(" times (max ");
                push_decimal(&mut s, *max_allowed as u64);
                s.append(") (depth ");
                push_decimal(&mut s, *depth as u64);
                s.append(")");
                s
            },
            PropagationFailure::TooManyCorners { color, corner_count, max_allowed, depth } => {
                let mut s = String::from_str("Color ");
                push_decimal(&mut s, *color as u64);
                s.append(" requires ");
                push_decimal(&mut s, *corner_count as u64);
                s.append(" corners (max ");
                push_decimal(&mut s, *max_allowed as u64);
                s.append(" for triangles) (depth ");
                push_decimal(&mut s, *depth as u64);
                s.append(")");
                s
            },
            PropagationFailure::DisconnectedCurve { color, edges_visited, total_edges, depth } => {
                let mut s = String::from_str("Color ");
                push_decimal(&mut s, *color as u64);
                s.append(" curve is disconnected: visited ");
                push_decimal(&mut s, *edges_visited as u64);
                s.append(" edges but ");
                push_decimal(&mut s, *total_edges as u64);
                s.append(" total (depth ");
                push_decimal(&mut s, *depth as u64);
                s.append(")");
                s
            },
            PropagationFailure::LimitReached { depth } => {
                let mut s = String::from_str("Undo log or recorded count at its limit (depth ");
                push_decimal(&mut s, *depth as u64);
                s.append(")");
                s
            },
        }
    }
}

} // verus!
