//! The bounce budget of a light path.
//!
//! A path is followed ray by ray. What a ray meets in the scene is found by
//! the caller; whether the path goes on, and how it ends, is decided here.

use vstd::prelude::*;

verus! {

/// What became of a ray that was traced into the scene.
#[derive(Clone, Copy, PartialEq, Eq, Structural, Debug)]
pub enum Encounter {
    /// It hit nothing.
    Missed,
    /// It hit a surface that absorbed it.
    Absorbed,
    /// It hit a surface that scattered it into a new ray.
    Scattered,
}

/// Where a light path stands.
#[derive(Clone, Copy, PartialEq, Eq, Structural, Debug)]
pub enum PathState {
    /// A ray is to be traced. `depth` rays may still be traced, this one
    /// included.
    Tracing { depth: u32 },
    /// The path has ended and carries no light.
    Black,
    /// The path has ended at the background and carries its colour, weakened
    /// by every surface on the way.
    Background,
}

impl PathState {
    /// The state of a path that may trace `depth` rays: it traces its first
    /// ray unless the budget is empty from the start.
    pub open spec fn begin_spec(depth: u32) -> PathState {
        if depth == 0 {
            PathState::Black
        } else {
            PathState::Tracing { depth }
        }
    }

    /// The state after the ray that was due has been traced and has met
    /// `encounter`. A path that has ended stays as it is.
    pub open spec fn after_spec(self, encounter: Encounter) -> PathState {
        match self {
            PathState::Tracing { depth } => match encounter {
                Encounter::Missed => PathState::Background,
                Encounter::Absorbed => PathState::Black,
                Encounter::Scattered => if depth <= 1 {
                    PathState::Black
                } else {
                    PathState::Tracing { depth: (depth - 1) as u32 }
                },
            },
            PathState::Black => PathState::Black,
            PathState::Background => PathState::Background,
        }
    }

    /// The state after a run of rays, first to last.
    pub open spec fn after_all(self, encounters: Seq<Encounter>) -> PathState
        decreases encounters.len(),
    {
        if encounters.len() == 0 {
            self
        } else {
            self.after_all(encounters.drop_last()).after_spec(encounters.last())
        }
    }

    /// How many rays the path may still trace.
    pub open spec fn budget(self) -> nat {
        match self {
            PathState::Tracing { depth } => depth as nat,
            PathState::Black => 0,
            PathState::Background => 0,
        }
    }

    /// Starts a path that may trace `depth` rays.
    #[verifier::when_used_as_spec(begin_spec)]
    pub fn begin(depth: u32) -> (state: PathState)
        ensures
            state == PathState::begin_spec(depth),
    {
        if depth == 0 {
            PathState::Black
        } else {
            PathState::Tracing { depth }
        }
    }

    /// Moves the path on by one ray: a miss ends it at the background, an
    /// absorbing surface ends it in black, and a scattering surface lets it
    /// trace the scattered ray if the budget allows one more, and ends it in
    /// black if not.
    #[verifier::when_used_as_spec(after_spec)]
    pub fn after(self, encounter: Encounter) -> (state: PathState)
        ensures
            state == self.after_spec(encounter),
    {
        match self {
            PathState::Tracing { depth } => match encounter {
                Encounter::Missed => PathState::Background,
                Encounter::Absorbed => PathState::Black,
                Encounter::Scattered => if depth <= 1 {
                    PathState::Black
                } else {
                    PathState::Tracing { depth: depth - 1 }
                },
            },
            PathState::Black => PathState::Black,
            PathState::Background => PathState::Background,
        }
    }
}

/// Every ray that is traced uses up some of the budget.
proof fn lemma_budget_shrinks(state: PathState, encounters: Seq<Encounter>)
    ensures
        state.after_all(encounters).budget() + encounters.len() <= state.budget()
            || state.after_all(encounters).budget() == 0,
    decreases encounters.len(),
{
    if encounters.len() > 0 {
        lemma_budget_shrinks(state, encounters.drop_last());
    }
}

/// The depth cutoff: a path that may trace `depth` rays has ended once
/// `depth` rays have been traced, whatever they met.
pub proof fn lemma_path_ends_within_depth(depth: u32, encounters: Seq<Encounter>)
    requires
        encounters.len() >= depth,
    ensures
        !(PathState::begin_spec(depth).after_all(encounters) is Tracing),
{
    lemma_budget_shrinks(PathState::begin_spec(depth), encounters);
}

/// A path whose rays are all scattered runs out of budget and ends in black.
pub proof fn lemma_spent_budget_is_black(depth: u32, encounters: Seq<Encounter>)
    requires
        encounters.len() == depth,
        forall|i: int| 0 <= i < encounters.len() ==> encounters[i] == Encounter::Scattered,
    ensures
        PathState::begin_spec(depth).after_all(encounters) == PathState::Black,
{
    lemma_scattered_run(depth, encounters);
}

/// While rays are scattered and the budget lasts, the path goes on with one
/// ray less for each.
proof fn lemma_scattered_run(depth: u32, encounters: Seq<Encounter>)
    requires
        encounters.len() <= depth,
        forall|i: int| 0 <= i < encounters.len() ==> encounters[i] == Encounter::Scattered,
    ensures
        PathState::begin_spec(depth).after_all(encounters) == PathState::begin_spec(
            (depth - encounters.len()) as u32,
        ),
    decreases encounters.len(),
{
    if encounters.len() > 0 {
        let earlier = encounters.drop_last();
        assert forall|i: int| 0 <= i < earlier.len() implies earlier[i]
            == Encounter::Scattered by {
            assert(earlier[i] == encounters[i]);
        }
        lemma_scattered_run(depth, earlier);
    }
}

} // verus!
