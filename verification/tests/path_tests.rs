use raytracer::path::Encounter;
use raytracer::path::PathState;

fn follow(depth: u32, encounters: &[Encounter]) -> PathState {
    let mut state = PathState::begin(depth);
    for encounter in encounters {
        state = state.after(*encounter);
    }
    state
}

#[test]
fn a_path_without_budget_is_black_at_once() {
    assert_eq!(PathState::begin(0), PathState::Black);
}

#[test]
fn a_path_with_budget_traces_its_first_ray() {
    assert_eq!(PathState::begin(1), PathState::Tracing { depth: 1 });
    assert_eq!(PathState::begin(50), PathState::Tracing { depth: 50 });
    assert_eq!(PathState::begin(u32::MAX), PathState::Tracing { depth: u32::MAX });
}

#[test]
fn a_miss_ends_at_the_background() {
    assert_eq!(PathState::begin(3).after(Encounter::Missed), PathState::Background);
    assert_eq!(
        follow(3, &[Encounter::Scattered, Encounter::Scattered, Encounter::Missed]),
        PathState::Background
    );
}

#[test]
fn an_absorbing_surface_ends_in_black() {
    assert_eq!(PathState::begin(3).after(Encounter::Absorbed), PathState::Black);
    assert_eq!(follow(3, &[Encounter::Scattered, Encounter::Absorbed]), PathState::Black);
}

#[test]
fn a_scattered_ray_costs_one_bounce() {
    assert_eq!(PathState::begin(3).after(Encounter::Scattered), PathState::Tracing { depth: 2 });
    assert_eq!(
        follow(3, &[Encounter::Scattered, Encounter::Scattered]),
        PathState::Tracing { depth: 1 }
    );
}

#[test]
fn the_last_bounce_ends_in_black() {
    assert_eq!(PathState::begin(1).after(Encounter::Scattered), PathState::Black);
    assert_eq!(
        follow(3, &[Encounter::Scattered, Encounter::Scattered, Encounter::Scattered]),
        PathState::Black
    );
}

#[test]
fn depth_one_sees_the_sky_or_nothing() {
    assert_eq!(follow(1, &[Encounter::Missed]), PathState::Background);
    assert_eq!(follow(1, &[Encounter::Scattered]), PathState::Black);
    assert_eq!(follow(1, &[Encounter::Absorbed]), PathState::Black);
}

#[test]
fn an_ended_path_stays_ended() {
    for encounter in [Encounter::Missed, Encounter::Absorbed, Encounter::Scattered] {
        assert_eq!(PathState::Black.after(encounter), PathState::Black);
        assert_eq!(PathState::Background.after(encounter), PathState::Background);
    }
}

#[test]
fn a_path_has_ended_after_as_many_rays_as_its_depth() {
    let kinds = [Encounter::Missed, Encounter::Absorbed, Encounter::Scattered];
    for depth in 0u32..4 {
        for a in kinds {
            for b in kinds {
                for c in kinds {
                    let state = follow(depth, &[a, b, c]);
                    assert!(!matches!(state, PathState::Tracing { depth: _ }));
                }
            }
        }
    }
}
