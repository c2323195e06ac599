//! How stable a component is taken to be.
use chunkah::stability::{calculate_stability, Stability, SECS_PER_DAY};

const NOW: u64 = 1_700_000_000;

#[test]
fn no_changes_in_the_past_year_are_very_stable() {
    let old = NOW - 366 * SECS_PER_DAY;
    assert_eq!(calculate_stability(&[old], NOW, NOW), Stability::Stable);
    assert_eq!(calculate_stability(&[], old, NOW), Stability::Stable);
}

#[test]
fn a_very_recent_component_is_unstable() {
    assert_eq!(calculate_stability(&[NOW - 10], 0, NOW), Stability::Unstable);
    assert_eq!(
        calculate_stability(&[], NOW - SECS_PER_DAY + 1, NOW),
        Stability::Unstable
    );
    // a time to come
    assert_eq!(calculate_stability(&[NOW + 10], 0, NOW), Stability::Unstable);
}

#[test]
fn changes_are_counted_by_days() {
    let day = SECS_PER_DAY;
    let start = NOW / day * day;
    let times = [start - day, start - 10 * day + 5, start - 10 * day, start - 400 * day];
    let expected = Stability::Changes { count: 2, span_secs: NOW - (start - 10 * day) };
    assert_eq!(calculate_stability(&times, 0, NOW), expected);
    let mut reversed = times.to_vec();
    reversed.reverse();
    assert_eq!(calculate_stability(&reversed, 0, NOW), expected);
    // out of order, the two of one day are not taken together
    let mixed = [start - 10 * day, start - day, start - 10 * day + 5];
    assert_eq!(
        calculate_stability(&mixed, 0, NOW),
        Stability::Changes { count: 3, span_secs: NOW - (start - 10 * day) }
    );
    assert_eq!(
        calculate_stability(&[], NOW - day, NOW),
        Stability::Changes { count: 1, span_secs: day }
    );
}

#[test]
fn the_past_year_begins_with_the_epoch_at_the_earliest() {
    assert_eq!(
        calculate_stability(&[0], 0, 2 * SECS_PER_DAY),
        Stability::Changes { count: 1, span_secs: 2 * SECS_PER_DAY }
    );
}

#[test]
fn the_build_time_is_irrelevant_where_there_are_changes() {
    let times = [NOW - 3 * SECS_PER_DAY];
    for buildtime in [0, NOW - SECS_PER_DAY, NOW] {
        assert_eq!(
            calculate_stability(&times, buildtime, NOW),
            Stability::Changes { count: 1, span_secs: 3 * SECS_PER_DAY }
        );
    }
    let old = [NOW - 400 * SECS_PER_DAY];
    assert_eq!(calculate_stability(&old, NOW, NOW), Stability::Stable);
}
