use std::collections::HashSet;

use mineraker::area::{Area, AreaAction, MineCount};
use mineraker::position::Position;

fn listed(positions: &HashSet<Position>) -> Vec<Position> {
    positions.iter().cloned().collect()
}

fn cells(area: &Area) -> HashSet<Position> {
    area.positions().iter().cloned().collect()
}

#[test]
fn area_creation_equivalence() {
    let area1 = Area::new(Default::default(), MineCount::from_exact(1));
    let area2 = Area::new(Default::default(), 1.into());

    assert_eq!(area1, area2);
}

#[test]
fn area_difference_with_definite_mine_count() {
    let positions1 = HashSet::from([
        Position::new(0, 1),
        Position::new(0, 0),
        Position::new(1, 0),
        Position::new(2, 0),
    ]);
    let positions2 = HashSet::from([
        Position::new(1, 0),
        Position::new(2, 0),
        Position::new(3, 0),
    ]);
    let diff_1_positions: HashSet<Position> =
        positions1.difference(&positions2).cloned().collect();
    let diff_2_positions: HashSet<Position> =
        positions2.difference(&positions1).cloned().collect();

    {
        let area1 = Area::new(listed(&positions1), MineCount::from_exact(1));
        let area2 = Area::new(listed(&positions2), MineCount::from_exact(1));

        let diff = area1.difference(&area2);

        assert_eq!(diff, Area::new(listed(&diff_1_positions), MineCount::from_range(0, 1)));
    }
    {
        let area1 = Area::new(listed(&positions1), MineCount::from_exact(2));
        let area2 = Area::new(listed(&positions2), MineCount::from_exact(1));

        let diff = area1.difference(&area2);

        assert_eq!(diff, Area::new(listed(&diff_1_positions), MineCount::from_range(1, 2)));
    }
    {
        let area1 = Area::new(listed(&positions1), MineCount::from_exact(3));
        let area2 = Area::new(listed(&positions2), MineCount::from_exact(1));

        let diff = area1.difference(&area2);

        assert_eq!(diff, Area::new(listed(&diff_1_positions), MineCount::from_range(2, 2)));
    }
    {
        let area1 = Area::new(listed(&positions1), MineCount::from_exact(1));
        let area2 = Area::new(listed(&positions2), MineCount::from_exact(1));

        let diff = area2.difference(&area1);

        assert_eq!(diff, Area::new(listed(&diff_2_positions), MineCount::from_range(0, 1)));
    }
    {
        let area1 = Area::new(listed(&positions1), MineCount::from_exact(2));
        let area2 = Area::new(listed(&positions2), MineCount::from_exact(1));

        let diff = area2.difference(&area1);

        assert_eq!(diff, Area::new(listed(&diff_2_positions), MineCount::from_range(0, 1)));
    }
    {
        let area1 = Area::new(listed(&positions1), MineCount::from_exact(3));
        let area2 = Area::new(listed(&positions2), MineCount::from_exact(1));

        let diff = area2.difference(&area1);

        assert_eq!(diff, Area::new(listed(&diff_2_positions), MineCount::from_exact(0)));
    }
}

#[test]
fn area_difference_with_ranged_mine_count() {
    let positions1 = HashSet::from([
        Position::new(0, 1),
        Position::new(0, 0),
        Position::new(1, 0),
        Position::new(2, 0),
    ]);
    let positions2 = HashSet::from([
        Position::new(1, 0),
        Position::new(2, 0),
        Position::new(3, 0),
    ]);
    let diff_1_positions: HashSet<Position> =
        positions1.difference(&positions2).cloned().collect();

    {
        let area1 = Area::new(listed(&positions1), MineCount::from_range(0, 2));
        let area2 = Area::new(listed(&positions2), MineCount::from_range(1, 2));

        let diff = area1.difference(&area2);

        assert_eq!(diff, Area::new(listed(&diff_1_positions), MineCount::from_range(0, 2)));
    }
    {
        let area1 = Area::new(listed(&positions1), MineCount::from_range(0, 1));
        let area2 = Area::new(listed(&positions2), MineCount::from_range(0, 2));

        let diff = area1.difference(&area2);

        assert_eq!(diff, Area::new(listed(&diff_1_positions), MineCount::from_range(0, 1)));
    }
    {
        let area1 = Area::new(listed(&positions1), MineCount::from_range(1, 3));
        let area2 = Area::new(listed(&positions2), MineCount::from_range(0, 2));

        let diff = area1.difference(&area2);

        assert_eq!(diff, Area::new(listed(&diff_1_positions), MineCount::from_range(0, 2)));
    }

    let positions3 = HashSet::from([
        Position::new(0, 0),
        Position::new(0, 1),
        Position::new(0, 2),
        Position::new(1, 0),
        Position::new(1, 2),
        Position::new(2, 0),
        Position::new(2, 2),
        Position::new(2, 1),
    ]);
    let positions4 = HashSet::from([
        Position::new(2, 0),
        Position::new(2, 2),
        Position::new(2, 1),
    ]);
    let diff_3_positions: HashSet<Position> =
        positions3.difference(&positions4).cloned().collect();

    {
        let area1 = Area::new(listed(&positions3), MineCount::from_range(1, 1));
        let area2 = Area::new(listed(&positions4), MineCount::from_range(0, 1));

        let diff = area1.difference(&area2);

        assert_eq!(diff, Area::new(listed(&diff_3_positions), MineCount::from_range(0, 1)));
    }
    {
        let area1 = Area::new(listed(&positions3), MineCount::from_range(1, 2));
        let area2 = Area::new(listed(&positions4), MineCount::from_range(0, 1));

        let diff = area1.difference(&area2);

        assert_eq!(diff, Area::new(listed(&diff_3_positions), MineCount::from_range(0, 2)));
    }
    {
        let area1 = Area::new(listed(&positions3), MineCount::from_range(2, 3));
        let area2 = Area::new(listed(&positions4), MineCount::from_range(0, 1));

        let diff = area1.difference(&area2);

        assert_eq!(diff, Area::new(listed(&diff_3_positions), MineCount::from_range(1, 3)));
    }
    {
        let area1 = Area::new(listed(&positions3), MineCount::from_range(2, 3));
        let area2 = Area::new(listed(&positions4), MineCount::from_range(1, 2));

        let diff = area1.difference(&area2);

        assert_eq!(diff, Area::new(listed(&diff_3_positions), MineCount::from_range(0, 2)));
    }
}

#[test]
fn exact_count_only_for_degenerate_ranges() {
    assert_eq!(MineCount::from_exact(3).exact_count(), Some(3));
    assert_eq!(MineCount::from_range(1, 1).exact_count(), Some(1));
    assert_eq!(MineCount::from_range(1, 2).exact_count(), None);
    assert_eq!(MineCount::from(4).min(), 4);
    assert_eq!(MineCount::from(4).max(), 4);
}

#[test]
fn new_area_keeps_each_position_once() {
    let area = Area::new(
        vec![Position::new(1, 1), Position::new(2, 1), Position::new(1, 1)],
        MineCount::from_range(0, 2),
    );
    assert_eq!(area.positions().len(), 2);
    assert_eq!(cells(&area), HashSet::from([Position::new(1, 1), Position::new(2, 1)]));
    assert_eq!(area.mine_count(), MineCount::from_range(0, 2));
}

#[test]
fn equality_ignores_order_but_not_count() {
    let a = Area::new(vec![Position::new(0, 0), Position::new(1, 0)], MineCount::from_exact(1));
    let b = Area::new(vec![Position::new(1, 0), Position::new(0, 0)], MineCount::from_exact(1));
    let c = Area::new(vec![Position::new(1, 0), Position::new(0, 0)], MineCount::from_exact(2));
    let d = Area::new(vec![Position::new(1, 0), Position::new(0, 1)], MineCount::from_exact(1));
    assert_eq!(a, b);
    assert_ne!(a, c);
    assert_ne!(a, d);
    assert_eq!(a.clone(), a);
}

#[test]
fn difference_of_two_and_one() {
    let area1 = Area::new(vec![Position::new(0, 0), Position::new(1, 0)], MineCount::from_exact(2));
    let area2 = Area::new(vec![Position::new(1, 0)], MineCount::from_exact(1));

    assert_eq!(
        area1.difference(&area2),
        Area::new(vec![Position::new(0, 0)], MineCount::from_exact(1))
    );
}

#[test]
fn difference_scenarios_of_the_clue_pair() {
    let positions1 = vec![
        Position::new(0, 1),
        Position::new(0, 0),
        Position::new(1, 0),
        Position::new(2, 0),
    ];
    let positions2 = vec![Position::new(1, 0), Position::new(2, 0), Position::new(3, 0)];
    let expected = HashSet::from([Position::new(0, 1), Position::new(0, 0)]);

    let diff = Area::new(positions1.clone(), MineCount::from_exact(1))
        .difference(&Area::new(positions2.clone(), MineCount::from_exact(1)));
    assert_eq!(cells(&diff), expected);
    assert_eq!(diff.mine_count(), MineCount::from_range(0, 1));

    let diff = Area::new(positions1, MineCount::from_exact(3))
        .difference(&Area::new(positions2, MineCount::from_exact(1)));
    assert_eq!(cells(&diff), expected);
    assert_eq!(diff.mine_count().exact_count(), Some(2));
}

#[test]
fn difference_with_contained_other() {
    let a = Area::new(
        vec![Position::new(0, 0), Position::new(1, 0), Position::new(2, 0), Position::new(3, 0)],
        MineCount::from_exact(3),
    );
    let b = Area::new(
        vec![Position::new(1, 0), Position::new(2, 0), Position::new(3, 0)],
        MineCount::from_exact(1),
    );
    let shared = 3usize;
    let diff = a.difference(&b);
    assert_eq!(cells(&diff), HashSet::from([Position::new(0, 0)]));
    assert!(diff.mine_count().min() >= 3usize.saturating_sub(shared));
    // 3 - min(3, 3, 1) below, min(1, 3 - (1 - 0)) above.
    assert_eq!(diff.mine_count(), MineCount::from_range(2, 1));
}

#[test]
fn difference_with_disjoint_other_keeps_bounds() {
    let a = Area::new(vec![Position::new(0, 0), Position::new(1, 0)], MineCount::from_range(1, 2));
    let b = Area::new(vec![Position::new(5, 5)], MineCount::from_exact(1));
    let diff = a.difference(&b);
    assert_eq!(diff, a);
}

#[test]
fn difference_with_everything_shared_is_empty() {
    let a = Area::new(vec![Position::new(0, 0), Position::new(1, 0)], MineCount::from_exact(1));
    let b = Area::new(
        vec![Position::new(0, 0), Position::new(1, 0), Position::new(2, 0)],
        MineCount::from_exact(1),
    );
    let diff = a.difference(&b);
    assert!(diff.positions().is_empty());
    assert_eq!(diff.mine_count(), MineCount::from_exact(0));
    assert_eq!(diff.next_action(), Some(AreaAction::Open));
}

#[test]
fn difference_does_not_underflow_on_conflicting_areas() {
    let a = Area::new(vec![Position::new(0, 0)], MineCount::from_exact(0));
    let b = Area::new(vec![Position::new(0, 0)], MineCount::from_exact(1));
    let diff = a.difference(&b);
    assert!(diff.positions().is_empty());
    assert_eq!(diff.mine_count(), MineCount::from_exact(0));
}

#[test]
fn intersection_narrows_the_shared_part() {
    let a = Area::new(
        vec![Position::new(0, 0), Position::new(1, 0), Position::new(2, 0)],
        MineCount::from_exact(2),
    );
    let b = Area::new(
        vec![Position::new(1, 0), Position::new(2, 0), Position::new(3, 0)],
        MineCount::from_exact(1),
    );
    let shared = a.intersection(&b);
    assert_eq!(cells(&shared), HashSet::from([Position::new(1, 0), Position::new(2, 0)]));
    // max(2 - 1, 1 - 1) below, min(2, 2, 1) above.
    assert_eq!(shared.mine_count(), MineCount::from_exact(1));

    let wide = Area::new(
        vec![Position::new(1, 0), Position::new(2, 0), Position::new(3, 0), Position::new(4, 0)],
        MineCount::from_range(0, 3),
    );
    let shared = a.intersection(&wide);
    assert_eq!(shared.mine_count(), MineCount::from_range(1, 2));
}

#[test]
fn intersection_of_disjoint_areas_is_empty() {
    let a = Area::new(vec![Position::new(0, 0)], MineCount::from_exact(1));
    let b = Area::new(vec![Position::new(4, 4)], MineCount::from_exact(1));
    let shared = a.intersection(&b);
    assert!(shared.positions().is_empty());
    assert_eq!(shared.mine_count(), MineCount::from_exact(0));
}

#[test]
fn next_action_for_exact_extremes() {
    let positions = vec![Position::new(1, 0), Position::new(2, 0), Position::new(3, 0)];

    let area = Area::new(positions.clone(), MineCount::from_exact(0));
    assert_eq!(area.next_action(), Some(AreaAction::Open));
    let area2 = Area::new(positions.clone(), MineCount::from_exact(3));
    assert_eq!(area2.next_action(), Some(AreaAction::Flag));
    let area3 = Area::new(positions.clone(), MineCount::from_exact(1));
    assert_eq!(area3.next_action(), None);
    let area4 = Area::new(positions, MineCount::from_range(1, 3));
    assert_eq!(area4.next_action(), None);
}

#[test]
fn ranges_hold_every_consistent_placement() {
    let universe: Vec<Position> = (0..5).map(|x| Position::new(x, 0)).collect();
    let a_cells: Vec<Position> = universe[0..4].to_vec();
    let b_cells: Vec<Position> = universe[2..5].to_vec();
    let only_a: HashSet<Position> = universe[0..2].iter().cloned().collect();
    let shared: HashSet<Position> = universe[2..4].iter().cloned().collect();
    for placement in 0u32..32 {
        let mines: HashSet<Position> =
            universe.iter().cloned().filter(|p| placement & (1 << p.x) != 0).collect();
        let on = |cells: &[Position]| cells.iter().filter(|p| mines.contains(p)).count();
        let (in_a, in_b) = (on(&a_cells), on(&b_cells));
        for widen in 0..2 {
            let a = Area::new(
                a_cells.clone(),
                MineCount::from_range(in_a.saturating_sub(widen), in_a + widen),
            );
            let b = Area::new(
                b_cells.clone(),
                MineCount::from_range(in_b.saturating_sub(widen), in_b + widen),
            );

            let diff = a.difference(&b);
            let actual = only_a.iter().filter(|p| mines.contains(p)).count();
            assert_eq!(cells(&diff), only_a);
            assert!(diff.mine_count().min() <= actual);
            assert!(actual <= diff.mine_count().max());
            assert!(diff.mine_count().max() <= diff.positions().len());

            let both = a.intersection(&b);
            let actual = shared.iter().filter(|p| mines.contains(p)).count();
            assert_eq!(cells(&both), shared);
            assert!(both.mine_count().min() <= actual);
            assert!(actual <= both.mine_count().max());
            assert!(both.mine_count().max() <= both.positions().len());
        }
    }
}
