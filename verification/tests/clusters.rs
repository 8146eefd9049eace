use avalanche::Dot;

fn sorted(mut dots: Vec<Dot>) -> Vec<(u8, u8)> {
    let mut v: Vec<(u8, u8)> = dots.drain(..).map(|d| (d.0, d.1)).collect();
    v.sort();
    v
}

#[test]
fn rook_neighbours_are_one_step_apart() {
    assert!(Dot(1, 1).is_adjacent(Dot(1, 2)));
    assert!(Dot(1, 1).is_adjacent(Dot(0, 1)));
    assert!(Dot(1, 1).is_adjacent(Dot(2, 1)));
    assert!(Dot(1, 1).is_adjacent(Dot(1, 0)));
    assert!(!Dot(1, 1).is_adjacent(Dot(1, 1)));
    assert!(!Dot(1, 1).is_adjacent(Dot(2, 2)));
    assert!(!Dot(1, 1).is_adjacent(Dot(1, 3)));
    assert!(!Dot(0, 0).is_adjacent(Dot(255, 255)));
    assert!(!Dot(0, 255).is_adjacent(Dot(255, 0)));
}

#[test]
fn no_dots_make_one_empty_cluster() {
    let groups = Dot::group_connected(&[]);
    assert_eq!(groups, vec![Vec::<Dot>::new()]);
}

#[test]
fn one_dot_is_its_own_cluster() {
    assert_eq!(Dot::group_connected(&[Dot(4, 2)]), vec![vec![Dot(4, 2)]]);
}

#[test]
fn a_bar_is_one_cluster() {
    let bar = [Dot(0, 0), Dot(1, 0), Dot(2, 0), Dot(3, 0)];
    let groups = Dot::group_connected(&bar);
    assert_eq!(groups.len(), 1);
    assert_eq!(sorted(groups[0].clone()), vec![(0, 0), (1, 0), (2, 0), (3, 0)]);
}

#[test]
fn a_gap_splits_the_bar() {
    let groups = Dot::group_connected(&[Dot(0, 0), Dot(3, 0)]);
    assert_eq!(groups, vec![vec![Dot(3, 0)], vec![Dot(0, 0)]]);
}

#[test]
fn diagonal_dots_do_not_hang_together() {
    let groups = Dot::group_connected(&[Dot(0, 0), Dot(1, 1), Dot(2, 2)]);
    assert_eq!(groups.len(), 3);
    for g in &groups {
        assert_eq!(g.len(), 1);
    }
}

#[test]
fn a_cluster_is_found_however_the_dots_are_ordered() {
    let groups = Dot::group_connected(&[Dot(0, 0), Dot(5, 5), Dot(2, 0), Dot(1, 0), Dot(5, 6)]);
    assert_eq!(groups.len(), 2);
    let mut found: Vec<Vec<(u8, u8)>> = groups.into_iter().map(sorted).collect();
    found.sort();
    assert_eq!(found, vec![vec![(0, 0), (1, 0), (2, 0)], vec![(5, 5), (5, 6)]]);
}

#[test]
fn the_last_dot_seeds_the_first_cluster() {
    let groups = Dot::group_connected(&[Dot(0, 0), Dot(7, 7), Dot(0, 1)]);
    assert_eq!(groups, vec![vec![Dot(0, 1), Dot(0, 0)], vec![Dot(7, 7)]]);
}

#[test]
fn clusters_hold_every_dot_once() {
    let dots = [
        Dot(0, 0),
        Dot(0, 1),
        Dot(2, 0),
        Dot(2, 1),
        Dot(2, 2),
        Dot(4, 4),
        Dot(1, 1),
        Dot(9, 0),
    ];
    let groups = Dot::group_connected(&dots);
    let mut all: Vec<Dot> = Vec::new();
    for g in &groups {
        all.extend(g.iter().copied());
    }
    assert_eq!(sorted(all), sorted(dots.to_vec()));
    for (a, ga) in groups.iter().enumerate() {
        assert!(!ga.is_empty());
        for (k, d) in ga.iter().enumerate() {
            if k > 0 {
                assert!(ga[..k].iter().any(|e| e.is_adjacent(*d)));
            }
        }
        for (b, gb) in groups.iter().enumerate() {
            if a != b {
                for x in ga {
                    for y in gb {
                        assert!(!x.is_adjacent(*y));
                    }
                }
            }
        }
    }
    assert_eq!(groups.len(), 3);
}

#[test]
fn a_dot_given_twice_is_grouped_twice() {
    let groups = Dot::group_connected(&[Dot(1, 1), Dot(1, 1)]);
    assert_eq!(groups, vec![vec![Dot(1, 1)], vec![Dot(1, 1)]]);
    let groups = Dot::group_connected(&[Dot(1, 1), Dot(1, 2), Dot(1, 1)]);
    assert_eq!(groups.len(), 1);
    assert_eq!(sorted(groups[0].clone()), vec![(1, 1), (1, 1), (1, 2)]);
}
