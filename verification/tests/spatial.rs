use prahadlo::spatial::{calculate_proximity_squares, get_pedestrian_connections, Point};

fn connections(points: &Vec<Point>, radius: u32) -> Vec<Vec<(usize, u32)>> {
    let squares = calculate_proximity_squares(points, radius);
    let mut lists = get_pedestrian_connections(points, &squares, radius);
    for list in lists.iter_mut() {
        list.sort();
    }
    lists
}

fn brute_force(points: &Vec<Point>, radius: u32) -> Vec<Vec<(usize, u32)>> {
    let mut lists = Vec::new();
    for (s, a) in points.iter().enumerate() {
        let mut list = Vec::new();
        for (t, b) in points.iter().enumerate() {
            let way = (a.x as i64 - b.x as i64).abs() + (a.y as i64 - b.y as i64).abs();
            if s != t && way <= radius as i64 {
                list.push((t, way as u32));
            }
        }
        lists.push(list);
    }
    lists
}

#[test]
fn stops_in_reach_are_neighbours_in_both_directions() {
    let points = vec![Point { x: 0, y: 0 }, Point { x: 60, y: 40 }, Point { x: 5000, y: 0 }];
    let lists = connections(&points, 500);
    assert_eq!(lists[0], vec![(1, 100)]);
    assert_eq!(lists[1], vec![(0, 100)]);
    assert_eq!(lists[2], vec![]);
}

#[test]
fn distance_is_measured_along_the_axes() {
    let points = vec![Point { x: 0, y: 0 }, Point { x: 300, y: 200 }, Point { x: 300, y: 201 }];
    let lists = connections(&points, 500);
    assert_eq!(lists[0], vec![(1, 500)]);
    assert_eq!(lists[1], vec![(0, 500), (2, 1)]);
    assert_eq!(lists[2], vec![(1, 1)]);
}

#[test]
fn neighbours_are_found_across_cell_borders() {
    let points = vec![
        Point { x: 499, y: 499 },
        Point { x: 500, y: 500 },
        Point { x: 999, y: 499 },
        Point { x: 0, y: 0 },
        Point { x: 1000, y: 1000 },
    ];
    assert_eq!(connections(&points, 500), brute_force(&points, 500));
    let lists = connections(&points, 500);
    assert_eq!(lists[0], vec![(1, 2), (2, 500)]);
}

#[test]
fn neighbours_are_found_at_negative_coordinates() {
    let points = vec![
        Point { x: -1, y: -1 },
        Point { x: 0, y: 0 },
        Point { x: -500, y: -1 },
        Point { x: -501, y: 0 },
        Point { x: 250, y: -250 },
        Point { x: -250, y: 250 },
    ];
    assert_eq!(connections(&points, 500), brute_force(&points, 500));
    let lists = connections(&points, 500);
    assert!(lists[0].contains(&(1, 2)));
    assert!(lists[0].contains(&(2, 499)));
}

#[test]
fn stops_at_one_place_are_neighbours_at_distance_zero() {
    let points = vec![Point { x: 7, y: 7 }, Point { x: 7, y: 7 }, Point { x: 8, y: 7 }];
    let lists = connections(&points, 0);
    assert_eq!(lists[0], vec![(1, 0)]);
    assert_eq!(lists[1], vec![(0, 0)]);
    assert_eq!(lists[2], vec![]);
}

#[test]
fn no_stop_is_its_own_neighbour() {
    let points = vec![Point { x: 0, y: 0 }, Point { x: 1, y: 1 }];
    let lists = connections(&points, 500);
    for (s, list) in lists.iter().enumerate() {
        assert!(list.iter().all(|entry| entry.0 != s));
    }
}

#[test]
fn grid_of_stops_matches_pairwise_search() {
    let mut points = Vec::new();
    for i in 0..12 {
        for j in 0..12 {
            points.push(Point { x: -900 + i * 170 + (j % 3) * 11, y: -700 + j * 130 + (i % 4) * 7 });
        }
    }
    for radius in [1, 100, 170, 300, 500, 1000] {
        assert_eq!(connections(&points, radius), brute_force(&points, radius));
    }
}

#[test]
fn far_corners_of_the_plane_are_handled() {
    let points = vec![
        Point { x: i32::MAX, y: i32::MAX },
        Point { x: i32::MAX - 3, y: i32::MAX },
        Point { x: i32::MIN, y: i32::MIN },
        Point { x: i32::MIN + 2, y: i32::MIN + 2 },
        Point { x: i32::MIN, y: i32::MAX },
    ];
    assert_eq!(connections(&points, 500), brute_force(&points, 500));
    assert_eq!(connections(&points, u32::MAX), brute_force(&points, u32::MAX));
    assert_eq!(connections(&points, 1), brute_force(&points, 1));
}

#[test]
fn no_stops_have_no_connections() {
    let points: Vec<Point> = Vec::new();
    assert!(connections(&points, 500).is_empty());
}
