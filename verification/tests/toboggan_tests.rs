use advent_puzzles::toboggan::{
    day03_counts, grid_get, grid_num_columns, grid_num_rows, load_forest, product_of_counts,
    traverse_slope, ForestError,
};

fn example_lines() -> Vec<String> {
    vec![
        "..##.......".to_string(),
        "#...#...#..".to_string(),
        ".#....#..#.".to_string(),
        "..#.#...#.#".to_string(),
        ".#...##..#.".to_string(),
        "..#.##.....".to_string(),
        ".#.#.#....#".to_string(),
        ".#........#".to_string(),
        "#.##...#...".to_string(),
        "#...##....#".to_string(),
        ".#..#...#.#".to_string(),
    ]
}

#[test]
fn load_and_read_the_grid() {
    let g = load_forest(&example_lines()).unwrap();
    assert_eq!(grid_num_rows(&g), 11);
    assert_eq!(grid_num_columns(&g), 11);
    assert_eq!(grid_get(&g, 0, 0), Some(&'.'));
    assert_eq!(grid_get(&g, 0, 2), Some(&'#'));
    assert_eq!(grid_get(&g, 1, 0), Some(&'#'));
    assert_eq!(grid_get(&g, 10, 10), Some(&'#'));
    assert_eq!(grid_get(&g, 11, 0), None);
    assert_eq!(grid_get(&g, 0, 11), None);
}

#[test]
fn uneven_rows_are_refused() {
    let lines = vec!["..#".to_string(), "#.".to_string()];
    assert_eq!(load_forest(&lines), Err(ForestError::AbnormalRowWidth(1)));
}

#[test]
fn main_slope_meets_seven_trees() {
    let g = load_forest(&example_lines()).unwrap();
    assert_eq!(traverse_slope(&g, 3, 1), 7);
}

#[test]
fn all_example_slopes() {
    let g = load_forest(&example_lines()).unwrap();
    let slopes = vec![[1usize, 1usize], [3, 1], [5, 1], [7, 1], [1, 2]];
    let mut counts: Vec<u32> = Vec::new();
    for s in slopes.iter() {
        counts.push(traverse_slope(&g, s[0], s[1]));
    }
    assert_eq!(counts, vec![2, 7, 3, 4, 2]);
    assert_eq!(product_of_counts(&counts), Some(336));
}

#[test]
fn counts_for_all_slopes_at_once() {
    let slopes = vec![(1usize, 1usize), (3, 1), (5, 1), (7, 1), (1, 2)];
    let counts = day03_counts(&example_lines(), &slopes).unwrap();
    assert_eq!(counts, vec![2, 7, 3, 4, 2]);

    let uneven = vec!["..#".to_string(), "#.".to_string()];
    assert_eq!(
        day03_counts(&uneven, &slopes),
        Err(ForestError::AbnormalRowWidth(1))
    );
}

#[test]
fn product_of_counts_edges() {
    assert_eq!(product_of_counts(&vec![]), Some(1));
    assert_eq!(product_of_counts(&vec![4000000000, 0, 4000000000]), Some(0));
    assert_eq!(product_of_counts(&vec![4000000000, 2]), None);
}
