use smokefill::color_selection::ColorSelectionModel;
use smokefill::create_image::CreateImage;
use smokefill::generate_ordering::GenerateOrdering;

/// With zero random variation and no shuffling, the traversal is plain
/// depth-first order: on a 2x2 grid from (0,0) the last-pushed neighbor
/// (1,1) is visited next, then (1,0), then (0,1).
#[test]
fn deterministic_depth_first_two_by_two() {
    let g = GenerateOrdering::new(2, 2, vec![(0, 0)], 0, false);
    assert_eq!(g.ordering, vec![(0, 0), (1, 1), (1, 0), (0, 1)]);
    // parent_coords is indexed by x * height + y
    assert_eq!(g.parent_coords[0], Some((0, 0)));
    assert_eq!(g.parent_coords[1], Some((1, 0)));
    assert_eq!(g.parent_coords[2], Some((1, 1)));
    assert_eq!(g.parent_coords[3], Some((0, 0)));
}

/// A 1x1 grid with starting point (0,0) produces ordering [(0,0)], a
/// self-parented root, and the output grid's single cell holds the palette's
/// only color.
#[test]
fn one_by_one_boundary() {
    let g = GenerateOrdering::new(1, 1, vec![(0, 0)], 0, false);
    assert_eq!(g.ordering, vec![(0, 0)]);
    assert_eq!(g.parent_coords, vec![Some((0, 0))]);
    let palette = ColorSelectionModel::new(vec![(10, 20, 30)], 1, false);
    let ci = CreateImage::new(palette, g);
    assert_eq!(ci.output_img, vec![vec![(10, 20, 30)]]);
}

fn assert_permutation_of_grid(ordering: &[(usize, usize)], width: usize, height: usize) {
    assert_eq!(ordering.len(), width * height);
    let mut seen = vec![false; width * height];
    for &(x, y) in ordering {
        assert!(x < width && y < height);
        assert!(!seen[x * height + y], "pixel listed twice");
        seen[x * height + y] = true;
    }
    assert!(seen.iter().all(|&v| v));
}

fn assert_parents_precede(g: &GenerateOrdering) {
    let mut position = std::collections::BTreeMap::new();
    for (k, &p) in g.ordering.iter().enumerate() {
        position.insert(p, k);
    }
    for (k, &p) in g.ordering.iter().enumerate() {
        let parent = g.parent_coords[p.0 * g.height + p.1].expect("parent assigned");
        if parent != p {
            assert!(position[&parent] < k, "parent must come earlier");
        }
    }
}

/// The ordering is a permutation of the whole grid with parents preceding
/// their children, also with randomized removal and neighbor shuffling.
#[test]
fn randomized_traversal_is_still_a_permutation() {
    let g = GenerateOrdering::new(5, 4, vec![(2, 1), (4, 3)], u32::MAX / 2, true);
    assert_permutation_of_grid(&g.ordering, 5, 4);
    assert_parents_precede(&g);
    assert_eq!(g.parent_coords[2 * 4 + 1], Some((2, 1)));
    assert_eq!(g.parent_coords[4 * 4 + 3], Some((4, 3)));
}

/// A non-square grid keeps its dimensions end to end: the output grid is
/// width rows of height cells.
#[test]
fn non_square_grid_round_trips_dimensions() {
    let width: usize = 2;
    let height: usize = 3;
    let g = GenerateOrdering::new(width, height, vec![(1, 2)], 0, false);
    assert_permutation_of_grid(&g.ordering, width, height);
    let colors: Vec<(u8, u8, u8)> = (0..6).map(|i| (i as u8, 0, 0)).collect();
    let palette = ColorSelectionModel::new(colors, 4, false);
    let ci = CreateImage::new(palette, g);
    assert_eq!(ci.output_img.len(), width);
    for row in &ci.output_img {
        assert_eq!(row.len(), height);
    }
}

/// Nearest-neighbor pop returns the working-set color closest to the query,
/// and the pop really removes it: the second identical query gets the other
/// color.
#[test]
fn pop_nearest_neighbor_returns_closest_then_consumes_it() {
    let mut palette = ColorSelectionModel::new(vec![(0, 0, 0), (200, 200, 200)], 2, false);
    assert_eq!(palette.pop_nearest_neighbor((10, 10, 10)), (0, 0, 0));
    assert_eq!(palette.pop_nearest_neighbor((10, 10, 10)), (200, 200, 200));
}

/// With a capped working set, a popped color is backfilled from the reserve:
/// a color far from every query still comes out once the near ones are gone.
#[test]
fn reserve_backfills_working_set() {
    // working set starts as {(0,0,0)}; (255,255,255) waits in the reserve
    let mut palette = ColorSelectionModel::new(vec![(0, 0, 0), (255, 255, 255)], 1, false);
    assert_eq!(palette.pop_nearest_neighbor((255, 255, 255)), (0, 0, 0));
    assert_eq!(palette.pop_nearest_neighbor((0, 0, 0)), (255, 255, 255));
}

/// Popping the whole palette returns every source color exactly once, also
/// after the randomizing pass: nothing is lost, duplicated, or invented.
#[test]
fn pops_return_each_color_exactly_once() {
    let source = vec![(1, 1, 1), (2, 2, 2), (3, 3, 3), (3, 3, 3), (9, 9, 9)];
    let mut palette = ColorSelectionModel::new(source.clone(), 2, true);
    let mut popped = Vec::new();
    for _ in 0..source.len() {
        popped.push(palette.pop_nearest_neighbor((0, 0, 0)));
    }
    let mut expected = source.clone();
    expected.sort();
    popped.sort();
    assert_eq!(popped, expected);
}

/// Random pops also only hand out source colors, one per pop.
#[test]
fn random_pops_drain_the_palette() {
    let source = vec![(5, 0, 0), (0, 5, 0), (0, 0, 5)];
    let mut palette = ColorSelectionModel::new(source.clone(), 3, false);
    let mut popped = Vec::new();
    for _ in 0..source.len() {
        popped.push(palette.pop_random_color());
    }
    let mut expected = source.clone();
    expected.sort();
    popped.sort();
    assert_eq!(popped, expected);
}

/// With zero random variation and no shuffling the traversal is a pure
/// function of the grid and starting points: two runs agree exactly.
#[test]
fn deterministic_runs_agree() {
    let g1 = GenerateOrdering::new(4, 3, vec![(2, 0), (0, 2)], 0, false);
    let g2 = GenerateOrdering::new(4, 3, vec![(2, 0), (0, 2)], 0, false);
    assert_eq!(g1.ordering, g2.ordering);
    assert_eq!(g1.parent_coords, g2.parent_coords);
}

/// Following parent links from any pixel reaches a self-parented root in at
/// most as many steps as there are pixels: no cycles, bounded depth.
#[test]
fn parent_chains_reach_a_root() {
    let width: usize = 6;
    let height: usize = 5;
    let g = GenerateOrdering::new(width, height, vec![(3, 2)], u32::MAX / 3, true);
    for &p in &g.ordering {
        let mut current = p;
        let mut steps: usize = 0;
        while g.parent_coords[current.0 * height + current.1] != Some(current) {
            current = g.parent_coords[current.0 * height + current.1].expect("parent assigned");
            steps += 1;
            assert!(steps <= width * height, "chain must stay bounded");
        }
        assert_eq!(current, (3, 2), "the only root is the starting point");
    }
}

/// The assembler writes every cell exactly once: a complete traversal leaves
/// no sentinel cells, and the written colors are exactly the palette's.
#[test]
fn assembler_writes_every_cell_from_the_palette() {
    let width: usize = 3;
    let height: usize = 3;
    let g = GenerateOrdering::new(width, height, vec![(0, 0)], 0, false);
    let source: Vec<(u8, u8, u8)> = (1..=9).map(|i| (10 * i as u8, 0, 0)).collect();
    let palette = ColorSelectionModel::new(source.clone(), 4, false);
    let ci = CreateImage::new(palette, g);
    let mut written = Vec::new();
    for row in &ci.output_img {
        for &c in row {
            written.push(c);
        }
    }
    let mut expected = source.clone();
    expected.sort();
    written.sort();
    assert_eq!(written, expected);
}
