use deskthing::bitmap::BinaryBitmap;
use deskthing::edt::{edt_1d, squared_edt_from_bitmap};
use deskthing::grid::Grid;

/// Builds a bitmap from row-major `true`/`false` values.
fn bitmap(cells: Vec<bool>, columns: usize, rows: usize) -> BinaryBitmap {
    BinaryBitmap::new(Grid::new(cells, columns, rows))
}

#[test]
fn edt_1d_measures_squared_distance_from_a_single_seed() {
    let squared = edt_1d(&[Some(0), None, None, None]);
    assert_eq!(vec![Some(0), Some(1), Some(4), Some(9)], squared);
}

#[test]
fn edt_1d_takes_the_nearest_of_several_seeds() {
    let squared = edt_1d(&[Some(0), None, None, Some(0)]);
    assert_eq!(vec![Some(0), Some(1), Some(1), Some(0)], squared);
}

#[test]
fn edt_is_euclidean_not_manhattan() {
    // Only the centre is set, so the corners sit a true diagonal away.
    let centre_only = bitmap(
        vec![
            false, false, false, //
            false, true, false, //
            false, false, false,
        ],
        3,
        3,
    );

    let squared = squared_edt_from_bitmap(&centre_only, true);

    assert_eq!(Some(0), *squared.get(1, 1).unwrap());
    assert_eq!(Some(1), *squared.get(1, 0).unwrap());
    assert_eq!(Some(1), *squared.get(0, 1).unwrap());

    // Manhattan would give 2.0 here.
    let corner = (squared.get(0, 0).unwrap().unwrap() as f32).sqrt();
    assert!(
        (corner - std::f32::consts::SQRT_2).abs() < 1e-5,
        "expected sqrt(2), got {corner}"
    );
}

#[test]
fn edt_1d_without_seeds_is_empty_everywhere() {
    assert_eq!(vec![None, None, None], edt_1d(&[None, None, None]));
    assert_eq!(Vec::<Option<u64>>::new(), edt_1d(&[]));
}

#[test]
fn edt_1d_adds_each_seed_value_to_its_parabola() {
    // The seed at 1 holds 5, the one at 4 holds 0: position 2 is 6 from the
    // first and 4 from the second.
    let squared = edt_1d(&[None, Some(5), None, None, Some(0)]);
    assert_eq!(vec![Some(6), Some(5), Some(4), Some(1), Some(0)], squared);
}

#[test]
fn edt_1d_pops_parabolas_the_next_seed_hides() {
    // A high seed between two low ones never shows in the envelope.
    let squared = edt_1d(&[Some(0), None, Some(100), None, Some(0)]);
    assert_eq!(vec![Some(0), Some(1), Some(4), Some(1), Some(0)], squared);
}

#[test]
fn edt_of_a_bitmap_without_targets_is_empty() {
    let empty = bitmap(vec![false; 6], 3, 2);
    let squared = squared_edt_from_bitmap(&empty, true);
    assert_eq!(3, squared.columns());
    assert_eq!(2, squared.rows());
    assert!(squared.iter().iter().all(|d| d.is_none()));
}

#[test]
fn edt_measures_from_the_cells_equal_to_the_target() {
    // The left half is solid: outside it the distance grows to the right,
    // inside it the distance to open space grows to the left.
    let left_half = bitmap((0..64).map(|i| i % 8 < 4).collect(), 8, 8);

    let outside = squared_edt_from_bitmap(&left_half, true);
    let inside = squared_edt_from_bitmap(&left_half, false);

    for row in 0..8 {
        for column in 0..8 {
            let (to_solid, to_open) = if column < 4 {
                (0, (4 - column) * (4 - column))
            } else {
                ((column - 3) * (column - 3), 0)
            };
            assert_eq!(Some(to_solid), *outside.get(column as isize, row).unwrap());
            assert_eq!(Some(to_open), *inside.get(column as isize, row).unwrap());
        }
    }
}

#[test]
fn edt_takes_the_diagonal_to_a_far_corner() {
    let mut cells = vec![false; 20];
    cells[0] = true;
    let corner = bitmap(cells, 5, 4);
    let squared = squared_edt_from_bitmap(&corner, true);
    assert_eq!(Some(4 * 4 + 3 * 3), *squared.get(4, 3).unwrap());
    assert_eq!(Some(2 * 2 + 1), *squared.get(2, 1).unwrap());
}
