use deskthing::chunks::{neighbour_indices, rebuild_chunks};
use deskthing::grid::Grid;
use deskthing::handles::{Effect, LayerId, SoundId, TextureId};

#[test]
fn placements_are_filed_under_their_chunk() {
    let mut chunks: Grid<Vec<usize>> = Grid::with_defaults(1, 1);
    chunks.get_mut(0, 0).unwrap().push(99);

    let placements = vec![(0, 0, 0), (1, 1, 0), (2, 0, 0), (3, 5, 5), (4, 1, 1)];
    rebuild_chunks(&mut chunks, 2, 2, &placements);

    assert_eq!(Some(&vec![0, 2]), chunks.get(0, 0));
    assert_eq!(Some(&vec![1]), chunks.get(1, 0));
    assert_eq!(Some(&vec![]), chunks.get(0, 1));
    assert_eq!(Some(&vec![4]), chunks.get(1, 1));
}

#[test]
fn neighbour_candidates_leave_out_the_asker() {
    let mut chunks: Grid<Vec<usize>> = Grid::with_defaults(3, 1);
    let placements = vec![(0, 0, 0), (1, 1, 0), (2, 2, 0), (3, 1, 0)];
    rebuild_chunks(&mut chunks, 3, 1, &placements);

    assert_eq!(vec![0, 3, 2], neighbour_indices(&chunks, 1, 0, 1));
    assert_eq!(vec![0, 1, 3], neighbour_indices(&chunks, 0, 0, 9));
}

#[test]
fn handles_compare_by_value() {
    assert_eq!(TextureId(1), TextureId(1));
    assert_ne!(LayerId(0), LayerId(1));
    assert_ne!(SoundId(2), SoundId(3));
    assert_eq!(Effect::Plain, Effect::default());
}
