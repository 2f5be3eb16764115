use deskthing::buffer::DoubleBuffer;

#[test]
fn a_new_buffer_starts_committed() {
    let buffer = DoubleBuffer::new(vec![1, 2, 3]);

    assert_eq!(&vec![1, 2, 3], buffer.state());
}

#[test]
fn generate_reads_the_committed_state_and_commits_the_result() {
    let mut buffer = DoubleBuffer::new(vec![1, 2, 3]);

    buffer.generate(|current: &Vec<i32>, next: &mut Vec<i32>| {
        for (slot, value) in next.iter_mut().zip(current) {
            *slot = value * 10;
        }
    });

    assert_eq!(&vec![10, 20, 30], buffer.state());
}

#[test]
fn generate_sees_the_previous_generation_not_its_own_output() {
    let mut buffer = DoubleBuffer::new(vec![1, 1, 1]);

    // Each slot reads its left neighbour. If writes were visible to later
    // reads, the 9 would cascade along the vector instead of shifting once.
    buffer.generate(|current: &Vec<i32>, next: &mut Vec<i32>| {
        for i in 0..next.len() {
            next[i] = if i == 0 { 9 } else { current[i - 1] };
        }
    });

    assert_eq!(&vec![9, 1, 1], buffer.state());
}

#[test]
fn generations_compose() {
    let mut buffer = DoubleBuffer::new(0);

    for _ in 0..5 {
        buffer.generate(|current: &i32, next: &mut i32| *next = current + 1);
    }

    assert_eq!(&5, buffer.state());
}

/// Committing swaps rather than copies, so the scratch is two generations
/// old. This pins what goes wrong when `generate` skips an element.
#[test]
fn a_partially_written_scratch_resurrects_an_older_generation() {
    let mut buffer = DoubleBuffer::new(vec![0, 0]);

    buffer.generate(|_: &Vec<i32>, next: &mut Vec<i32>| next[0] = 1);
    assert_eq!(&vec![1, 0], buffer.state());

    // Only slot 0 is written again. Slot 1 comes back holding generation
    // zero rather than the value committed a moment ago.
    buffer.generate(|_: &Vec<i32>, next: &mut Vec<i32>| next[0] = 2);
    assert_eq!(
        &vec![2, 0],
        buffer.state(),
        "slot 1 should have been resurrected from two generations ago"
    );
}

#[test]
fn a_buffer_built_from_a_value_starts_committed() {
    let buffer: DoubleBuffer<Vec<u8>> = DoubleBuffer::from(vec![4, 5]);

    assert_eq!(&vec![4, 5], buffer.state());
}

#[test]
fn the_scratch_of_a_fresh_buffer_is_a_copy_of_the_state() {
    let mut buffer = DoubleBuffer::new(vec![7, 8]);

    // Writing nothing commits the scratch as it arrived.
    buffer.generate(|_: &Vec<i32>, _: &mut Vec<i32>| {});

    assert_eq!(&vec![7, 8], buffer.state());
}
