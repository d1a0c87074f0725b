use parmap::chunk::{plan, tiles, Chunk};
use parmap::error::ConfigError;

fn chunk(offset: usize, length: usize) -> Chunk {
    Chunk { offset, length }
}

/// Checks by hand that `chunks` lie end to end from zero to `total`.
fn lies_end_to_end(chunks: &[Chunk], total: usize) -> bool {
    let mut reached = 0;
    for c in chunks {
        if c.offset != reached {
            return false;
        }
        reached += c.length;
    }
    reached == total
}

#[test]
fn plan_64_over_3() {
    let chunks = plan(64, 3).unwrap();
    assert_eq!(chunks, vec![chunk(0, 22), chunk(22, 22), chunk(44, 20)]);
}

#[test]
fn plan_64_over_7_has_short_last_chunk() {
    let chunks = plan(64, 7).unwrap();
    assert_eq!(
        chunks,
        vec![
            chunk(0, 10),
            chunk(10, 10),
            chunk(20, 10),
            chunk(30, 10),
            chunk(40, 10),
            chunk(50, 10),
            chunk(60, 4),
        ]
    );
}

#[test]
fn plan_divides_evenly() {
    assert_eq!(
        plan(12, 4).unwrap(),
        vec![chunk(0, 3), chunk(3, 3), chunk(6, 3), chunk(9, 3)]
    );
}

#[test]
fn plan_one_thread_is_whole_buffer() {
    assert_eq!(plan(64, 1).unwrap(), vec![chunk(0, 64)]);
    assert_eq!(plan(1, 1).unwrap(), vec![chunk(0, 1)]);
}

#[test]
fn plan_as_many_threads_as_elements() {
    assert_eq!(
        plan(4, 4).unwrap(),
        vec![chunk(0, 1), chunk(1, 1), chunk(2, 1), chunk(3, 1)]
    );
}

#[test]
fn plan_more_threads_than_elements_is_clamped() {
    assert_eq!(plan(3, 5).unwrap(), vec![chunk(0, 1), chunk(1, 1), chunk(2, 1)]);
    assert_eq!(plan(1, 1000).unwrap(), vec![chunk(0, 1)]);
}

#[test]
fn plan_last_chunk_may_be_empty() {
    // ceil(10 / 6) = 2, and five chunks of two use the buffer up.
    assert_eq!(
        plan(10, 6).unwrap(),
        vec![
            chunk(0, 2),
            chunk(2, 2),
            chunk(4, 2),
            chunk(6, 2),
            chunk(8, 2),
            chunk(10, 0),
        ]
    );
}

#[test]
fn plan_never_reaches_past_the_buffer() {
    // ceil(10 / 7) = 2: six chunks of two would need twelve elements.
    assert_eq!(
        plan(10, 7).unwrap(),
        vec![
            chunk(0, 2),
            chunk(2, 2),
            chunk(4, 2),
            chunk(6, 2),
            chunk(8, 2),
            chunk(10, 0),
            chunk(10, 0),
        ]
    );
}

#[test]
fn plan_empty_buffer_has_no_chunk() {
    assert_eq!(plan(0, 1).unwrap(), Vec::<Chunk>::new());
    assert_eq!(plan(0, 8).unwrap(), Vec::<Chunk>::new());
    assert_eq!(plan(0, usize::MAX).unwrap(), Vec::<Chunk>::new());
}

#[test]
fn plan_zero_threads_is_refused() {
    assert_eq!(plan(64, 0), Err(ConfigError::InvalidConfiguration));
    assert_eq!(plan(0, 0), Err(ConfigError::InvalidConfiguration));
}

#[test]
fn plan_largest_buffer_does_not_overflow() {
    assert_eq!(plan(usize::MAX, 1).unwrap(), vec![chunk(0, usize::MAX)]);
    let half = usize::MAX / 2 + 1;
    assert_eq!(
        plan(usize::MAX, 2).unwrap(),
        vec![chunk(0, half), chunk(half, usize::MAX - half)]
    );
    let third = usize::MAX / 3;
    assert_eq!(
        plan(usize::MAX, 3).unwrap(),
        vec![chunk(0, third), chunk(third, third), chunk(2 * third, third)]
    );
}

#[test]
fn plan_tiles_every_small_buffer() {
    for total in 0..48usize {
        for threads in 1..56usize {
            let chunks = plan(total, threads).unwrap();
            assert_eq!(chunks.len(), threads.min(total));
            assert!(lies_end_to_end(&chunks, total));
            assert!(tiles(&chunks, total));
            for i in 0..chunks.len() {
                for j in i + 1..chunks.len() {
                    assert!(chunks[i].offset + chunks[i].length <= chunks[j].offset);
                }
            }
            for k in 0..total {
                let holders = chunks
                    .iter()
                    .filter(|c| c.offset <= k && k < c.offset + c.length)
                    .count();
                assert_eq!(holders, 1);
            }
        }
    }
}

#[test]
fn plan_uses_nominal_length_while_it_fits() {
    for total in 1..48usize {
        for threads in 1..=total {
            let size = (total + threads - 1) / threads;
            let chunks = plan(total, threads).unwrap();
            if size * (threads - 1) <= total {
                for (i, c) in chunks.iter().enumerate() {
                    assert_eq!(c.offset, i * size);
                    if i + 1 < threads {
                        assert_eq!(c.length, size);
                    } else {
                        assert_eq!(c.length, total - size * (threads - 1));
                    }
                }
            }
        }
    }
}

#[test]
fn tiles_accepts_a_partition() {
    assert!(tiles(&vec![chunk(0, 2), chunk(2, 3), chunk(5, 1)], 6));
    assert!(tiles(&vec![chunk(0, 0), chunk(0, 4), chunk(4, 0)], 4));
    assert!(tiles(&Vec::new(), 0));
}

#[test]
fn tiles_rejects_what_is_no_partition() {
    // a gap
    assert!(!tiles(&vec![chunk(0, 2), chunk(3, 3)], 6));
    // an overlap
    assert!(!tiles(&vec![chunk(0, 3), chunk(2, 4)], 6));
    // does not start at zero
    assert!(!tiles(&vec![chunk(1, 5)], 6));
    // stops short
    assert!(!tiles(&vec![chunk(0, 2), chunk(2, 3)], 6));
    // reaches past the end
    assert!(!tiles(&vec![chunk(0, 2), chunk(2, 5)], 6));
    assert!(!tiles(&vec![chunk(0, usize::MAX), chunk(usize::MAX, 1)], 6));
    // nothing for a buffer that is not empty
    assert!(!tiles(&Vec::new(), 1));
}
