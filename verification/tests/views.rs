use parmap::chunk::{plan, Chunk};
use parmap::error::ConfigError;
use parmap::view::{split, split_mut, view, view_mut, Movable, MovableMut};

#[test]
fn movable_holds_its_view() {
    let buffer = [1u8, 2, 3];
    let handle = Movable::new(&buffer[..]);
    assert_eq!(handle.get(), Some(&buffer[..]));
    // a shared view can be had again
    assert_eq!(handle.get(), Some(&buffer[..]));
}

#[test]
fn movable_vacant_gives_nothing() {
    let handle: Movable<u8> = Movable::vacant();
    assert_eq!(handle.get(), None);
}

#[test]
fn movable_mut_hands_its_view_out_once() {
    let mut buffer = [1u8, 2, 3];
    let mut handle = MovableMut::new(&mut buffer[..]);
    let window = handle.get().unwrap();
    assert_eq!(window.len(), 3);
    window[1] = 9;
    assert!(handle.get().is_none());
    assert_eq!(buffer, [1, 9, 3]);
}

#[test]
fn movable_mut_vacant_gives_nothing() {
    let mut handle: MovableMut<u8> = MovableMut::vacant();
    assert!(handle.get().is_none());
}

#[test]
fn view_shows_the_chunk() {
    let buffer = [10u8, 11, 12, 13, 14];
    let handle = view(&buffer, Chunk { offset: 1, length: 3 }).unwrap();
    assert_eq!(handle.get().unwrap(), &[11, 12, 13]);
    let whole = view(&buffer, Chunk { offset: 0, length: 5 }).unwrap();
    assert_eq!(whole.get().unwrap(), &buffer[..]);
}

#[test]
fn view_of_empty_chunk_is_empty() {
    let buffer = [10u8, 11, 12];
    for offset in 0..=3 {
        let handle = view(&buffer, Chunk { offset, length: 0 }).unwrap();
        assert!(handle.get().unwrap().is_empty());
    }
}

#[test]
fn view_beyond_the_buffer_is_out_of_range() {
    let buffer = [10u8, 11, 12];
    assert_eq!(
        view(&buffer, Chunk { offset: 1, length: 3 }).err(),
        Some(ConfigError::OutOfRange)
    );
    assert_eq!(
        view(&buffer, Chunk { offset: 4, length: 0 }).err(),
        Some(ConfigError::OutOfRange)
    );
    assert_eq!(
        view(&buffer, Chunk { offset: 2, length: usize::MAX }).err(),
        Some(ConfigError::OutOfRange)
    );
    assert_eq!(
        view(&buffer, Chunk { offset: usize::MAX, length: usize::MAX }).err(),
        Some(ConfigError::OutOfRange)
    );
}

#[test]
fn view_mut_writes_land_in_the_chunk() {
    let mut buffer = [0u8; 6];
    {
        let mut handle = view_mut(&mut buffer, Chunk { offset: 2, length: 3 }).unwrap();
        let window = handle.get().unwrap();
        assert_eq!(window.len(), 3);
        for e in window.iter_mut() {
            *e = 7;
        }
    }
    assert_eq!(buffer, [0, 0, 7, 7, 7, 0]);
}

#[test]
fn view_mut_beyond_the_buffer_is_out_of_range() {
    let mut buffer = [1u8, 2, 3];
    assert_eq!(
        view_mut(&mut buffer, Chunk { offset: 2, length: 2 }).err(),
        Some(ConfigError::OutOfRange)
    );
    assert_eq!(
        view_mut(&mut buffer, Chunk { offset: usize::MAX, length: 1 }).err(),
        Some(ConfigError::OutOfRange)
    );
    assert_eq!(buffer, [1, 2, 3]);
}

#[test]
fn split_gives_one_view_per_chunk() {
    let buffer: Vec<u32> = (0..10).collect();
    let chunks = plan(buffer.len(), 4).unwrap();
    let views = split(&buffer, &chunks).unwrap();
    assert_eq!(views.len(), 4);
    assert_eq!(views[0].get().unwrap(), &[0, 1, 2]);
    assert_eq!(views[1].get().unwrap(), &[3, 4, 5]);
    assert_eq!(views[2].get().unwrap(), &[6, 7, 8]);
    assert_eq!(views[3].get().unwrap(), &[9]);
}

#[test]
fn split_of_empty_buffer_gives_no_view() {
    let buffer: Vec<u32> = Vec::new();
    let chunks = plan(0, 3).unwrap();
    assert!(split(&buffer, &chunks).unwrap().is_empty());
}

#[test]
fn split_refuses_chunks_that_do_not_tile() {
    let buffer = [0u8; 6];
    let gap = vec![Chunk { offset: 0, length: 2 }, Chunk { offset: 3, length: 3 }];
    assert_eq!(split(&buffer, &gap).err(), Some(ConfigError::OutOfRange));
    let short = vec![Chunk { offset: 0, length: 5 }];
    assert_eq!(split(&buffer, &short).err(), Some(ConfigError::OutOfRange));
    let long = plan(7, 2).unwrap();
    assert_eq!(split(&buffer, &long).err(), Some(ConfigError::OutOfRange));
    assert_eq!(split(&buffer, &Vec::new()).err(), Some(ConfigError::OutOfRange));
}

#[test]
fn split_mut_views_do_not_overlap() {
    let mut buffer = vec![0u8; 10];
    let chunks = plan(buffer.len(), 3).unwrap();
    {
        let views = split_mut(&mut buffer, &chunks).unwrap();
        assert_eq!(views.len(), 3);
        for (i, mut handle) in views.into_iter().enumerate() {
            let window = handle.get().unwrap();
            assert_eq!(window.len(), chunks[i].length);
            for e in window.iter_mut() {
                *e = i as u8 + 1;
            }
        }
    }
    assert_eq!(buffer, vec![1, 1, 1, 1, 2, 2, 2, 2, 3, 3]);
}

#[test]
fn split_mut_keeps_what_is_not_written() {
    let mut buffer = vec![5u8, 6, 7, 8];
    let chunks = plan(buffer.len(), 2).unwrap();
    {
        let mut views = split_mut(&mut buffer, &chunks).unwrap();
        let last = views[1].get().unwrap();
        last[0] = 0;
    }
    assert_eq!(buffer, vec![5, 6, 0, 8]);
}

#[test]
fn split_mut_refuses_chunks_that_do_not_tile() {
    let mut buffer = [1u8, 2, 3];
    let overlap = vec![Chunk { offset: 0, length: 2 }, Chunk { offset: 1, length: 2 }];
    assert_eq!(split_mut(&mut buffer, &overlap).err(), Some(ConfigError::OutOfRange));
    let past = vec![Chunk { offset: 0, length: 4 }];
    assert_eq!(split_mut(&mut buffer, &past).err(), Some(ConfigError::OutOfRange));
    assert_eq!(buffer, [1, 2, 3]);
}
