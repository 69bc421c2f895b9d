use seed_ecs::utils::bvec::{position, BMask, CAPACITY};

#[test]
fn position_splits_a_slot_by_row() {
    assert_eq!(position(0, 1), (0, 0));
    assert_eq!(position(31, 1), (0, 31));
    assert_eq!(position(32, 1), (1, 0));
    assert_eq!(position(1_000_000, 1), (31250, 0));
    assert_eq!(position(1_000_000, 2), (976, 18));
    assert_eq!(position(1_000_000, 3), (30, 16));
    assert_eq!(position(1_000_000, 4), (0, 30));
    assert_eq!(position(1_048_575, 1), (32767, 31));
    assert_eq!(position(1_048_575, 4), (0, 31));
    assert_eq!(position(1_048_576, 4), (1, 0));
}

#[test]
fn new_index_is_empty() {
    let m = BMask::new();
    assert!(!m.is_present(0));
    assert!(!m.is_present(CAPACITY - 1));
    assert!(!m.is_present(CAPACITY));
    assert!(!m.is_present(usize::MAX));
    assert_eq!(m.first_empty_spot(), Some(0));
    assert_eq!(m.next(0), None);
    assert_eq!(m.word_at(0, 0), 0);
}

#[test]
fn add_sets_the_whole_path() {
    let mut m = BMask::new();
    m.add(1_000_000);
    assert!(m.is_present(1_000_000));
    assert!(!m.is_present(999_999));
    assert!(!m.is_present(1_000_001));
    assert_eq!(m.word_at(3, 31250), 1);
    assert_eq!(m.word_at(2, 976), 1 << 18);
    assert_eq!(m.word_at(1, 30), 1 << 16);
    assert_eq!(m.word_at(0, 0), 1 << 30);
    m.add(1_000_000);
    assert_eq!(m.word_at(3, 31250), 1);
    assert_eq!(m.word_at(0, 0), 1 << 30);
}

#[test]
fn remove_clears_upward_only_while_words_empty() {
    let mut m = BMask::new();
    m.add(0);
    m.add(1);
    m.add(40);
    m.add(5000);
    assert_eq!(m.word_at(3, 0), 0b11);
    assert_eq!(m.word_at(2, 0), 0b11);
    assert_eq!(m.word_at(1, 0), 0b10001);
    assert_eq!(m.word_at(0, 0), 1);
    m.remove(0);
    assert_eq!(m.word_at(3, 0), 0b10);
    assert_eq!(m.word_at(2, 0), 0b11);
    m.remove(1);
    assert_eq!(m.word_at(3, 0), 0);
    assert_eq!(m.word_at(2, 0), 0b10);
    assert_eq!(m.word_at(1, 0), 0b10001);
    m.remove(40);
    assert_eq!(m.word_at(2, 0), 0);
    assert_eq!(m.word_at(1, 0), 0b10000);
    assert_eq!(m.word_at(0, 0), 1);
    m.remove(5000);
    assert_eq!(m.word_at(1, 0), 0);
    assert_eq!(m.word_at(0, 0), 0);
    assert!(!m.is_present(5000));
}

#[test]
fn remove_of_an_empty_slot_changes_nothing() {
    let mut m = BMask::new();
    m.add(33);
    m.remove(34);
    m.remove(CAPACITY + 33);
    m.remove(usize::MAX);
    assert!(m.is_present(33));
    assert_eq!(m.word_at(3, 1), 0b10);
    assert_eq!(m.word_at(0, 0), 1);
}

#[test]
fn first_empty_spot_is_the_lowest_gap() {
    let mut m = BMask::new();
    for s in 0..2000 {
        m.add(s);
    }
    assert_eq!(m.first_empty_spot(), Some(2000));
    m.remove(1024);
    assert_eq!(m.first_empty_spot(), Some(1024));
    m.remove(31);
    assert_eq!(m.first_empty_spot(), Some(31));
    m.add(31);
    m.add(1024);
    m.add(2001);
    assert_eq!(m.first_empty_spot(), Some(2000));
}

#[test]
fn first_empty_spot_passes_a_full_subtree() {
    let mut m = BMask::new();
    for s in 0..32768 + 5 {
        m.add(s);
    }
    assert_eq!(m.first_empty_spot(), Some(32768 + 5));
    m.add(70_000);
    assert_eq!(m.first_empty_spot(), Some(32768 + 5));
}

#[test]
fn first_empty_spot_reports_a_full_index() {
    let mut m = BMask::new();
    for s in 0..CAPACITY {
        m.add(s);
    }
    assert_eq!(m.first_empty_spot(), None);
    assert_eq!(m.word_at(0, 0), u32::MAX);
    m.remove(CAPACITY - 1);
    assert_eq!(m.first_empty_spot(), Some(CAPACITY - 1));
}

#[test]
fn next_is_the_lowest_occupied_slot_above() {
    let mut m = BMask::new();
    for s in [0usize, 3, 31, 32, 1023, 1024, 40_000, 1_048_575] {
        m.add(s);
    }
    assert_eq!(m.next(0), Some(3));
    assert_eq!(m.next(1), Some(3));
    assert_eq!(m.next(3), Some(31));
    assert_eq!(m.next(31), Some(32));
    assert_eq!(m.next(32), Some(1023));
    assert_eq!(m.next(1023), Some(1024));
    assert_eq!(m.next(1024), Some(40_000));
    assert_eq!(m.next(39_999), Some(40_000));
    assert_eq!(m.next(40_000), Some(1_048_575));
    assert_eq!(m.next(1_048_574), Some(1_048_575));
    assert_eq!(m.next(1_048_575), None);
    assert_eq!(m.next(usize::MAX), None);
}

fn step(state: &mut u64) -> usize {
    *state = state.wrapping_mul(6364136223846793005).wrapping_add(1442695040888963407);
    (*state >> 33) as usize
}

fn check_against_flat(m: &BMask, flat: &[bool]) {
    let mut below: Vec<u32> = (0..32768usize)
        .map(|n| {
            let mut w = 0u32;
            for q in 0..32 {
                if flat[n * 32 + q] {
                    w |= 1 << q;
                }
            }
            w
        })
        .collect();
    for n in 0..32768 {
        assert_eq!(m.word_at(3, n), below[n]);
    }
    for level in [2usize, 1, 0] {
        let count = below.len() / 32;
        let mut here = Vec::with_capacity(count);
        for n in 0..count {
            let mut w = 0u32;
            for q in 0..32 {
                if below[n * 32 + q] != 0 {
                    w |= 1 << q;
                }
            }
            assert_eq!(m.word_at(level, n), w);
            let all_below_zero = (0..32).all(|q| below[n * 32 + q] == 0);
            assert_eq!(m.word_at(level, n) == 0, all_below_zero);
            here.push(w);
        }
        below = here;
    }
}

#[test]
fn levels_agree_with_a_flat_bitmap() {
    let mut m = BMask::new();
    let mut flat = vec![false; CAPACITY];
    let mut state = 0x5eed_u64;
    for round in 0..6 {
        let span = [64usize, 2048, 70_000, CAPACITY, 4096, 40][round];
        for _ in 0..3000 {
            let s = step(&mut state) % span;
            if step(&mut state) % 3 == 0 {
                m.remove(s);
                flat[s] = false;
            } else {
                m.add(s);
                flat[s] = true;
            }
            assert_eq!(m.is_present(s), flat[s]);
        }
        check_against_flat(&m, &flat);
        assert_eq!(m.first_empty_spot(), flat.iter().position(|b| !*b));
        let from = step(&mut state) % span;
        assert_eq!(
            m.next(from),
            (from + 1..CAPACITY).find(|s| flat[*s])
        );
    }
    for s in 0..CAPACITY {
        if flat[s] {
            m.remove(s);
            flat[s] = false;
        }
    }
    check_against_flat(&m, &flat);
    assert_eq!(m.word_at(0, 0), 0);
}
