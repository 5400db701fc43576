use pleroma_core::curve::GRID_SIDE;
use pleroma_core::reconstruct_1d_to_2d;
use pleroma_core::strip_2d_to_1d;
use pleroma_core::try_reconstruct_1d_to_2d;
use pleroma_core::try_strip_2d_to_1d;
use pleroma_core::CurveError;

/// Deterministic pseudo-random stream for sampling the full coordinate range.
fn lcg_next(state: &mut u64) -> u64 {
    *state = state.wrapping_mul(6364136223846793005).wrapping_add(1442695040888963407);
    *state >> 33
}

#[test]
fn round_trip_exhaustive_small() {
    for x in 0u32..64 {
        for y in 0u32..64 {
            let z = strip_2d_to_1d(x, y);
            assert_eq!(reconstruct_1d_to_2d(z), (x, y));
        }
    }
}

#[test]
fn round_trip_sampled_full_range() {
    let mut state: u64 = 0x5eed;
    for _ in 0..4096 {
        let x = (lcg_next(&mut state) % GRID_SIDE as u64) as u32;
        let y = (lcg_next(&mut state) % GRID_SIDE as u64) as u32;
        let z = strip_2d_to_1d(x, y);
        assert_eq!(reconstruct_1d_to_2d(z), (x, y));
    }
}

#[test]
fn no_collisions_on_sampled_grid() {
    let mut indices: Vec<u64> = Vec::new();
    for x in 0u32..128 {
        for y in 0u32..128 {
            indices.push(strip_2d_to_1d(x, y));
        }
    }
    indices.sort_unstable();
    for pair in indices.windows(2) {
        assert_ne!(pair[0], pair[1]);
    }
}

#[test]
fn no_collisions_on_scattered_sample() {
    let mut state: u64 = 0xc01dcafe;
    let mut points: Vec<(u32, u32)> = Vec::new();
    for _ in 0..2048 {
        let x = (lcg_next(&mut state) % GRID_SIDE as u64) as u32;
        let y = (lcg_next(&mut state) % GRID_SIDE as u64) as u32;
        points.push((x, y));
    }
    points.sort_unstable();
    points.dedup();
    let mut indices: Vec<u64> = points.iter().map(|&(x, y)| strip_2d_to_1d(x, y)).collect();
    indices.sort_unstable();
    for pair in indices.windows(2) {
        assert_ne!(pair[0], pair[1]);
    }
}

#[test]
fn range_bounds() {
    let mut state: u64 = 7;
    for _ in 0..2048 {
        let x = (lcg_next(&mut state) % GRID_SIDE as u64) as u32;
        let y = (lcg_next(&mut state) % GRID_SIDE as u64) as u32;
        assert!(strip_2d_to_1d(x, y) < 1u64 << 32);
        let z = lcg_next(&mut state) % (1u64 << 32);
        let (px, py) = reconstruct_1d_to_2d(z);
        assert!(px < GRID_SIDE && py < GRID_SIDE);
    }
    assert!(strip_2d_to_1d(65535, 65535) < 1u64 << 32);
    let (px, py) = reconstruct_1d_to_2d((1u64 << 32) - 1);
    assert!(px < GRID_SIDE && py < GRID_SIDE);
}

#[test]
fn locality_adjacent_beats_random() {
    let mut state: u64 = 0xfeed;
    let samples: u64 = 4096;
    let mut adjacent_total: u64 = 0;
    let mut random_total: u64 = 0;
    for _ in 0..samples {
        let x = (lcg_next(&mut state) % (GRID_SIDE as u64 - 1)) as u32;
        let y = (lcg_next(&mut state) % GRID_SIDE as u64) as u32;
        let near = strip_2d_to_1d(x, y).abs_diff(strip_2d_to_1d(x + 1, y));
        adjacent_total += near;
        let x2 = (lcg_next(&mut state) % GRID_SIDE as u64) as u32;
        let y2 = (lcg_next(&mut state) % GRID_SIDE as u64) as u32;
        let far = strip_2d_to_1d(x, y).abs_diff(strip_2d_to_1d(x2, y2));
        random_total += far;
    }
    let adjacent_avg = adjacent_total / samples;
    let random_avg = random_total / samples;
    assert!(adjacent_avg * 10 < random_avg);
}

#[test]
fn boundary_literals() {
    assert_eq!(strip_2d_to_1d(0, 0), 0);
    assert_eq!(reconstruct_1d_to_2d(0), (0, 0));
    assert_eq!(strip_2d_to_1d(65535, 65535), 2863311530);
    assert_eq!(reconstruct_1d_to_2d(2863311530), (65535, 65535));
}

#[test]
fn out_of_domain_rejected() {
    assert_eq!(try_strip_2d_to_1d(65536, 0), Err(CurveError::OutOfDomain));
    assert_eq!(try_strip_2d_to_1d(0, 65536), Err(CurveError::OutOfDomain));
    assert_eq!(try_strip_2d_to_1d(u32::MAX, u32::MAX), Err(CurveError::OutOfDomain));
    assert_eq!(try_reconstruct_1d_to_2d(1u64 << 32), Err(CurveError::OutOfDomain));
    assert_eq!(try_reconstruct_1d_to_2d(u64::MAX), Err(CurveError::OutOfDomain));
}

#[test]
fn checked_variants_accept_domain() {
    assert_eq!(try_strip_2d_to_1d(65535, 65535), Ok(2863311530));
    assert_eq!(try_strip_2d_to_1d(0, 0), Ok(0));
    assert_eq!(try_reconstruct_1d_to_2d((1u64 << 32) - 1), Ok(reconstruct_1d_to_2d((1u64 << 32) - 1)));
    assert_eq!(try_reconstruct_1d_to_2d(2863311530), Ok((65535, 65535)));
}
