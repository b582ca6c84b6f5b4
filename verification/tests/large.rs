use raster_pathfinding::algorithm::Algorithm;
use raster_pathfinding::field::{CostField, CostVolume, Position2D, Position3D};
use raster_pathfinding::search::{search_2d, search_volume};

fn noise(seed: u64, n: usize, modulus: u64) -> Vec<u8> {
    let mut state = seed;
    let mut out = Vec::with_capacity(n);
    for _ in 0..n {
        state = state.wrapping_mul(6364136223846793005).wrapping_add(1442695040888963407);
        out.push(((state >> 33) % modulus) as u8);
    }
    out
}

/// Least cost from `start` to every cell by repeated relaxation until nothing changes.
fn settle_plane(w: usize, h: usize, cells: &Vec<u8>, start: (usize, usize)) -> Vec<Option<u64>> {
    let mut best: Vec<Option<u64>> = vec![None; w * h];
    if cells[start.1 * w + start.0] < 255 {
        best[start.1 * w + start.0] = Some(cells[start.1 * w + start.0] as u64);
    }
    let mut changed = true;
    while changed {
        changed = false;
        for y in 0..h {
            for x in 0..w {
                let here = match best[y * w + x] {
                    Some(c) => c,
                    None => continue,
                };
                for dy in -1i64..=1 {
                    for dx in -1i64..=1 {
                        if dx == 0 && dy == 0 {
                            continue;
                        }
                        let nx = x as i64 + dx;
                        let ny = y as i64 + dy;
                        if nx < 0 || ny < 0 || nx >= w as i64 || ny >= h as i64 {
                            continue;
                        }
                        let k = ny as usize * w + nx as usize;
                        if cells[k] == 255 {
                            continue;
                        }
                        let c = here + cells[k] as u64;
                        if best[k].map_or(true, |old| c < old) {
                            best[k] = Some(c);
                            changed = true;
                        }
                    }
                }
            }
        }
    }
    best
}

#[test]
fn searches_over_a_noisy_field_find_the_least_cost() {
    let w = 40usize;
    let h = 30usize;
    for seed in 1..4u64 {
        let mut cells = noise(seed, w * h, 12);
        // Scatter impassable cells.
        for (i, c) in cells.iter_mut().enumerate() {
            if (i * 7 + seed as usize) % 11 == 0 {
                *c = 255;
            }
        }
        cells[0] = 1;
        let f = CostField::new(w, h, cells.clone()).unwrap();
        let best = settle_plane(w, h, &cells, (0, 0));
        for (ex, ey) in [(w - 1, h - 1), (w / 2, h / 2), (0, h - 1), (w - 1, 0), (3, 4)] {
            let expected = best[ey * w + ex];
            for algorithm in [Algorithm::UniformCost, Algorithm::HeuristicGuided, Algorithm::Fringe] {
                let found = search_2d(&f, Position2D { x: 0, y: 0 }, Position2D { x: ex, y: ey }, algorithm)
                    .unwrap();
                assert_eq!(found.as_ref().map(|r| r.1), expected);
                if let Some((path, total)) = found {
                    let mut sum = 0u64;
                    for p in &path {
                        sum += cells[p.y * w + p.x] as u64;
                    }
                    assert_eq!(sum, total);
                }
            }
        }
    }
}

#[test]
fn searches_over_a_field_without_free_cells_find_the_least_cost() {
    // No cell costs nothing, so the estimate of the guided searches is not zero.
    let w = 25usize;
    let h = 25usize;
    let cells: Vec<u8> = noise(9, w * h, 9).into_iter().map(|c| c + 3).collect();
    let f = CostField::new(w, h, cells.clone()).unwrap();
    let best = settle_plane(w, h, &cells, (12, 12));
    for (ex, ey) in [(0, 0), (24, 24), (24, 0), (0, 24), (12, 13), (12, 12)] {
        for algorithm in [Algorithm::UniformCost, Algorithm::HeuristicGuided, Algorithm::Fringe] {
            let (_, total) = search_2d(&f, Position2D { x: 12, y: 12 }, Position2D { x: ex, y: ey }, algorithm)
                .unwrap()
                .unwrap();
            assert_eq!(Some(total), best[ey * w + ex]);
        }
    }
}

/// Least cost of crossing a volume along the layers, layer by layer.
fn sweep_volume(w: usize, h: usize, d: usize, cells: &Vec<u8>, reach: usize) -> Option<u64> {
    let mut prev: Vec<Option<u64>> = (0..w * h)
        .map(|k| if cells[k] < 255 { Some(cells[k] as u64) } else { None })
        .collect();
    for l in 1..d {
        let mut next: Vec<Option<u64>> = vec![None; w * h];
        for y in 0..h {
            for x in 0..w {
                let c = cells[(l * h + y) * w + x];
                if c == 255 {
                    continue;
                }
                let mut least: Option<u64> = None;
                for py in y.saturating_sub(reach)..=(y + reach).min(h - 1) {
                    for px in x.saturating_sub(reach)..=(x + reach).min(w - 1) {
                        if let Some(p) = prev[py * w + px] {
                            if least.map_or(true, |old| p < old) {
                                least = Some(p);
                            }
                        }
                    }
                }
                next[y * w + x] = least.map(|p| p + c as u64);
            }
        }
        prev = next;
    }
    prev.into_iter().flatten().min()
}

#[test]
fn searches_over_a_noisy_volume_find_the_least_cost() {
    let (w, h, d) = (12usize, 9usize, 15usize);
    for seed in 1..4u64 {
        let mut cells: Vec<u8> = noise(seed + 40, w * h * d, 30).into_iter().map(|c| c + 2).collect();
        for (i, c) in cells.iter_mut().enumerate() {
            if (i * 5 + seed as usize) % 13 == 0 {
                *c = 255;
            }
        }
        let v = CostVolume::new(w, h, d, cells.clone()).unwrap();
        for reach in 0..4usize {
            let expected = sweep_volume(w, h, d, &cells, reach);
            for algorithm in [Algorithm::UniformCost, Algorithm::HeuristicGuided] {
                let found = search_volume(&v, algorithm, None, None, Some(reach), Some(2)).unwrap();
                assert_eq!(found.as_ref().map(|r| r.1), expected);
                if let Some((path, _)) = found {
                    assert_eq!(path.len(), d);
                    assert_eq!(path[0].layer, 0);
                    assert_eq!(path[d - 1], Position3D { x: path[d - 1].x, y: path[d - 1].y, layer: d - 1 });
                }
            }
        }
    }
}
