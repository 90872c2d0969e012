use quadimage::image::ImageData;
use quadimage::psa::{PrefixSum2D, QuadError};
use quadimage::rgb::RGB;
use quadimage::tree::{is_frame_step, Tree, MAX_ALPHA};

fn uniform(h: usize, w: usize, c: RGB) -> Vec<Vec<RGB>> {
    vec![vec![c; w]; h]
}

fn gradient(h: usize, w: usize) -> Vec<Vec<RGB>> {
    let mut g = Vec::new();
    for y in 0..h {
        let mut row = Vec::new();
        for x in 0..w {
            row.push(RGB::new(((y * 37 + x * 11) % 256) as u64, ((x * x + 3 * y) % 256) as u64, ((y * x * 7) % 256) as u64));
        }
        g.push(row);
    }
    g
}

fn brute_sum(g: &Vec<Vec<RGB>>, tl: (usize, usize), br: (usize, usize)) -> (u64, u64, u64) {
    let mut s = (0, 0, 0);
    for y in tl.0..=br.0 {
        for x in tl.1..=br.1 {
            s.0 += g[y][x].r;
            s.1 += g[y][x].g;
            s.2 += g[y][x].b;
        }
    }
    s
}

fn leaves(tree: &Tree) -> usize {
    tree.nodes().iter().filter(|n| n.children.is_none()).count()
}

#[test]
fn query_sum_matches_brute_force() {
    let g = gradient(5, 7);
    let t = PrefixSum2D::new(&g).unwrap();
    assert_eq!(t.height(), 5);
    assert_eq!(t.width(), 7);
    for r0 in 0..5 {
        for r1 in r0..5 {
            for c0 in 0..7 {
                for c1 in c0..7 {
                    let s = t.query_sum((r0, c0), (r1, c1));
                    assert_eq!((s.r, s.g, s.b), brute_sum(&g, (r0, c0), (r1, c1)));
                }
            }
        }
    }
}

#[test]
fn prefix_sum_rejects_empty_and_ragged() {
    let empty: Vec<Vec<RGB>> = Vec::new();
    assert!(matches!(PrefixSum2D::new(&empty), Err(QuadError::InvalidInput)));
    let no_cols: Vec<Vec<RGB>> = vec![Vec::new()];
    assert!(matches!(PrefixSum2D::new(&no_cols), Err(QuadError::InvalidInput)));
    let ragged = vec![vec![RGB::new(1, 1, 1); 3], vec![RGB::new(1, 1, 1); 2]];
    assert!(matches!(PrefixSum2D::new(&ragged), Err(QuadError::InvalidInput)));
}

#[test]
fn prefix_sum_rejects_overflowing_totals() {
    let g = vec![vec![RGB::new(u64::MAX, 0, 0), RGB::new(1, 0, 0)]];
    assert!(matches!(PrefixSum2D::new(&g), Err(QuadError::InvalidInput)));
    let fits = vec![vec![RGB::new(u64::MAX - 1, 0, 0), RGB::new(1, 0, 0)]];
    let t = PrefixSum2D::new(&fits).unwrap();
    assert_eq!(t.query_sum((0, 0), (0, 1)).r, u64::MAX);
}

#[test]
fn image_data_rejects_bad_grids() {
    let empty: Vec<Vec<RGB>> = Vec::new();
    assert!(matches!(ImageData::new(&empty), Err(QuadError::InvalidInput)));
    let ragged = vec![vec![RGB::new(1, 1, 1); 2], vec![RGB::new(1, 1, 1); 3]];
    assert!(matches!(ImageData::new(&ragged), Err(QuadError::InvalidInput)));
    let wide = vec![vec![RGB::new(1, 256, 1); 2]];
    assert!(matches!(ImageData::new(&wide), Err(QuadError::InvalidInput)));
}

#[test]
fn uniform_grid_scenario() {
    let data = ImageData::new(&uniform(4, 4, RGB::new(10, 20, 30))).unwrap();
    assert_eq!(data.height(), 4);
    assert_eq!(data.width(), 4);
    assert_eq!(data.average((0, 0), (3, 3)), RGB::new(10, 20, 30));
    assert_eq!(data.sum((0, 0), (3, 3)), RGB::new(160, 320, 480));
    assert_eq!(data.metric((0, 0), (3, 3)), 0);
    let mut tree = Tree::new(data);
    assert!(tree.refine().is_ok());
    let nodes = tree.nodes();
    assert_eq!(nodes.len(), 5);
    let c = nodes[0].children.unwrap();
    let rects: Vec<((usize, usize), (usize, usize))> =
        [c.nw, c.ne, c.sw, c.se].iter().map(|&i| (nodes[i].top_left, nodes[i].bottom_right)).collect();
    assert_eq!(rects, vec![((0, 0), (1, 1)), ((0, 2), (1, 3)), ((2, 0), (3, 1)), ((2, 2), (3, 3))]);
    for (tl, br) in rects {
        assert_eq!(tree.image_data().metric(tl, br), 0);
        assert_eq!(tree.image_data().average(tl, br), RGB::new(10, 20, 30));
    }
}

#[test]
fn checkerboard_two_by_two_scenario() {
    let black = RGB::new(0, 0, 0);
    let white = RGB::new(255, 255, 255);
    let data = ImageData::new(&vec![vec![black, white], vec![white, black]]).unwrap();
    assert_eq!(data.average((0, 0), (1, 1)), RGB::new(127, 127, 127));
    assert_eq!(data.metric((0, 0), (1, 1)), 196596);
    for y in 0..2 {
        for x in 0..2 {
            assert_eq!(data.metric((y, x), (y, x)), 0);
        }
    }
    let mut tree = Tree::new(data);
    // An extent of one step on each axis is not enough to split.
    assert_eq!(tree.refine(), Err(QuadError::NoMoreRefinableNodes));
    assert_eq!(tree.nodes().len(), 1);
}

#[test]
fn single_row_never_splits() {
    let data = ImageData::new(&gradient(1, 5)).unwrap();
    let mut tree = Tree::new(data);
    for _ in 0..3 {
        assert_eq!(tree.refine(), Err(QuadError::NoMoreRefinableNodes));
    }
    assert_eq!(tree.nodes().len(), 1);
    assert_eq!(leaves(&tree), 1);
}

#[test]
fn split_quadrants_tile_parent() {
    for (h, w) in [(3, 3), (3, 7), (4, 9), (8, 5)] {
        let data = ImageData::new(&gradient(h, w)).unwrap();
        let mut tree = Tree::new(data);
        tree.refine().unwrap();
        let nodes = tree.nodes();
        let c = nodes[0].children.unwrap();
        let kids = [c.nw, c.ne, c.sw, c.se];
        for y in 0..h {
            for x in 0..w {
                let hits = kids
                    .iter()
                    .filter(|&&i| {
                        let n = &nodes[i];
                        n.top_left.0 <= y && y <= n.bottom_right.0 && n.top_left.1 <= x && x <= n.bottom_right.1
                    })
                    .count();
                assert_eq!(hits, 1);
            }
        }
    }
}

#[test]
fn node_and_leaf_counts_grow_per_step() {
    let data = ImageData::new(&gradient(16, 16)).unwrap();
    let mut tree = Tree::new(data);
    assert_eq!(tree.nodes().len(), 1);
    for n in 1..=10 {
        tree.refine().unwrap();
        assert_eq!(tree.nodes().len(), 1 + 4 * n);
        assert_eq!(leaves(&tree), 1 + 3 * n);
    }
}

#[test]
fn refinement_runs_out() {
    let data = ImageData::new(&gradient(6, 6)).unwrap();
    let mut tree = Tree::new(data);
    let mut steps = 0;
    while tree.refine().is_ok() {
        steps += 1;
        assert!(steps < 100);
    }
    assert_eq!(tree.nodes().len(), 1 + 4 * steps);
    assert_eq!(tree.refine(), Err(QuadError::NoMoreRefinableNodes));
    for n in tree.nodes() {
        if n.children.is_none() {
            assert!(n.bottom_right.0 - n.top_left.0 <= 1 || n.bottom_right.1 - n.top_left.1 <= 1);
        }
    }
}

#[test]
fn refine_splits_worst_region_first() {
    let mut g = uniform(6, 6, RGB::new(50, 50, 50));
    g[4][4] = RGB::new(250, 0, 250);
    let data = ImageData::new(&g).unwrap();
    let mut tree = Tree::new(data);
    tree.refine().unwrap();
    tree.refine().unwrap();
    let nodes = tree.nodes();
    let c = nodes[0].children.unwrap();
    assert!(nodes[c.se].children.is_some());
    assert!(nodes[c.nw].children.is_none());
    assert!(nodes[c.ne].children.is_none());
    assert!(nodes[c.sw].children.is_none());
}

#[test]
fn metric_exact_value_and_non_negative() {
    let g = vec![vec![RGB::new(0, 10, 3), RGB::new(4, 10, 5)], vec![RGB::new(8, 10, 7), RGB::new(2, 10, 1)]];
    let data = ImageData::new(&g).unwrap();
    // red: sum 14, mean 3, squares 84, 84/4 = 21, 21 - 9 = 12
    // green: uniform, 0; blue: sum 16, mean 4, squares 84, 21 - 16 = 5
    assert_eq!(data.metric((0, 0), (1, 1)), (12 + 0 + 5) * 4);
    assert_eq!(data.metric((0, 0), (0, 1)), (4 + 0 + 1) * 2);
}

#[test]
fn render_before_refinement_is_flat() {
    let data = ImageData::new(&uniform(3, 4, RGB::new(10, 20, 30))).unwrap();
    let tree = Tree::new(data);
    let rgb = tree.render_rgb();
    assert_eq!(rgb.len(), 3 * 4 * 3);
    for px in rgb.chunks(3) {
        assert_eq!(px, &[10, 20, 30]);
    }
    let rgba = tree.render_rgba();
    assert_eq!(rgba.len(), 3 * 4 * 4);
    for px in rgba.chunks(4) {
        assert_eq!(px, &[10, 20, 30, MAX_ALPHA]);
    }
}

#[test]
fn render_paints_leaf_means() {
    let g = gradient(5, 6);
    let data = ImageData::new(&g).unwrap();
    let mut tree = Tree::new(data);
    tree.refine().unwrap();
    let out = tree.render_rgb();
    let nodes = tree.nodes();
    for n in nodes.iter().filter(|n| n.children.is_none()) {
        let avg = tree.image_data().average(n.top_left, n.bottom_right);
        for y in n.top_left.0..=n.bottom_right.0 {
            for x in n.top_left.1..=n.bottom_right.1 {
                let i = (y * 6 + x) * 3;
                assert_eq!(&out[i..i + 3], &[avg.r as u8, avg.g as u8, avg.b as u8]);
            }
        }
    }
    assert_ne!(tree.image_data().average((0, 0), (2, 2)), tree.image_data().average((3, 3), (4, 5)));
}

#[test]
fn new_tree_root_covers_image() {
    let data = ImageData::new(&gradient(3, 5)).unwrap();
    let whole = data.average((0, 0), (2, 4));
    let tree = Tree::new(data);
    let nodes = tree.nodes();
    assert_eq!(nodes.len(), 1);
    assert_eq!(nodes[0].top_left, (0, 0));
    assert_eq!(nodes[0].bottom_right, (2, 4));
    assert!(nodes[0].children.is_none());
    let out = tree.render_rgb();
    for px in out.chunks(3) {
        assert_eq!(px, &[whole.r as u8, whole.g as u8, whole.b as u8]);
    }
}

#[test]
fn uniform_render_after_refinement() {
    let data = ImageData::new(&uniform(4, 4, RGB::new(10, 20, 30))).unwrap();
    let mut tree = Tree::new(data);
    tree.refine().unwrap();
    let out = tree.render_rgb();
    assert_eq!(out.len(), 4 * 4 * 3);
    for px in out.chunks(3) {
        assert_eq!(px, &[10, 20, 30]);
    }
}

#[test]
fn frame_steps_follow_stride() {
    let kept: Vec<u32> = (1..=10).filter(|&i| is_frame_step(i, 3)).collect();
    assert_eq!(kept, vec![3, 6, 9]);
    assert!(is_frame_step(7, 1));
    assert!(!is_frame_step(1, 2));
}
