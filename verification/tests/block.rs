use brp::block::{BlockGrid, BlockRect};

#[test]
fn whole_image_is_a_single_block() {
    let g = BlockGrid::new(640, 480, 640, 480);
    assert_eq!(g.len(), 1);
    let blocks: Vec<BlockRect> = g.iter();
    assert_eq!(
        blocks,
        vec![BlockRect {
            x: 0,
            y: 0,
            w: 640,
            h: 480
        }]
    );
}

#[test]
fn edges_are_clipped_not_padded() {
    let g = BlockGrid::new(10, 6, 4, 4);
    assert_eq!((g.blocks_x(), g.blocks_y()), (3, 2));
    let blocks: Vec<BlockRect> = g.iter();
    assert_eq!(blocks.len(), 6);

    // Right edge: 10 = 4 + 4 + 2.
    assert_eq!(
        blocks[2],
        BlockRect {
            x: 8,
            y: 0,
            w: 2,
            h: 4
        }
    );
    // Bottom edge: 6 = 4 + 2.
    assert_eq!(
        blocks[3],
        BlockRect {
            x: 0,
            y: 4,
            w: 4,
            h: 2
        }
    );
    // The corner is clipped in both directions.
    assert_eq!(
        blocks[5],
        BlockRect {
            x: 8,
            y: 4,
            w: 2,
            h: 2
        }
    );

    // Clipped blocks tile the image exactly, with no overlap and no gap.
    let covered: u64 = blocks.iter().map(BlockRect::pixel_count).sum();
    assert_eq!(covered, 10 * 6);
}

#[test]
fn raster_order() {
    let g = BlockGrid::new(4, 4, 2, 2);
    let origins: Vec<(u32, u32)> = g.iter().iter().map(|r| (r.x, r.y)).collect();
    assert_eq!(origins, vec![(0, 0), (2, 0), (0, 2), (2, 2)]);
}

#[test]
fn block_larger_than_image() {
    let g = BlockGrid::new(3, 2, 64, 64);
    let blocks: Vec<BlockRect> = g.iter();
    assert_eq!(
        blocks,
        vec![BlockRect {
            x: 0,
            y: 0,
            w: 3,
            h: 2
        }]
    );
}

#[test]
fn single_pixel_blocks() {
    let g = BlockGrid::new(3, 2, 1, 1);
    assert_eq!(g.len(), 6);
    assert!(g.iter().iter().all(|r| r.w == 1 && r.h == 1));
}

#[test]
fn tiling_is_exact_for_awkward_sizes() {
    for (w, h, bw, bh) in [
        (1, 1, 1, 1),
        (7, 13, 4, 4),
        (17, 5, 8, 2),
        (100, 100, 33, 7),
    ] {
        let g = BlockGrid::new(w, h, bw, bh);
        let covered: u64 = g.iter().iter().map(|r| r.pixel_count()).sum();
        assert_eq!(covered, u64::from(w) * u64::from(h), "{w}x{h} by {bw}x{bh}");
        assert_eq!(g.iter().len() as u64, g.len());
    }
}
