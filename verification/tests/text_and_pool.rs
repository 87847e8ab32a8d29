//! Text rebuild detection and render instance pool reconciliation.

use battle_core::atlas::{CacheGlyphError, GlyphImage, TextAtlas};
use battle_core::pool::{group_by_key, InstancePool, PoolOp};
use battle_core::text::{prep, ShapedGlyph, ShapedLine, TextBuffer};

fn bitmap(w: u32, h: u32) -> GlyphImage {
    GlyphImage { width: w, height: h, left: 2, top: 5, data: vec![1u8; (w * h) as usize] }
}

fn glyph(key: u64, x: i32) -> ShapedGlyph {
    ShapedGlyph { key, x, y: 20, color_override: None }
}

fn layout() -> Vec<ShapedLine> {
    vec![
        ShapedLine { glyphs: vec![glyph(1, 0), glyph(2, 8)] },
        ShapedLine { glyphs: vec![glyph(3, 0)] },
    ]
}

fn images() -> Vec<(u64, GlyphImage)> {
    vec![(1, bitmap(6, 9)), (2, bitmap(7, 9)), (3, bitmap(5, 9))]
}

#[test]
fn unchanged_text_needs_no_rebuild() {
    let mut atlas = TextAtlas::new();
    let mut block = TextBuffer::new(0xff00ff00);
    let shaped = layout();
    let images = images();

    let first = prep(&mut block, &mut atlas, &shaped, &images).unwrap();
    let verts = first.expect("first pass rebuilds");
    assert_eq!(verts.len(), 3);
    assert_eq!(block.line_count(), 2);

    // The same layout again: the stored fingerprints match, no rebuild.
    let second = prep(&mut block, &mut atlas, &shaped, &images).unwrap();
    assert!(second.is_none());
}

#[test]
fn changing_one_glyphs_color_triggers_a_rebuild() {
    let mut atlas = TextAtlas::new();
    let mut block = TextBuffer::new(0xff00ff00);
    let mut shaped = layout();
    let images = images();

    prep(&mut block, &mut atlas, &shaped, &images).unwrap();

    shaped[1].glyphs[0].color_override = Some(0xffff0000);
    let rebuilt = prep(&mut block, &mut atlas, &shaped, &images).unwrap();
    let verts = rebuilt.expect("a changed color rebuilds the block");
    assert_eq!(verts.len(), 3);
    assert_eq!(verts[2].color, 0xffff0000);
    assert_eq!(verts[0].color, 0xff00ff00);

    // And the new state is stable again.
    assert!(prep(&mut block, &mut atlas, &shaped, &images).unwrap().is_none());
}

#[test]
fn rebuilt_vertices_carry_bearings_and_atlas_rectangles() {
    let mut atlas = TextAtlas::new();
    let mut block = TextBuffer::new(7);
    let shaped = vec![ShapedLine { glyphs: vec![glyph(1, 100)] }];
    let images = vec![(1, bitmap(6, 9))];

    let verts = prep(&mut block, &mut atlas, &shaped, &images).unwrap().unwrap();
    assert_eq!(verts.len(), 1);
    let entry = *atlas.get_glyph_data(1).unwrap();
    assert_eq!(verts[0].x, 100 + 2);
    assert_eq!(verts[0].y, 20 + 5);
    assert_eq!(verts[0].width, 6);
    assert_eq!(verts[0].height, 9);
    assert_eq!(verts[0].uv_x, entry.x);
    assert_eq!(verts[0].uv_y, entry.y);
    assert_eq!(verts[0].color, 7);
}

#[test]
fn pool_reconciliation_creates_updates_and_destroys() {
    let mut pool: InstancePool<u32> = InstancePool::new();

    // Frame one: keys A=1 and B=2.
    let ops = pool.reconcile(&vec![(1, vec![10, 11]), (2, vec![20])]);
    assert_eq!(ops.len(), 2);
    assert!(matches!(ops[0], PoolOp::Created { key: 1, .. }));
    assert!(matches!(ops[1], PoolOp::Created { key: 2, .. }));
    let a_buffer = pool.get(1).unwrap().buffer_id;
    let b_buffer = pool.get(2).unwrap().buffer_id;
    assert_ne!(a_buffer, b_buffer);

    // Frame two: keys B and C. A's buffer is destroyed, B fits its
    // capacity and is updated in place, C gets a fresh buffer.
    let ops = pool.reconcile(&vec![(2, vec![21]), (3, vec![30])]);
    assert!(pool.get(1).is_none());
    assert!(ops.contains(&PoolOp::Destroyed { key: 1, buffer_id: a_buffer }));
    assert!(ops.contains(&PoolOp::Updated { key: 2, buffer_id: b_buffer }));
    let b = pool.get(2).unwrap();
    assert_eq!(b.buffer_id, b_buffer);
    assert_eq!(b.contents, vec![21]);
    let c = pool.get(3).unwrap();
    assert_ne!(c.buffer_id, a_buffer);
    assert_ne!(c.buffer_id, b_buffer);
}

#[test]
fn pool_grows_a_buffer_by_replacing_it() {
    let mut pool: InstancePool<u32> = InstancePool::new();
    pool.reconcile(&vec![(1, vec![10, 11])]);
    let old_id = pool.get(1).unwrap().buffer_id;
    assert_eq!(pool.get(1).unwrap().capacity, 2);

    // Shrinking keeps the buffer and its capacity.
    pool.reconcile(&vec![(1, vec![12])]);
    assert_eq!(pool.get(1).unwrap().buffer_id, old_id);
    assert_eq!(pool.get(1).unwrap().capacity, 2);
    assert_eq!(pool.get(1).unwrap().contents, vec![12]);

    // Growing past the capacity replaces it.
    let ops = pool.reconcile(&vec![(1, vec![1, 2, 3])]);
    let new_id = pool.get(1).unwrap().buffer_id;
    assert_ne!(new_id, old_id);
    assert_eq!(pool.get(1).unwrap().capacity, 3);
    assert!(ops.contains(&PoolOp::Reallocated { key: 1, old_buffer_id: old_id, buffer_id: new_id }));
}

#[test]
fn grouping_collects_draws_per_key_in_order() {
    let draws: Vec<(u64, u32)> = vec![(7, 1), (9, 2), (7, 3), (8, 4), (9, 5)];
    let groups = group_by_key(&draws);
    assert_eq!(
        groups,
        vec![(7, vec![1, 3]), (9, vec![2, 5]), (8, vec![4])]
    );
    let empty: Vec<(u64, u32)> = Vec::new();
    assert!(group_by_key(&empty).is_empty());
}

#[test]
fn missing_bitmap_fails_the_block() {
    let mut atlas = TextAtlas::new();
    let mut block = TextBuffer::new(1);
    let shaped = vec![ShapedLine { glyphs: vec![glyph(42, 0)] }];
    let images: Vec<(u64, GlyphImage)> = Vec::new();
    assert_eq!(
        prep(&mut block, &mut atlas, &shaped, &images),
        Err(CacheGlyphError::NoGlyphImage)
    );
    // The failed pass never reached the failing line's fingerprint update.
    assert_eq!(block.line_count(), 0);

    // Covering the key makes the same pass succeed.
    let images = vec![(42, bitmap(4, 4))];
    assert!(prep(&mut block, &mut atlas, &shaped, &images).unwrap().is_some());
}
