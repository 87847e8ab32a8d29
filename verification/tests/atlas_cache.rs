//! Glyph atlas caching, recency and eviction behavior.

use battle_core::atlas::{CacheGlyphError, GlyphImage, TextAtlas};

fn bitmap(w: u32, h: u32) -> GlyphImage {
    GlyphImage { width: w, height: h, left: 1, top: -2, data: vec![7u8; (w * h) as usize] }
}

#[test]
fn cached_glyph_round_trips_its_metrics() {
    let mut atlas = TextAtlas::new();
    let img = bitmap(10, 12);
    atlas.use_glyph(1, Some(&img)).unwrap();

    let entry = atlas.get_glyph_data(1).expect("glyph is cached");
    assert_eq!(entry.width, 10);
    assert_eq!(entry.height, 12);
    assert_eq!(entry.left, 1);
    assert_eq!(entry.top, -2);
    // The packed rectangle covers the bitmap and lies inside the texture.
    assert!(entry.rect_w >= 10 && entry.rect_h >= 12);
    assert!(entry.x + entry.rect_w <= atlas.side());
    assert!(entry.y + entry.rect_h <= atlas.side());

    assert!(atlas.get_glyph_data(2).is_none());
}

#[test]
fn missing_bitmap_for_uncached_glyph_fails() {
    let mut atlas = TextAtlas::new();
    assert_eq!(atlas.use_glyph(5, None), Err(CacheGlyphError::NoGlyphImage));
    // Once cached, the bitmap is no longer needed.
    atlas.use_glyph(5, Some(&bitmap(4, 4))).unwrap();
    assert_eq!(atlas.use_glyph(5, None), Ok(()));
}

#[test]
fn pressure_evicts_least_recently_used_not_in_use() {
    let mut atlas = TextAtlas::new();
    let small = bitmap(8, 8);
    let big = bitmap(250, 240);

    atlas.use_glyph(1, Some(&small)).unwrap();
    atlas.use_glyph(2, Some(&big)).unwrap();
    atlas.post_render_trim();

    // Touch glyph 1: it becomes most recently used.
    atlas.use_glyph(1, None).unwrap();
    atlas.post_render_trim();

    // Caching another big glyph forces eviction; the least recently used
    // glyph is 2, and evicting it frees enough space, so 1 survives.
    atlas.use_glyph(3, Some(&big)).unwrap();
    assert!(atlas.get_glyph_data(1).is_some());
    assert!(atlas.get_glyph_data(2).is_none());
    assert!(atlas.get_glyph_data(3).is_some());
}

#[test]
fn working_set_glyphs_are_never_evicted() {
    let mut atlas = TextAtlas::new();
    let big = bitmap(250, 240);
    atlas.use_glyph(1, Some(&big)).unwrap();

    // Glyph 1 is still marked in use this frame: the atlas reports that it
    // is genuinely too small rather than evicting it.
    assert_eq!(atlas.use_glyph(2, Some(&big)), Err(CacheGlyphError::OutOfSpace));
    assert!(atlas.get_glyph_data(1).is_some());
    assert!(atlas.get_glyph_data(2).is_none());

    // After the frame ends the space can be reclaimed.
    atlas.post_render_trim();
    atlas.use_glyph(2, Some(&big)).unwrap();
    assert!(atlas.get_glyph_data(1).is_none());
    assert!(atlas.get_glyph_data(2).is_some());
}

#[test]
fn oversized_glyph_cannot_be_cached() {
    let mut atlas = TextAtlas::new();
    let huge = bitmap(300, 300);
    assert_eq!(atlas.use_glyph(1, Some(&huge)), Err(CacheGlyphError::LruStorageError));
    assert_eq!(
        CacheGlyphError::LruStorageError.message(),
        "glyph recency storage failed"
    );
}

#[test]
fn uploads_carry_the_bitmap_to_the_packed_offset() {
    let mut atlas = TextAtlas::new();
    let img = bitmap(3, 2);
    atlas.use_glyph(9, Some(&img)).unwrap();

    let uploads = atlas.take_pending_uploads();
    assert_eq!(uploads.len(), 1);
    let entry = *atlas.get_glyph_data(9).unwrap();
    assert_eq!(uploads[0].x, entry.x);
    assert_eq!(uploads[0].y, entry.y);
    assert_eq!(uploads[0].width, 3);
    assert_eq!(uploads[0].height, 2);
    assert_eq!(uploads[0].data, img.data);

    // The queue is drained.
    assert!(atlas.take_pending_uploads().is_empty());

    // A cache hit queues nothing new.
    atlas.use_glyph(9, None).unwrap();
    assert!(atlas.take_pending_uploads().is_empty());
}
