//! Incremental text rebuild detection.
//!
//! Each laid-out line of a text block is fingerprinted over its glyphs'
//! cache keys and resolved colors, in order. A preparation pass compares
//! the fingerprints against the block's stored ones: only when some line
//! changed is the vertex list regenerated — and then for the whole block at
//! once. While scanning, every glyph is made resident in the atlas and
//! marked as part of the frame's working set.

use vstd::prelude::*;

use crate::atlas::{CacheGlyphError, GlyphData, GlyphImage, TextAtlas};

verus! {

/// One glyph of a laid-out line: its stable cache key, its shaped pixel
/// position, and an optional per-glyph color override.
#[derive(Debug, Clone, Copy)]
pub struct ShapedGlyph {
    pub key: u64,
    pub x: i32,
    pub y: i32,
    pub color_override: Option<u32>,
}

/// One laid-out line of positioned glyphs, as the shaping engine hands it
/// over.
#[derive(Debug, Clone)]
pub struct ShapedLine {
    pub glyphs: Vec<ShapedGlyph>,
}

/// Per-line change-detection entry: a content fingerprint and the glyph
/// count of the line when it was last fingerprinted.
#[derive(Debug, Clone, Copy, PartialEq, Eq, Structural)]
pub struct TextBufferLine {
    pub hash: u64,
    pub length: usize,
}

/// One glyph quad of a rebuilt text block. Positions carry the glyph's
/// bearing; texel coordinates are atlas pixels.
#[derive(Debug, Clone, Copy, PartialEq, Eq, Structural)]
pub struct TextVertex {
    pub x: i64,
    pub y: i64,
    pub width: u32,
    pub height: u32,
    pub uv_x: u32,
    pub uv_y: u32,
    pub uv_w: u32,
    pub uv_h: u32,
    pub color: u32,
}

/// A logical text block's diffing state: stored line fingerprints and the
/// block's default text color.
pub struct TextBuffer {
    lines: Vec<TextBufferLine>,
    color: u32,
}

/// One fingerprint mixing step.
pub open spec fn hash_step(h: u64, v: u64) -> u64 {
    (h ^ v).wrapping_mul(0x100000001b3)
}

/// A glyph's resolved color: its override, or the block's default.
pub open spec fn glyph_color(g: ShapedGlyph, default_color: u32) -> u32 {
    match g.color_override {
        Some(c) => c,
        None => default_color,
    }
}

/// The fingerprint of one line: every glyph's key and resolved color mixed
/// in order.
pub open spec fn spec_line_hash(glyphs: Seq<ShapedGlyph>, default_color: u32) -> u64
    decreases glyphs.len(),
{
    if glyphs.len() == 0 {
        0xcbf29ce484222325
    } else {
        hash_step(
            hash_step(spec_line_hash(glyphs.drop_last(), default_color), glyphs.last().key),
            glyph_color(glyphs.last(), default_color) as u64,
        )
    }
}

/// The stored fingerprint a new line is compared against: a fresh line
/// index starts out with an empty entry.
pub open spec fn spec_stored_hash(lines: Seq<TextBufferLine>, i: int) -> u64 {
    if i < lines.len() {
        lines[i].hash
    } else {
        0
    }
}

/// Whether any laid-out line's fingerprint differs from the stored one.
pub open spec fn spec_needs_rebuild(
    lines: Seq<TextBufferLine>,
    shaped: Seq<ShapedLine>,
    default_color: u32,
) -> bool {
    exists|i: int|
        0 <= i < shaped.len() && spec_line_hash((#[trigger] shaped[i]).glyphs@, default_color)
            != spec_stored_hash(lines, i)
}

/// All glyphs of a laid-out block, line by line.
pub open spec fn flat_glyphs(shaped: Seq<ShapedLine>) -> Seq<ShapedGlyph>
    decreases shaped.len(),
{
    if shaped.len() == 0 {
        Seq::empty()
    } else {
        flat_glyphs(shaped.drop_last()) + shaped.last().glyphs@
    }
}

/// The quad a glyph contributes, from its cached atlas entry.
pub open spec fn vertex_of(g: ShapedGlyph, e: GlyphData, default_color: u32) -> TextVertex {
    TextVertex {
        x: (g.x + e.left) as i64,
        y: (g.y + e.top) as i64,
        width: e.width,
        height: e.height,
        uv_x: e.x,
        uv_y: e.y,
        uv_w: e.rect_w,
        uv_h: e.rect_h,
        color: glyph_color(g, default_color),
    }
}

proof fn lemma_flat_take_step(shaped: Seq<ShapedLine>, i: int)
    requires
        0 <= i < shaped.len(),
    ensures
        flat_glyphs(shaped.take(i + 1)) == flat_glyphs(shaped.take(i)) + shaped[i].glyphs@,
{
    assert(shaped.take(i + 1).drop_last() =~= shaped.take(i));
    assert(shaped.take(i + 1).last() == shaped[i]);
}

impl TextBuffer {
    pub closed spec fn spec_lines(&self) -> Seq<TextBufferLine> {
        self.lines@
    }

    pub closed spec fn spec_color(&self) -> u32 {
        self.color
    }

    pub fn new(color: u32) -> (r: Self)
        ensures
            r.spec_lines().len() == 0,
            r.spec_color() == color,
    {
        Self { lines: Vec::new(), color }
    }

    pub fn color(&self) -> (r: u32)
        ensures
            r == self.spec_color(),
    {
        self.color
    }

    pub fn line_count(&self) -> (r: usize)
        ensures
            r == self.spec_lines().len(),
    {
        self.lines.len()
    }
}

/// Looks a rasterized bitmap up by glyph key.
fn find_image<'a>(images: &'a Vec<(u64, GlyphImage)>, key: u64) -> (r: Option<&'a GlyphImage>)
    ensures
        match r {
            Some(img) => exists|i: int|
                0 <= i < images@.len() && (#[trigger] images@[i]).0 == key && images@[i].1 == *img,
            None => forall|i: int| 0 <= i < images@.len() ==> (#[trigger] images@[i]).0 != key,
        },
{
    let mut i: usize = 0;
    while i < images.len()
        invariant
            i <= images@.len(),
            forall|j: int| 0 <= j < i ==> (#[trigger] images@[j]).0 != key,
        decreases images@.len() - i,
    {
        if images[i].0 == key {
            assert(images@[i as int].0 == key);
            return Some(&images[i].1);
        }
        i += 1;
    }
    None
}

/// The fingerprint of one laid-out line.
fn line_hash(glyphs: &Vec<ShapedGlyph>, default_color: u32) -> (r: u64)
    ensures
        r == spec_line_hash(glyphs@, default_color),
{
    proof {
        assert(glyphs@.take(glyphs@.len() as int) =~= glyphs@);
    }
    let mut h: u64 = 0xcbf29ce484222325;
    let mut i: usize = 0;
    while i < glyphs.len()
        invariant
            i <= glyphs@.len(),
            h == spec_line_hash(glyphs@.take(i as int), default_color),
        decreases glyphs@.len() - i,
    {
        let g = glyphs[i];
        let color = match g.color_override {
            Some(c) => c,
            None => default_color,
        };
        proof {
            assert(glyphs@.take(i + 1).drop_last() =~= glyphs@.take(i as int));
            assert(glyphs@.take(i + 1).last() == glyphs@[i as int]);
        }
        h = (h ^ g.key).wrapping_mul(0x100000001b3);
        h = (h ^ (color as u64)).wrapping_mul(0x100000001b3);
        i += 1;
    }
    proof {
        assert(glyphs@.take(glyphs@.len() as int) == glyphs@);
    }
    h
}

/// Every glyph of a laid-out block is already cached in the atlas.
pub open spec fn all_keys_cached(shaped: Seq<ShapedLine>, glyphs: Map<u64, GlyphData>) -> bool {
    forall|i: int, j: int|
        0 <= i < shaped.len() && 0 <= j < shaped[i].glyphs@.len() ==> glyphs.dom().contains(
            (#[trigger] shaped[i].glyphs@[j]).key,
        )
}

/// Some provided bitmap carries this glyph key.
pub open spec fn key_covered(images: Seq<(u64, GlyphImage)>, key: u64) -> bool {
    exists|i: int| 0 <= i < images.len() && (#[trigger] images[i]).0 == key
}

/// Every glyph of a laid-out block has a bitmap among the provided ones.
pub open spec fn all_keys_covered(shaped: Seq<ShapedLine>, images: Seq<(u64, GlyphImage)>) -> bool {
    forall|i: int, j: int|
        0 <= i < shaped.len() && 0 <= j < shaped[i].glyphs@.len() ==> key_covered(
            images,
            (#[trigger] shaped[i].glyphs@[j]).key,
        )
}

/// The block's stored fingerprints after the scan has fully processed the
/// first `p` lines: refreshed up to `p`, untouched beyond.
#[verifier::opaque]
pub open spec fn lines_scanned_to(
    old_lines: Seq<TextBufferLine>,
    new_lines: Seq<TextBufferLine>,
    shaped: Seq<ShapedLine>,
    color: u32,
    p: int,
) -> bool {
    &&& 0 <= p <= shaped.len()
    &&& new_lines.len() == if old_lines.len() >= p {
        old_lines.len() as int
    } else {
        p
    }
    &&& forall|k: int|
        0 <= k < p ==> (#[trigger] new_lines[k]).hash == spec_line_hash(shaped[k].glyphs@, color)
    &&& forall|k: int|
        0 <= k < p && spec_line_hash((#[trigger] shaped[k]).glyphs@, color) != spec_stored_hash(
            old_lines,
            k,
        ) ==> new_lines[k].length == shaped[k].glyphs@.len()
    &&& forall|k: int| p <= k < old_lines.len() ==> #[trigger] new_lines[k] == old_lines[k]
}

/// The per-frame text preparation pass.
///
/// Lays every glyph into the atlas working set (caching misses from the
/// provided bitmaps), refreshes the stored line fingerprints, and rebuilds
/// the block's vertex list exactly when some line's fingerprint changed —
/// the whole block is regenerated on any change. `Ok(None)` means the
/// existing vertex data is still valid; it is distinguishable from a
/// rebuild that produced zero glyphs. When the atlas already holds every
/// glyph of the block, the pass cannot fail. A `NoGlyphImage` failure names
/// a glyph no provided bitmap covers; atlas pressure against the current
/// working set fails the block with `OutOfSpace`. On any failure the
/// fingerprints of the fully scanned line prefix are already refreshed and
/// the rest are untouched.
#[verifier::rlimit(60)]
pub fn prep(
    block: &mut TextBuffer,
    atlas: &mut TextAtlas,
    shaped: &Vec<ShapedLine>,
    images: &Vec<(u64, GlyphImage)>,
) -> (r: Result<Option<Vec<TextVertex>>, CacheGlyphError>)
    requires
        old(atlas).wf(),
    ensures
        final(atlas).wf(),
        final(atlas).spec_side() == old(atlas).spec_side(),
        final(block).spec_color() == old(block).spec_color(),
        // the frame's working set only grows, and glyphs it holds stay
        // cached unchanged
        forall|k: u64|
            old(atlas).spec_in_use().contains(k) ==> final(atlas).spec_in_use().contains(k),
        forall|k: u64|
            #[trigger] old(atlas).spec_glyphs().dom().contains(k) && old(atlas).spec_in_use().contains(k) ==> final(atlas).spec_glyphs().dom().contains(k) && final(atlas).spec_glyphs()[k] == old(atlas).spec_glyphs()[k],
        // when the atlas already holds every glyph, the pass cannot fail
        all_keys_cached(shaped@, old(atlas).spec_glyphs()) ==> r is Ok,
        // a missing-bitmap failure names a glyph no provided bitmap covers
        match r {
            Err(CacheGlyphError::NoGlyphImage) => !all_keys_covered(shaped@, images@),
            _ => true,
        },
        // on failure, the fingerprints of the scanned prefix are refreshed
        r is Err ==> exists|p: int|
            #[trigger] lines_scanned_to(
                old(block).spec_lines(),
                final(block).spec_lines(),
                shaped@,
                old(block).spec_color(),
                p,
            ),
        match r {
            Ok(out) => {
                &&& (out is None) <==> !spec_needs_rebuild(
                    old(block).spec_lines(),
                    shaped@,
                    old(block).spec_color(),
                )
                &&& final(block).spec_lines().len() == if old(block).spec_lines().len()
                    >= shaped@.len() {
                    old(block).spec_lines().len() as int
                } else {
                    shaped@.len() as int
                }
                &&& forall|i: int|
                    0 <= i < shaped@.len() ==> final(block).spec_lines()[i].hash == spec_line_hash(
                        (#[trigger] shaped@[i]).glyphs@,
                        old(block).spec_color(),
                    )
                &&& forall|i: int|
                    0 <= i < shaped@.len() && spec_line_hash(
                        (#[trigger] shaped@[i]).glyphs@,
                        old(block).spec_color(),
                    ) != spec_stored_hash(old(block).spec_lines(), i) ==> final(block).spec_lines()[i].length == shaped@[i].glyphs@.len()
                &&& forall|i: int|
                    shaped@.len() <= i < old(block).spec_lines().len() ==> final(block).spec_lines()[i] == old(block).spec_lines()[i]
                &&& forall|j: int|
                    0 <= j < flat_glyphs(shaped@).len() ==> final(atlas).spec_glyphs().dom().contains(
                        (#[trigger] flat_glyphs(shaped@)[j]).key,
                    ) && final(atlas).spec_in_use().contains(flat_glyphs(shaped@)[j].key)
                &&& match out {
                    Some(verts) => {
                        &&& verts@.len() == flat_glyphs(shaped@).len()
                        &&& forall|j: int|
                            0 <= j < verts@.len() ==> verts@[j] == vertex_of(
                                (#[trigger] flat_glyphs(shaped@)[j]),
                                final(atlas).spec_glyphs()[flat_glyphs(shaped@)[j].key],
                                old(block).spec_color(),
                            )
                    },
                    None => true,
                }
            },
            Err(_) => true,
        },
{
    let default_color = block.color;
    let mut rebuild = false;
    let mut i: usize = 0;

    while i < shaped.len()
        invariant
            old(atlas).wf(),
            atlas.wf(),
            atlas.spec_side() == old(atlas).spec_side(),
            forall|k: u64|
                old(atlas).spec_in_use().contains(k) ==> atlas.spec_in_use().contains(k),
            forall|k: u64|
                #[trigger] old(atlas).spec_glyphs().dom().contains(k) && old(atlas).spec_in_use().contains(k) ==> atlas.spec_glyphs().dom().contains(k)
                    && atlas.spec_glyphs()[k] == old(atlas).spec_glyphs()[k],
            all_keys_cached(shaped@, old(atlas).spec_glyphs()) ==> atlas.spec_glyphs() == old(atlas).spec_glyphs(),
            i <= shaped@.len(),
            default_color == old(block).spec_color(),
            block.spec_color() == old(block).spec_color(),
            rebuild == spec_needs_rebuild(
                old(block).spec_lines(),
                shaped@.take(i as int),
                default_color,
            ),
            block.spec_lines().len() == if old(block).spec_lines().len() >= i {
                old(block).spec_lines().len() as int
            } else {
                i as int
            },
            forall|k: int|
                0 <= k < i ==> block.spec_lines()[k].hash == spec_line_hash(
                    (#[trigger] shaped@[k]).glyphs@,
                    default_color,
                ),
            forall|k: int|
                0 <= k < i && spec_line_hash((#[trigger] shaped@[k]).glyphs@, default_color)
                    != spec_stored_hash(old(block).spec_lines(), k) ==> block.spec_lines()[k].length
                    == shaped@[k].glyphs@.len(),
            forall|k: int|
                i <= k < old(block).spec_lines().len() ==> block.spec_lines()[k] == old(block).spec_lines()[k],
            forall|j: int|
                0 <= j < flat_glyphs(shaped@.take(i as int)).len() ==> atlas.spec_glyphs().dom().contains(
                    (#[trigger] flat_glyphs(shaped@.take(i as int))[j]).key,
                ) && atlas.spec_in_use().contains(flat_glyphs(shaped@.take(i as int))[j].key),
        decreases shaped@.len() - i,
    {
        let line = &shaped[i].glyphs;
        let ghost flat_pre = flat_glyphs(shaped@.take(i as int));
        proof {
            reveal(lines_scanned_to);
            assert(lines_scanned_to(
                old(block).spec_lines(),
                block.spec_lines(),
                shaped@,
                old(block).spec_color(),
                i as int,
            ));
        }
        let mut j: usize = 0;
        while j < line.len()
            invariant
                old(atlas).wf(),
                atlas.wf(),
                atlas.spec_side() == old(atlas).spec_side(),
                block.spec_color() == old(block).spec_color(),
                forall|k: u64|
                    old(atlas).spec_in_use().contains(k) ==> atlas.spec_in_use().contains(k),
                forall|k: u64|
                    #[trigger] old(atlas).spec_glyphs().dom().contains(k) && old(atlas).spec_in_use().contains(k) ==> atlas.spec_glyphs().dom().contains(k)
                        && atlas.spec_glyphs()[k] == old(atlas).spec_glyphs()[k],
                all_keys_cached(shaped@, old(atlas).spec_glyphs()) ==> atlas.spec_glyphs() == old(atlas).spec_glyphs(),
                lines_scanned_to(
                    old(block).spec_lines(),
                    block.spec_lines(),
                    shaped@,
                    old(block).spec_color(),
                    i as int,
                ),
                i < shaped@.len(),
                j <= line@.len(),
                line@ == shaped@[i as int].glyphs@,
                flat_pre == flat_glyphs(shaped@.take(i as int)),
                forall|k: int|
                    0 <= k < flat_pre.len() ==> atlas.spec_glyphs().dom().contains(
                        (#[trigger] flat_pre[k]).key,
                    ) && atlas.spec_in_use().contains(flat_pre[k].key),
                forall|k: int|
                    0 <= k < j ==> atlas.spec_glyphs().dom().contains(
                        (#[trigger] line@[k]).key,
                    ) && atlas.spec_in_use().contains(line@[k].key),
            decreases line@.len() - j,
        {
            let key = line[j].key;
            let image = find_image(images, key);
            match atlas.use_glyph(key, image) {
                Ok(_) => {},
                Err(e) => {
                    proof {
                        assert(shaped@[i as int].glyphs@[j as int].key == key);
                        if all_keys_cached(shaped@, old(atlas).spec_glyphs()) {
                            assert(old(atlas).spec_glyphs().dom().contains(key));
                            assert(false);
                        }
                        if e == CacheGlyphError::NoGlyphImage {
                            if all_keys_covered(shaped@, images@) {
                                assert(key_covered(images@, shaped@[i as int].glyphs@[
                                    j as int].key));
                                let w = choose|w: int|
                                    0 <= w < images@.len() && (#[trigger] images@[w]).0 == key;
                                assert(false);
                            }
                        }
                        assert(exists|p: int|
                            #[trigger] lines_scanned_to(
                                old(block).spec_lines(),
                                block.spec_lines(),
                                shaped@,
                                old(block).spec_color(),
                                p,
                            )) by {
                            assert(lines_scanned_to(
                                old(block).spec_lines(),
                                block.spec_lines(),
                                shaped@,
                                old(block).spec_color(),
                                i as int,
                            ));
                        }
                    }
                    return Err(e);
                },
            }
            proof {
                assert forall|k: int|
                    0 <= k < flat_pre.len() implies atlas.spec_glyphs().dom().contains(
                    (#[trigger] flat_pre[k]).key,
                ) && atlas.spec_in_use().contains(flat_pre[k].key) by {
                    assert(atlas.spec_in_use().contains(flat_pre[k].key));
                }
            }
            j += 1;
        }

        let h = line_hash(line, default_color);
        let length = line.len();

        if block.lines.len() <= i {
            block.lines.push(TextBufferLine { hash: 0, length: 0 });
        }
        let changed = block.lines[i].hash != h;
        if changed {
            let entry = &mut block.lines[i];
            entry.hash = h;
            entry.length = length;
            rebuild = true;
        }
        proof {
            lemma_flat_take_step(shaped@, i as int);
            lemma_needs_rebuild_step(old(block).spec_lines(), shaped@, default_color, i as int);
            assert forall|j: int|
                0 <= j < flat_glyphs(shaped@.take(i + 1)).len() implies atlas.spec_glyphs().dom().contains(
                (#[trigger] flat_glyphs(shaped@.take(i + 1))[j]).key,
            ) && atlas.spec_in_use().contains(flat_glyphs(shaped@.take(i + 1))[j].key) by {
                if j < flat_pre.len() {
                    assert(flat_glyphs(shaped@.take(i + 1))[j] == flat_pre[j]);
                } else {
                    assert(flat_glyphs(shaped@.take(i + 1))[j] == line@[j - flat_pre.len()]);
                }
            }
        }
        i += 1;
    }

    proof {
        assert(shaped@.take(shaped@.len() as int) =~= shaped@);
    }

    if !rebuild {
        return Ok(None);
    }

    let mut verts: Vec<TextVertex> = Vec::new();
    let mut i2: usize = 0;
    while i2 < shaped.len()
        invariant
            atlas.wf(),
            i2 <= shaped@.len(),
            default_color == old(block).spec_color(),
            forall|j: int|
                0 <= j < flat_glyphs(shaped@).len() ==> atlas.spec_glyphs().dom().contains(
                    (#[trigger] flat_glyphs(shaped@)[j]).key,
                ),
            verts@.len() == flat_glyphs(shaped@.take(i2 as int)).len(),
            flat_glyphs(shaped@.take(i2 as int)) == flat_glyphs(shaped@).take(
                flat_glyphs(shaped@.take(i2 as int)).len() as int,
            ),
            forall|j: int|
                0 <= j < verts@.len() ==> verts@[j] == vertex_of(
                    (#[trigger] flat_glyphs(shaped@)[j]),
                    atlas.spec_glyphs()[flat_glyphs(shaped@)[j].key],
                    default_color,
                ),
        decreases shaped@.len() - i2,
    {
        let line = &shaped[i2].glyphs;
        let ghost flat_pre = flat_glyphs(shaped@.take(i2 as int));
        proof {
            lemma_flat_take_step(shaped@, i2 as int);
            lemma_flat_prefix(shaped@, i2 as int);
            lemma_flat_prefix(shaped@, i2 as int + 1);
            assert(flat_glyphs(shaped@.take(i2 as int + 1)).len() == flat_pre.len()
                + line@.len());
        }
        let mut j2: usize = 0;
        while j2 < line.len()
            invariant
                atlas.wf(),
                i2 < shaped@.len(),
                j2 <= line@.len(),
                line@ == shaped@[i2 as int].glyphs@,
                default_color == old(block).spec_color(),
                flat_pre == flat_glyphs(shaped@.take(i2 as int)),
                flat_pre.len() + line@.len() <= flat_glyphs(shaped@).len(),
                flat_pre + line@.take(j2 as int) == flat_glyphs(shaped@).take(
                    flat_pre.len() + j2,
                ),
                forall|j: int|
                    0 <= j < flat_glyphs(shaped@).len() ==> atlas.spec_glyphs().dom().contains(
                        (#[trigger] flat_glyphs(shaped@)[j]).key,
                    ),
                verts@.len() == flat_pre.len() + j2,
                forall|j: int|
                    0 <= j < verts@.len() ==> verts@[j] == vertex_of(
                        (#[trigger] flat_glyphs(shaped@)[j]),
                        atlas.spec_glyphs()[flat_glyphs(shaped@)[j].key],
                        default_color,
                    ),
            decreases line@.len() - j2,
        {
            let g = line[j2];
            proof {
                assert(flat_glyphs(shaped@)[flat_pre.len() + j2] == g) by {
                    assert(flat_pre + line@.take(j2 + 1) == flat_glyphs(shaped@).take(
                        flat_pre.len() + j2 + 1,
                    )) by {
                        lemma_flat_within(shaped@, i2 as int, j2 as int);
                    }
                    assert((flat_pre + line@.take(j2 + 1))[flat_pre.len() + j2] == line@[j2 as int]);
                    assert(flat_glyphs(shaped@).take(flat_pre.len() + j2 + 1)[flat_pre.len()
                        + j2] == flat_glyphs(shaped@)[flat_pre.len() + j2]);
                }
            }
            proof {
                assert(atlas.spec_glyphs().dom().contains(g.key)) by {
                    assert(flat_glyphs(shaped@)[flat_pre.len() + j2] == g);
                }
            }
            let entry = match atlas.get_glyph_data(g.key) {
                Some(e) => *e,
                None => {
                    proof {
                        assert(false);
                    }
                    return Err(CacheGlyphError::LruStorageError);
                },
            };
            let color = match g.color_override {
                Some(c) => c,
                None => default_color,
            };
            verts.push(TextVertex {
                x: g.x as i64 + entry.left as i64,
                y: g.y as i64 + entry.top as i64,
                width: entry.width,
                height: entry.height,
                uv_x: entry.x,
                uv_y: entry.y,
                uv_w: entry.rect_w,
                uv_h: entry.rect_h,
                color,
            });
            proof {
                lemma_flat_within(shaped@, i2 as int, j2 as int);
            }
            j2 += 1;
        }
        proof {
            lemma_flat_take_step(shaped@, i2 as int);
            assert(line@.take(line@.len() as int) =~= line@);
        }
        i2 += 1;
    }
    proof {
        assert(shaped@.take(shaped@.len() as int) =~= shaped@);
        assert(flat_glyphs(shaped@).take(flat_glyphs(shaped@).len() as int) =~= flat_glyphs(
            shaped@,
        ));
    }
    Ok(Some(verts))
}

/// A block whose stored fingerprints already match a layout needs no
/// rebuild: preparing the same content twice in a row yields no rebuild on
/// the second pass.
pub proof fn lemma_unchanged_needs_no_rebuild(
    lines: Seq<TextBufferLine>,
    shaped: Seq<ShapedLine>,
    default_color: u32,
)
    requires
        shaped.len() <= lines.len(),
        forall|i: int|
            0 <= i < shaped.len() ==> lines[i].hash == spec_line_hash(
                (#[trigger] shaped[i]).glyphs@,
                default_color,
            ),
    ensures
        !spec_needs_rebuild(lines, shaped, default_color),
{
}

/// Scanning one more line extends the rebuild condition by exactly that
/// line's comparison.
proof fn lemma_needs_rebuild_step(
    lines: Seq<TextBufferLine>,
    shaped: Seq<ShapedLine>,
    c: u32,
    i: int,
)
    requires
        0 <= i < shaped.len(),
    ensures
        spec_needs_rebuild(lines, shaped.take(i + 1), c) <==> (spec_needs_rebuild(
            lines,
            shaped.take(i),
            c,
        ) || spec_line_hash(shaped[i].glyphs@, c) != spec_stored_hash(lines, i)),
{
    let a = shaped.take(i);
    let b = shaped.take(i + 1);
    if spec_needs_rebuild(lines, b, c) {
        let k = choose|k: int|
            0 <= k < b.len() && spec_line_hash((#[trigger] b[k]).glyphs@, c) != spec_stored_hash(
                lines,
                k,
            );
        if k < i {
            assert(a[k] == b[k]);
            assert(spec_needs_rebuild(lines, a, c));
        } else {
            assert(b[i] == shaped[i]);
        }
    }
    if spec_needs_rebuild(lines, a, c) {
        let k = choose|k: int|
            0 <= k < a.len() && spec_line_hash((#[trigger] a[k]).glyphs@, c) != spec_stored_hash(
                lines,
                k,
            );
        assert(b[k] == a[k]);
        assert(spec_needs_rebuild(lines, b, c));
    }
    if spec_line_hash(shaped[i].glyphs@, c) != spec_stored_hash(lines, i) {
        assert(b[i] == shaped[i]);
        assert(spec_needs_rebuild(lines, b, c));
    }
}

/// A block prefix's glyphs are a prefix of the whole block's glyphs.
proof fn lemma_flat_prefix(shaped: Seq<ShapedLine>, i: int)
    requires
        0 <= i <= shaped.len(),
    ensures
        flat_glyphs(shaped.take(i)) == flat_glyphs(shaped).take(flat_glyphs(shaped.take(i)).len() as int),
        flat_glyphs(shaped.take(i)).len() <= flat_glyphs(shaped).len(),
    decreases shaped.len() - i,
{
    if i == shaped.len() {
        assert(shaped.take(i) =~= shaped);
        assert(flat_glyphs(shaped).take(flat_glyphs(shaped).len() as int) =~= flat_glyphs(shaped));
    } else {
        lemma_flat_prefix(shaped, i + 1);
        lemma_flat_take_step(shaped, i);
        assert(flat_glyphs(shaped.take(i)) =~= flat_glyphs(shaped.take(i + 1)).take(
            flat_glyphs(shaped.take(i)).len() as int,
        ));
        assert(flat_glyphs(shaped.take(i)) =~= flat_glyphs(shaped).take(
            flat_glyphs(shaped.take(i)).len() as int,
        ));
    }
}

/// Extending a flattened prefix by one glyph matches the whole block's
/// flattened order.
proof fn lemma_flat_within(shaped: Seq<ShapedLine>, i: int, j: int)
    requires
        0 <= i < shaped.len(),
        0 <= j < shaped[i].glyphs@.len(),
        flat_glyphs(shaped.take(i)) + shaped[i].glyphs@.take(j) == flat_glyphs(shaped).take(
            flat_glyphs(shaped.take(i)).len() + j,
        ),
    ensures
        flat_glyphs(shaped.take(i)) + shaped[i].glyphs@.take(j + 1) == flat_glyphs(shaped).take(
            flat_glyphs(shaped.take(i)).len() + j + 1,
        ),
{
    let pre = flat_glyphs(shaped.take(i));
    lemma_flat_take_step(shaped, i);
    lemma_flat_prefix(shaped, i + 1);
    assert(flat_glyphs(shaped.take(i + 1)) == pre + shaped[i].glyphs@);
    let upto = flat_glyphs(shaped.take(i + 1));
    assert(upto == flat_glyphs(shaped).take(upto.len() as int));
    assert(pre.len() + j + 1 <= upto.len());
    assert forall|k: int| 0 <= k < pre.len() + j + 1 implies (pre + shaped[i].glyphs@.take(j + 1))[k]
        == flat_glyphs(shaped)[k] by {
        assert(upto[k] == flat_glyphs(shaped)[k]);
        if k < pre.len() {
            assert((pre + shaped[i].glyphs@.take(j + 1))[k] == pre[k]);
            assert(upto[k] == pre[k]);
        } else {
            assert((pre + shaped[i].glyphs@.take(j + 1))[k] == shaped[i].glyphs@[k - pre.len()]);
            assert(upto[k] == shaped[i].glyphs@[k - pre.len()]);
        }
    }
    assert(flat_glyphs(shaped.take(i)) + shaped[i].glyphs@.take(j + 1) =~= flat_glyphs(
        shaped,
    ).take(pre.len() + j + 1));
}

} // verus!
