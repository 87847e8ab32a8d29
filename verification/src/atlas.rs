//! The glyph atlas cache: a rectangle packer coupled with least-recently-used
//! eviction.
//!
//! Rasterized glyph bitmaps are packed into one square texture. Under space
//! pressure the least recently used glyph that is not part of the current
//! frame's working set is evicted — its packed rectangle and its recency
//! entry are always released together. Glyphs needed by the current frame
//! are marked in use and survive eviction until [`TextAtlas::post_render_trim`]
//! clears the marks, once per frame, after draw submission.
//!
//! The packer and the recency list are outside collaborators; everything
//! decided here — who is evicted, what is cached, where uploads go — is
//! stated over their contents.

use std::collections::HashMap;
use std::collections::HashSet;

use vstd::prelude::*;

use crate::tools::Size;

verus! {

broadcast use vstd::std_specs::hash::group_hash_axioms, vstd::set::group_set_axioms;

/// The recency list's concrete type: keys only, hashed by the standard
/// hasher.
type LruKeys = lru::LruCache<u64, (), std::collections::hash_map::RandomState>;

#[verifier::external_type_specification]
#[verifier::external_body]
pub struct ExBucketedAtlasAllocator(etagere::BucketedAtlasAllocator);

/// The identifiers of the packer's live allocations.
pub uninterp spec fn packer_allocs(p: etagere::BucketedAtlasAllocator) -> Set<u32>;

/// The square side length the packer was created with.
pub uninterp spec fn packer_side(p: etagere::BucketedAtlasAllocator) -> u32;

/// Relies on `etagere::BucketedAtlasAllocator::new`: a fresh packer has no
/// live allocations. The allocator asserts that each dimension stays below
/// the 16-bit limit, hence the bound.
#[verifier::external_body]
fn packer_new(side: u32) -> (p: etagere::BucketedAtlasAllocator)
    requires
        1 <= side < 65535,
    ensures
        packer_allocs(p) == Set::<u32>::empty(),
        packer_side(p) == side,
{
    etagere::BucketedAtlasAllocator::new(etagere::size2(side as i32, side as i32))
}

/// Relies on `etagere::BucketedAtlasAllocator::allocate`: a successful
/// allocation returns a rectangle inside the atlas spanning at least the
/// requested size, under an identifier fresh among the live allocations.
#[verifier::external_body]
fn packer_alloc(p: &mut etagere::BucketedAtlasAllocator, w: u32, h: u32) -> (r: Option<
    (u32, u32, u32, u32, u32),
>)
    requires
        1 <= w,
        1 <= h,
    ensures
        packer_side(*final(p)) == packer_side(*old(p)),
        match r {
            None => packer_allocs(*final(p)) == packer_allocs(*old(p)),
            Some((id, x, y, rw, rh)) => {
                &&& !packer_allocs(*old(p)).contains(id)
                &&& packer_allocs(*final(p)) == packer_allocs(*old(p)).insert(id)
                &&& w <= rw
                &&& h <= rh
                &&& x + rw <= packer_side(*old(p))
                &&& y + rh <= packer_side(*old(p))
            },
        },
{
    match p.allocate(etagere::size2(w as i32, h as i32)) {
        Some(a) => Some((
            a.id.serialize(),
            a.rectangle.min.x as u32,
            a.rectangle.min.y as u32,
            a.rectangle.size().width as u32,
            a.rectangle.size().height as u32,
        )),
        None => None,
    }
}

/// Relies on `etagere::BucketedAtlasAllocator::deallocate`: frees one live
/// allocation. The allocator asserts on anything else, hence the
/// precondition.
#[verifier::external_body]
fn packer_dealloc(p: &mut etagere::BucketedAtlasAllocator, id: u32)
    requires
        packer_allocs(*old(p)).contains(id),
    ensures
        packer_allocs(*final(p)) == packer_allocs(*old(p)).remove(id),
        packer_side(*final(p)) == packer_side(*old(p)),
{
    p.deallocate(etagere::AllocId::deserialize(id))
}

#[verifier::external_type_specification]
#[verifier::external_body]
#[verifier::reject_recursive_types(K)]
#[verifier::reject_recursive_types(V)]
#[verifier::reject_recursive_types(S)]
pub struct ExLruCache<K, V, S>(lru::LruCache<K, V, S>);

/// The keys of the recency list, least recently used first. Keys are unique.
pub uninterp spec fn lru_order(c: LruKeys) -> Seq<u64>;

/// Relies on `lru::LruCache::unbounded`: a fresh cache is empty and never
/// evicts on its own.
#[verifier::external_body]
fn lru_new() -> (c: LruKeys)
    ensures
        lru_order(c) == Seq::<u64>::empty(),
{
    lru::LruCache::unbounded_with_hasher(std::collections::hash_map::RandomState::new())
}

/// Relies on `lru::LruCache::len`.
#[verifier::external_body]
fn lru_len(c: &LruKeys) -> (r: usize)
    ensures
        r == lru_order(*c).len(),
{
    c.len()
}

/// Relies on `lru::LruCache::promote`: an existing key moves to the
/// most-recent end, the others keep their relative order.
#[verifier::external_body]
fn lru_promote(c: &mut LruKeys, k: u64)
    requires
        lru_order(*old(c)).contains(k),
        lru_order(*old(c)).no_duplicates(),
    ensures
        lru_order(*final(c)) == lru_order(*old(c)).remove_value(k).push(k),
{
    c.promote(&k);
}

/// Relies on `lru::LruCache::push` of an absent key into an unbounded
/// cache: the key is appended as most recent and nothing is evicted.
#[verifier::external_body]
fn lru_push(c: &mut LruKeys, k: u64)
    requires
        !lru_order(*old(c)).contains(k),
        lru_order(*old(c)).len() < usize::MAX,
    ensures
        lru_order(*final(c)) == lru_order(*old(c)).push(k),
{
    let _ = c.push(k, ());
}

/// Relies on `lru::LruCache::pop_lru`: removes and returns the least
/// recently used key.
#[verifier::external_body]
fn lru_pop_lru(c: &mut LruKeys) -> (r: Option<u64>)
    ensures
        match r {
            None => lru_order(*old(c)).len() == 0 && lru_order(*final(c)) == lru_order(*old(c)),
            Some(k) => lru_order(*old(c)).len() > 0 && k == lru_order(*old(c))[0] && lru_order(
                *final(c),
            ) == lru_order(*old(c)).drop_first(),
        },
{
    c.pop_lru().map(|(k, _)| k)
}

/// A rasterized glyph bitmap as the font rasterizer hands it over:
/// dimensions, bearings for quad placement, and the pixel rows.
#[derive(Debug, Clone)]
pub struct GlyphImage {
    pub width: u32,
    pub height: u32,
    pub left: i32,
    pub top: i32,
    pub data: Vec<u8>,
}

/// Cached placement of one glyph: its packed rectangle in atlas pixels and
/// the bitmap metrics. Texel coordinates divide by the atlas side.
#[derive(Debug, Clone, Copy, PartialEq, Eq, Structural)]
pub struct GlyphData {
    /// Handle of the packer allocation backing this entry.
    pub alloc_id: u32,
    pub x: u32,
    pub y: u32,
    pub rect_w: u32,
    pub rect_h: u32,
    pub width: u32,
    pub height: u32,
    pub left: i32,
    pub top: i32,
}

/// Why a glyph could not be cached.
#[derive(Debug, Clone, Copy, PartialEq, Eq, Structural)]
pub enum CacheGlyphError {
    /// The rasterizer produced no bitmap for the glyph.
    NoGlyphImage,
    /// Every remaining cached glyph is part of the current frame's working
    /// set: the atlas is too small for this frame. Recoverable in principle
    /// by growing the atlas, which this cache does not do.
    OutOfSpace,
    /// The recency list cannot serve the request; with a correctly sized
    /// atlas this does not happen.
    LruStorageError,
}

impl CacheGlyphError {
    /// A short description of the error.
    pub fn message(&self) -> (r: &'static str)
        ensures
            match self {
                CacheGlyphError::NoGlyphImage => r@ == "no bitmap available for the glyph"@,
                CacheGlyphError::OutOfSpace => r@
                    == "atlas texture is too small for the current working set"@,
                CacheGlyphError::LruStorageError => r@ == "glyph recency storage failed"@,
            },
    {
        match self {
            CacheGlyphError::NoGlyphImage => "no bitmap available for the glyph",
            CacheGlyphError::OutOfSpace => "atlas texture is too small for the current working set",
            CacheGlyphError::LruStorageError => "glyph recency storage failed",
        }
    }
}

/// One pending copy of a glyph bitmap into the atlas texture.
#[derive(Debug, Clone)]
pub struct GlyphUpload {
    pub x: u32,
    pub y: u32,
    pub width: u32,
    pub height: u32,
    pub data: Vec<u8>,
}

/// A cached entry carries the bitmap's metrics.
pub open spec fn entry_matches(e: GlyphData, img: GlyphImage) -> bool {
    &&& e.width == img.width
    &&& e.height == img.height
    &&& e.left == img.left
    &&& e.top == img.top
}

/// A cached entry's rectangle lies inside the atlas and covers the bitmap.
pub open spec fn entry_in_bounds(e: GlyphData, side: u32) -> bool {
    &&& e.x + e.rect_w <= side
    &&& e.y + e.rect_h <= side
    &&& e.width <= e.rect_w
    &&& e.height <= e.rect_h
}

/// Copies a byte vector.
fn copy_bytes(src: &Vec<u8>) -> (r: Vec<u8>)
    ensures
        r@ == src@,
{
    let mut out: Vec<u8> = Vec::new();
    let mut i: usize = 0;
    while i < src.len()
        invariant
            i <= src@.len(),
            out@ == src@.take(i as int),
        decreases src@.len() - i,
    {
        out.push(src[i]);
        proof {
            assert(src@.take(i + 1) =~= src@.take(i as int).push(src@[i as int]));
        }
        i += 1;
    }
    proof {
        assert(src@.take(src@.len() as int) =~= src@);
    }
    out
}

/// The glyph atlas cache. Keys are stable glyph identities assigned by the
/// caller, one per distinct rasterization key.
pub struct TextAtlas {
    packer: etagere::BucketedAtlasAllocator,
    glyphs_in_use: HashSet<u64>,
    cached_glyphs: HashMap<u64, GlyphData>,
    recency: LruKeys,
    texture_size: Size<u32>,
    pending_uploads: Vec<GlyphUpload>,
}

impl TextAtlas {
    /// The cached glyphs by key.
    pub closed spec fn spec_glyphs(&self) -> Map<u64, GlyphData> {
        self.cached_glyphs@
    }

    /// The keys marked as used by the current frame.
    pub closed spec fn spec_in_use(&self) -> Set<u64> {
        self.glyphs_in_use@
    }

    /// The recency order of the cached keys, least recently used first.
    pub closed spec fn spec_recency(&self) -> Seq<u64> {
        lru_order(self.recency)
    }

    /// The atlas texture's square side length in pixels.
    pub closed spec fn spec_side(&self) -> u32 {
        self.texture_size.width
    }

    /// The bitmap copies not yet flushed to the texture.
    pub closed spec fn spec_uploads(&self) -> Seq<GlyphUpload> {
        self.pending_uploads@
    }

    /// The recency list and the entry map track exactly the same keys,
    /// every entry owns a distinct live packer allocation, and every packed
    /// rectangle lies inside the atlas.
    pub closed spec fn wf(&self) -> bool {
        &&& self.spec_recency().no_duplicates()
        &&& self.spec_glyphs().dom() == self.spec_recency().to_set()
        &&& self.texture_size.width == packer_side(self.packer)
        &&& self.texture_size.height == packer_side(self.packer)
        &&& 1 <= packer_side(self.packer) < 65535
        &&& forall|k: u64|
            #[trigger] self.spec_glyphs().dom().contains(k) ==> packer_allocs(
                self.packer,
            ).contains(self.spec_glyphs()[k].alloc_id)
        &&& forall|k1: u64, k2: u64|
            #[trigger] self.spec_glyphs().dom().contains(k1)
                && #[trigger] self.spec_glyphs().dom().contains(k2) && k1 != k2 ==> self.spec_glyphs()[
                k1].alloc_id != self.spec_glyphs()[k2].alloc_id
        &&& forall|k: u64|
            #[trigger] self.spec_glyphs().dom().contains(k) ==> entry_in_bounds(
                self.spec_glyphs()[k],
                self.spec_side(),
            )
    }

    /// Creates the atlas with its default texture size.
    pub fn new() -> (r: Self)
        ensures
            r.wf(),
            r.spec_glyphs() == Map::<u64, GlyphData>::empty(),
            r.spec_in_use() == Set::<u64>::empty(),
            r.spec_uploads() == Seq::<GlyphUpload>::empty(),
            r.spec_side() == 256,
    {
        let r = TextAtlas {
            packer: packer_new(256),
            glyphs_in_use: HashSet::new(),
            cached_glyphs: HashMap::new(),
            recency: lru_new(),
            texture_size: Size::new(256, 256),
            pending_uploads: Vec::new(),
        };
        proof {
            assert(r.spec_glyphs().dom() =~= r.spec_recency().to_set());
        }
        r
    }

    /// Every cached entry's packed rectangle covers its bitmap and lies
    /// inside the atlas texture, so texel coordinates and uploads derived
    /// from it stay in range.
    pub proof fn lemma_entries_in_bounds(&self)
        requires
            self.wf(),
        ensures
            forall|k: u64|
                #[trigger] self.spec_glyphs().dom().contains(k) ==> entry_in_bounds(
                    self.spec_glyphs()[k],
                    self.spec_side(),
                ),
    {
    }

    /// Read-only lookup of cached metrics; recency is untouched.
    pub fn get_glyph_data(&self, key: u64) -> (r: Option<&GlyphData>)
        ensures
            match r {
                Some(e) => self.spec_glyphs().dom().contains(key) && *e == self.spec_glyphs()[key],
                None => !self.spec_glyphs().dom().contains(key),
            },
    {
        self.cached_glyphs.get(&key)
    }

    /// The atlas texture's square side length in pixels.
    pub fn side(&self) -> (r: u32)
        ensures
            r == self.spec_side(),
    {
        self.texture_size.width
    }

    /// Evicts the least recently used glyph, unless it is part of the
    /// current frame's working set: then the atlas is genuinely too small
    /// for this frame and `OutOfSpace` is reported. An empty recency list
    /// reports `LruStorageError`.
    fn free_space(&mut self) -> (r: Result<(), CacheGlyphError>)
        requires
            old(self).wf(),
        ensures
            final(self).wf(),
            final(self).spec_in_use() == old(self).spec_in_use(),
            final(self).spec_side() == old(self).spec_side(),
            final(self).spec_uploads() == old(self).spec_uploads(),
            match r {
                Ok(_) => {
                    &&& old(self).spec_recency().len() > 0
                    &&& !old(self).spec_in_use().contains(old(self).spec_recency()[0])
                    &&& final(self).spec_glyphs() == old(self).spec_glyphs().remove(
                        old(self).spec_recency()[0],
                    )
                    &&& final(self).spec_recency() == old(self).spec_recency().drop_first()
                },
                Err(CacheGlyphError::OutOfSpace) => {
                    &&& old(self).spec_recency().len() > 0
                    &&& old(self).spec_in_use().contains(old(self).spec_recency()[0])
                    &&& final(self).spec_glyphs() == old(self).spec_glyphs()
                    &&& final(self).spec_recency() == old(self).spec_recency()
                },
                Err(CacheGlyphError::LruStorageError) => {
                    &&& old(self).spec_recency().len() == 0
                    &&& final(self).spec_glyphs() == old(self).spec_glyphs()
                    &&& final(self).spec_recency() == old(self).spec_recency()
                },
                Err(CacheGlyphError::NoGlyphImage) => false,
            },
    {
        let head = match lru_peek_lru(&self.recency) {
            None => {
                return Err(CacheGlyphError::LruStorageError);
            },
            Some(k) => k,
        };

        if self.glyphs_in_use.contains(&head) {
            return Err(CacheGlyphError::OutOfSpace);
        }

        let popped = lru_pop_lru(&mut self.recency);
        proof {
            assert(popped == Some(head));
            assert(old(self).spec_recency().to_set().contains(head));
            assert(old(self).spec_glyphs().dom().contains(head));
        }
        let entry = match self.cached_glyphs.remove(&head) {
            Some(e) => e,
            None => {
                proof {
                    assert(false);
                }
                return Err(CacheGlyphError::LruStorageError);
            },
        };
        packer_dealloc(&mut self.packer, entry.alloc_id);
        proof {
            lemma_drop_first_set(old(self).spec_recency());
            assert(self.spec_glyphs().dom() =~= self.spec_recency().to_set());
            assert forall|k: u64| #[trigger] self.spec_glyphs().dom().contains(k) implies
                packer_allocs(self.packer).contains(self.spec_glyphs()[k].alloc_id) by {
                assert(old(self).spec_glyphs().dom().contains(k));
                assert(k != head);
                assert(old(self).spec_glyphs()[k].alloc_id != entry.alloc_id);
            }
        }
        Ok(())
    }

    /// Packs one rasterized bitmap, evicting as needed, copies it into the
    /// texture at the packed offset, and inserts the entry as most recently
    /// used. Glyphs in the current frame's working set are never evicted.
    fn cache_glyph(&mut self, key: u64, image: &GlyphImage) -> (r: Result<(), CacheGlyphError>)
        requires
            old(self).wf(),
            !old(self).spec_glyphs().dom().contains(key),
        ensures
            final(self).wf(),
            final(self).spec_in_use() == old(self).spec_in_use(),
            final(self).spec_side() == old(self).spec_side(),
            forall|k: u64|
                #[trigger] final(self).spec_glyphs().dom().contains(k) && k != key ==> old(self).spec_glyphs().dom().contains(k) && final(self).spec_glyphs()[k] == old(self).spec_glyphs()[k],
            forall|k: u64|
                #[trigger] old(self).spec_glyphs().dom().contains(k) && old(self).spec_in_use().contains(k) ==> final(self).spec_glyphs().dom().contains(k),
            match r {
                Ok(_) => {
                    &&& final(self).spec_glyphs().dom().contains(key)
                    &&& entry_matches(final(self).spec_glyphs()[key], *image)
                    &&& final(self).spec_recency().len() > 0
                    &&& final(self).spec_recency().last() == key
                    &&& final(self).spec_uploads().len() == old(self).spec_uploads().len() + 1
                    &&& final(self).spec_uploads().drop_last() == old(self).spec_uploads()
                    &&& ({
                        let u = final(self).spec_uploads().last();
                        &&& u.x == final(self).spec_glyphs()[key].x
                        &&& u.y == final(self).spec_glyphs()[key].y
                        &&& u.width == image.width
                        &&& u.height == image.height
                        &&& u.data@ == image.data@
                    })
                },
                Err(e) => {
                    &&& !final(self).spec_glyphs().dom().contains(key)
                    &&& final(self).spec_uploads() == old(self).spec_uploads()
                    &&& e != CacheGlyphError::NoGlyphImage
                },
            },
    {
        if lru_len(&self.recency) >= usize::MAX {
            return Err(CacheGlyphError::LruStorageError);
        }

        let w = if image.width == 0 {
            1
        } else {
            image.width
        };
        let h = if image.height == 0 {
            1
        } else {
            image.height
        };

        let (id, x, y, rw, rh) = match self.alloc_with_eviction(key, w, h) {
            Ok(a) => a,
            Err(e) => {
                return Err(e);
            },
        };

        let entry = GlyphData {
            alloc_id: id,
            x,
            y,
            rect_w: rw,
            rect_h: rh,
            width: image.width,
            height: image.height,
            left: image.left,
            top: image.top,
        };
        let ghost pre = *self;
        proof {
            assert(!pre.spec_recency().contains(key)) by {
                if pre.spec_recency().contains(key) {
                    assert(pre.spec_recency().to_set().contains(key));
                }
            }
        }
        self.cached_glyphs.insert(key, entry);
        lru_push(&mut self.recency, key);
        self.pending_uploads.push(GlyphUpload {
            x,
            y,
            width: image.width,
            height: image.height,
            data: copy_bytes(&image.data),
        });
        proof {
            lemma_push_set(pre.spec_recency(), key);
            assert(self.spec_glyphs().dom() =~= self.spec_recency().to_set());
            assert(self.spec_uploads().drop_last() =~= old(self).spec_uploads());
            assert(self.spec_glyphs()[key] == entry);
        }
        Ok(())
    }

    /// Finds space for a rectangle, evicting least-recently-used entries
    /// not in the current working set until the packer accepts.
    fn alloc_with_eviction(&mut self, key: u64, w: u32, h: u32) -> (r: Result<
        (u32, u32, u32, u32, u32),
        CacheGlyphError,
    >)
        requires
            old(self).wf(),
            !old(self).spec_glyphs().dom().contains(key),
            1 <= w,
            1 <= h,
        ensures
            final(self).wf(),
            final(self).spec_in_use() == old(self).spec_in_use(),
            final(self).spec_side() == old(self).spec_side(),
            final(self).spec_uploads() == old(self).spec_uploads(),
            final(self).spec_recency().len() <= old(self).spec_recency().len(),
            !final(self).spec_glyphs().dom().contains(key),
            forall|k: u64|
                #[trigger] final(self).spec_glyphs().dom().contains(k) ==> old(self).spec_glyphs().dom().contains(k) && final(self).spec_glyphs()[k] == old(self).spec_glyphs()[k],
            forall|k: u64|
                #[trigger] old(self).spec_glyphs().dom().contains(k) && old(self).spec_in_use().contains(k) ==> final(self).spec_glyphs().dom().contains(k),
            match r {
                Ok((id, x, y, rw, rh)) => {
                    &&& packer_allocs(final(self).packer).contains(id)
                    &&& forall|k: u64|
                        #[trigger] final(self).spec_glyphs().dom().contains(k) ==> final(self).spec_glyphs()[k].alloc_id != id
                    &&& w <= rw
                    &&& h <= rh
                    &&& x + rw <= final(self).spec_side()
                    &&& y + rh <= final(self).spec_side()
                },
                Err(e) => e != CacheGlyphError::NoGlyphImage,
            },
        decreases lru_order(self.recency).len(),
    {
        match packer_alloc(&mut self.packer, w, h) {
            Some(a) => {
                proof {
                    assert forall|k: u64|
                        #[trigger] self.spec_glyphs().dom().contains(k) implies self.spec_glyphs()[
                        k].alloc_id != a.0 by {
                        assert(packer_allocs(old(self).packer).contains(
                            self.spec_glyphs()[k].alloc_id,
                        ));
                    }
                }
                Ok(a)
            },
            None => {
                match self.free_space() {
                    Ok(_) => self.alloc_with_eviction(key, w, h),
                    Err(e) => Err(e),
                }
            },
        }
    }

    /// Marks a glyph as used by the current frame, caching it first if it
    /// is absent. A missing bitmap for an uncached glyph is `NoGlyphImage`;
    /// eviction pressure against the current working set is `OutOfSpace`.
    /// On success the glyph is cached, most recently used and in use.
    pub fn use_glyph(&mut self, key: u64, image: Option<&GlyphImage>) -> (r: Result<
        (),
        CacheGlyphError,
    >)
        requires
            old(self).wf(),
        ensures
            final(self).wf(),
            final(self).spec_side() == old(self).spec_side(),
            forall|k: u64|
                #[trigger] final(self).spec_glyphs().dom().contains(k) && k != key ==> old(self).spec_glyphs().dom().contains(k) && final(self).spec_glyphs()[k] == old(self).spec_glyphs()[k],
            forall|k: u64|
                #[trigger] old(self).spec_glyphs().dom().contains(k) && old(self).spec_in_use().contains(k) ==> final(self).spec_glyphs().dom().contains(k) && final(self).spec_glyphs()[k] == old(self).spec_glyphs()[k],
            match r {
                Ok(_) => {
                    &&& final(self).spec_glyphs().dom().contains(key)
                    &&& final(self).spec_in_use() == old(self).spec_in_use().insert(key)
                    &&& (old(self).spec_glyphs().dom().contains(key) ==> final(self).spec_glyphs()
                        == old(self).spec_glyphs() && final(self).spec_uploads() == old(self).spec_uploads())
                    &&& (!old(self).spec_glyphs().dom().contains(key) ==> match image {
                        Some(img) => entry_matches(final(self).spec_glyphs()[key], *img),
                        None => false,
                    })
                    &&& final(self).spec_recency().len() > 0
                    &&& final(self).spec_recency().last() == key
                },
                Err(CacheGlyphError::NoGlyphImage) => {
                    &&& !old(self).spec_glyphs().dom().contains(key)
                    &&& image is None
                    &&& final(self).spec_glyphs() == old(self).spec_glyphs()
                    &&& final(self).spec_in_use() == old(self).spec_in_use()
                    &&& final(self).spec_uploads() == old(self).spec_uploads()
                },
                Err(_) => {
                    &&& !old(self).spec_glyphs().dom().contains(key)
                    &&& image is Some
                    &&& !final(self).spec_glyphs().dom().contains(key)
                    &&& final(self).spec_in_use() == old(self).spec_in_use()
                    &&& final(self).spec_uploads() == old(self).spec_uploads()
                },
            },
    {
        if self.cached_glyphs.contains_key(&key) {
            proof {
                assert(old(self).spec_recency().to_set().contains(key));
                assert(old(self).spec_recency().contains(key));
            }
            lru_promote(&mut self.recency, key);
            self.glyphs_in_use.insert(key);
            proof {
                lemma_promote_order(old(self).spec_recency(), key);
                assert(self.spec_glyphs().dom() =~= self.spec_recency().to_set());
            }
            return Ok(());
        }

        let img = match image {
            None => {
                return Err(CacheGlyphError::NoGlyphImage);
            },
            Some(img) => img,
        };

        match self.cache_glyph(key, img) {
            Ok(_) => {
                self.glyphs_in_use.insert(key);
                Ok(())
            },
            Err(e) => Err(e),
        }
    }

    /// Clears the per-frame working-set marks. Call exactly once per frame,
    /// after draw submission, so the next frame's eviction decisions start
    /// unbiased.
    pub fn post_render_trim(&mut self)
        requires
            old(self).wf(),
        ensures
            final(self).wf(),
            final(self).spec_in_use() == Set::<u64>::empty(),
            final(self).spec_glyphs() == old(self).spec_glyphs(),
            final(self).spec_recency() == old(self).spec_recency(),
            final(self).spec_uploads() == old(self).spec_uploads(),
            final(self).spec_side() == old(self).spec_side(),
    {
        self.glyphs_in_use.clear();
    }

    /// Hands the accumulated bitmap copies over for texture upload and
    /// clears the queue.
    pub fn take_pending_uploads(&mut self) -> (r: Vec<GlyphUpload>)
        requires
            old(self).wf(),
        ensures
            final(self).wf(),
            r@ == old(self).spec_uploads(),
            final(self).spec_uploads() == Seq::<GlyphUpload>::empty(),
            final(self).spec_glyphs() == old(self).spec_glyphs(),
            final(self).spec_in_use() == old(self).spec_in_use(),
            final(self).spec_recency() == old(self).spec_recency(),
            final(self).spec_side() == old(self).spec_side(),
    {
        let mut out: Vec<GlyphUpload> = Vec::new();
        core::mem::swap(&mut out, &mut self.pending_uploads);
        proof {
            assert(self.spec_uploads() =~= Seq::<GlyphUpload>::empty());
        }
        out
    }
}

/// Relies on `lru::LruCache::peek_lru`, which does not touch recency.
#[verifier::external_body]
fn lru_peek_lru(c: &LruKeys) -> (r: Option<u64>)
    ensures
        match r {
            None => lru_order(*c).len() == 0,
            Some(k) => lru_order(*c).len() > 0 && k == lru_order(*c)[0],
        },
{
    c.peek_lru().map(|(k, _)| *k)
}

/// Dropping the head of a duplicate-free sequence removes exactly it from
/// the key set.
proof fn lemma_drop_first_set(s: Seq<u64>)
    requires
        s.len() > 0,
        s.no_duplicates(),
    ensures
        s.drop_first().to_set() =~= s.to_set().remove(s[0]),
        s.drop_first().no_duplicates(),
{
    assert forall|k: u64| s.drop_first().to_set().contains(k) implies s.to_set().remove(
        s[0],
    ).contains(k) by {
        let i = choose|i: int| 0 <= i < s.drop_first().len() && s.drop_first()[i] == k;
        assert(s[i + 1] == k);
    }
    assert forall|k: u64| s.to_set().remove(s[0]).contains(k) implies
        s.drop_first().to_set().contains(k) by {
        let i = choose|i: int| 0 <= i < s.len() && s[i] == k;
        assert(i != 0);
        assert(s.drop_first()[i - 1] == k);
    }
}

/// Appending a fresh key extends the key set by exactly it.
proof fn lemma_push_set(s: Seq<u64>, k: u64)
    requires
        !s.contains(k),
        s.no_duplicates(),
    ensures
        s.push(k).to_set() =~= s.to_set().insert(k),
        s.push(k).no_duplicates(),
        s.push(k).last() == k,
{
    assert forall|x: u64| s.push(k).to_set().contains(x) implies s.to_set().insert(k).contains(
        x,
    ) by {
        let i = choose|i: int| 0 <= i < s.push(k).len() && s.push(k)[i] == x;
        if i < s.len() {
            assert(s[i] == x);
        }
    }
    assert forall|x: u64| s.to_set().insert(k).contains(x) implies s.push(k).to_set().contains(
        x,
    ) by {
        if x == k {
            assert(s.push(k)[s.len() as int] == x);
        } else {
            let i = choose|i: int| 0 <= i < s.len() && s[i] == x;
            assert(s.push(k)[i] == x);
        }
    }
}

/// Promoting an existing key keeps the key set and leaves the key last.
proof fn lemma_promote_order(s: Seq<u64>, k: u64)
    requires
        s.contains(k),
        s.no_duplicates(),
    ensures
        s.remove_value(k).push(k).to_set() =~= s.to_set(),
        s.remove_value(k).push(k).no_duplicates(),
        s.remove_value(k).push(k).last() == k,
        s.remove_value(k).push(k).len() == s.len(),
{
    let i = s.index_of_first(k);
    s.index_of_first_ensures(k);
    let ii = i.unwrap();
    let rem = s.remove(ii);
    assert(rem == s.remove_value(k));
    assert forall|x: u64| rem.contains(x) implies s.contains(x) && x != k by {
        let j = choose|j: int| 0 <= j < rem.len() && rem[j] == x;
        if j < ii {
            assert(s[j] == x);
            assert(j != ii);
        } else {
            assert(s[j + 1] == x);
            assert(j + 1 != ii);
        }
    }
    assert(!rem.contains(k));
    lemma_push_set(rem, k);
    assert forall|x: u64| s.contains(x) implies rem.push(k).to_set().contains(x) by {
        if x == k {
            assert(rem.push(k).last() == x);
            assert(rem.push(k)[rem.len() as int] == x);
        } else {
            let j = choose|j: int| 0 <= j < s.len() && s[j] == x;
            if j < ii {
                assert(rem[j] == x);
                assert(rem.push(k)[j] == x);
            } else {
                assert(j != ii);
                assert(rem[j - 1] == x);
                assert(rem.push(k)[j - 1] == x);
            }
        }
    }
    assert forall|x: u64| rem.push(k).to_set().contains(x) implies s.to_set().contains(x) by {
        let j = choose|j: int| 0 <= j < rem.push(k).len() && rem.push(k)[j] == x;
        if j < rem.len() {
            assert(rem[j] == x);
        }
    }
    assert(rem.no_duplicates()) by {
        assert forall|a: int, b: int|
            0 <= a < b < rem.len() implies rem[a] != rem[b] by {
            let sa = if a < ii { a } else { a + 1 };
            let sb = if b < ii { b } else { b + 1 };
            assert(rem[a] == s[sa]);
            assert(rem[b] == s[sb]);
        }
    }
}

} // verus!
