use vstd::prelude::*;

verus! {

/// Empty border kept inside each glyph's cell, around its pixels.
pub const GLYPH_PADDING: u32 = 1;
/// Empty border kept between neighbouring cells of an atlas.
pub const GLYPH_MARGIN: u32 = 1;
/// Width and height of each atlas texture.
pub const TEXTURE_SIZE: usize = 512;

#[verifier::external_type_specification]
#[verifier::external_body]
pub struct ExAtlas(femtovg::Atlas);

/// The width and height an atlas was made with.
pub uninterp spec fn atlas_size(a: femtovg::Atlas) -> (usize, usize);

/// Where the packer of `a` puts a `width` by `height` rectangle: its
/// top-left corner, or `None` when it finds no room.
pub uninterp spec fn atlas_place(a: femtovg::Atlas, width: usize, height: usize) -> Option<(usize, usize)>;

/// The packer's skyline over column `column`: the lowest row that is still
/// free above every rectangle reserved in that column.
pub uninterp spec fn atlas_sky(a: femtovg::Atlas, column: usize) -> usize;

/// A rectangle `(x, y, width, height)` of an atlas.
pub type Cell = (usize, usize, usize, usize);

/// The two rectangles share no pixel.
pub open spec fn disjoint(a: Cell, b: Cell) -> bool {
    a.2 == 0 || a.3 == 0 || b.2 == 0 || b.3 == 0 || a.0 + a.2 <= b.0 || b.0 + b.2 <= a.0 || a.1 + a.3 <= b.1 || b.1
        + b.3 <= a.1
}

/// Relies on `femtovg::Atlas::new`: a packer of the given size whose
/// skyline is a single segment at row 0, so that the first rectangle that is
/// no wider than the atlas and strictly lower than it goes to the origin (the
/// packer only accepts a placement whose bottom lies strictly above the
/// atlas height, or on it with a narrower skyline segment, which a new atlas
/// lacks).
#[verifier::external_body]
fn new_atlas(width: usize, height: usize) -> (r: femtovg::Atlas)
    ensures
        atlas_size(r) == (width, height),
        forall|c: usize| #[trigger] atlas_sky(r, c) == 0,
        forall|w: usize, h: usize| w <= width && h < height ==> #[trigger] atlas_place(r, w, h) == Some((0usize, 0usize)),
{
    femtovg::Atlas::new(width, height)
}

/// Relies on `femtovg::Atlas::add_rect`: reserves a `width` by `height`
/// rectangle where the packer places it and returns its top-left corner, or
/// `None` (leaving the atlas as it was) when it finds no room. A placed
/// rectangle lies within the atlas, sits on or above the skyline over its
/// columns, and raises the skyline over those columns to its bottom; the
/// skyline elsewhere is unchanged.
#[verifier::external_body]
fn atlas_add_rect(atlas: &mut femtovg::Atlas, width: usize, height: usize) -> (r: Option<(usize, usize)>)
    requires
        width <= atlas_size(*old(atlas)).0,
        height <= atlas_size(*old(atlas)).1,
        atlas_size(*old(atlas)).0 <= TEXTURE_SIZE,
        atlas_size(*old(atlas)).1 <= TEXTURE_SIZE,
    ensures
        atlas_size(*final(atlas)) == atlas_size(*old(atlas)),
        r == atlas_place(*old(atlas), width, height),
        r is None ==> *final(atlas) == *old(atlas),
        r matches Some((x, y)) ==> x + width <= atlas_size(*old(atlas)).0 && y + height <= atlas_size(*old(atlas)).1
            && (forall|c: usize| x <= c < x + width ==> #[trigger] atlas_sky(*old(atlas), c) <= y)
            && (forall|c: usize| #[trigger] atlas_sky(*final(atlas), c) == if x <= c < x + width {
                (y + height) as usize
            } else {
                atlas_sky(*old(atlas), c)
            }),
{
    atlas.add_rect(width, height)
}

/// Every column of `c` has its skyline in `a` at or below the bottom of `c`.
pub open spec fn under_sky(a: femtovg::Atlas, c: Cell) -> bool {
    forall|col: usize| c.0 <= col < c.0 + c.2 ==> c.1 + c.3 <= #[trigger] atlas_sky(a, col)
}

/// The cells of one atlas lie within it, under its skyline, and share no
/// pixel with each other.
pub open spec fn cells_ok(a: femtovg::Atlas, cs: Seq<Cell>) -> bool {
    &&& forall|j: int| 0 <= j < cs.len() ==> #[trigger] under_sky(a, cs[j]) && cs[j].0 + cs[j].2 <= TEXTURE_SIZE
        && cs[j].1 + cs[j].3 <= TEXTURE_SIZE
    &&& forall|j: int, k: int| 0 <= j < k < cs.len() ==> disjoint(#[trigger] cs[j], #[trigger] cs[k])
}

/// Reserving `cell` where the packer put it keeps the cells of the atlas in
/// order, and the new cell shares no pixel with the earlier ones.
proof fn lemma_reserve(old: femtovg::Atlas, new: femtovg::Atlas, cs: Seq<Cell>, cell: Cell)
    requires
        cells_ok(old, cs),
        cell.0 + cell.2 <= TEXTURE_SIZE,
        cell.1 + cell.3 <= TEXTURE_SIZE,
        forall|c: usize| cell.0 <= c < cell.0 + cell.2 ==> #[trigger] atlas_sky(old, c) <= cell.1,
        forall|c: usize| #[trigger] atlas_sky(new, c) == if cell.0 <= c < cell.0 + cell.2 {
            (cell.1 + cell.3) as usize
        } else {
            atlas_sky(old, c)
        },
    ensures
        cells_ok(new, cs.push(cell)),
        forall|j: int| 0 <= j < cs.len() ==> disjoint(#[trigger] cs[j], cell),
{
    let n = cs.push(cell);
    assert forall|j: int| 0 <= j < cs.len() implies disjoint(#[trigger] cs[j], cell) by {
        let c = cs[j];
        assert(under_sky(old, c));
        if c.2 > 0 && c.3 > 0 && cell.2 > 0 && cell.3 > 0 && c.0 < cell.0 + cell.2 && cell.0 < c.0 + c.2 {
            if c.0 < cell.0 {
                assert(c.0 <= cell.0 < c.0 + c.2);
                assert(c.1 + c.3 <= atlas_sky(old, cell.0));
                assert(atlas_sky(old, cell.0) <= cell.1);
            } else {
                assert(cell.0 <= c.0 < cell.0 + cell.2);
                assert(c.1 + c.3 <= atlas_sky(old, c.0));
                assert(atlas_sky(old, c.0) <= cell.1);
            }
        }
    }
    assert forall|j: int| 0 <= j < n.len() implies #[trigger] under_sky(new, n[j]) && n[j].0 + n[j].2 <= TEXTURE_SIZE
        && n[j].1 + n[j].3 <= TEXTURE_SIZE by {
        if j < cs.len() {
            let c = cs[j];
            assert(n[j] == c);
            assert(under_sky(old, c));
            assert forall|col: usize| c.0 <= col < c.0 + c.2 implies c.1 + c.3 <= #[trigger] atlas_sky(new, col) by {
                assert(c.1 + c.3 <= atlas_sky(old, col));
            }
        } else {
            assert(n[j] == cell);
            assert forall|col: usize| cell.0 <= col < cell.0 + cell.2 implies cell.1 + cell.3 <= #[trigger] atlas_sky(new, col) by {}
        }
    }
    assert forall|j: int, k: int| 0 <= j < k < n.len() implies disjoint(#[trigger] n[j], #[trigger] n[k]) by {
        if k < cs.len() {
            assert(n[j] == cs[j] && n[k] == cs[k]);
        } else {
            assert(n[j] == cs[j] && n[k] == cell);
        }
    }
}

/// What identifies one rasterised glyph: the font, the size (as the bits of
/// its floating-point value, for exact comparison), the glyph, the
/// sub-pixel bins of its position and the synthesis flags.
#[derive(Copy, Clone, Debug, PartialEq, Eq, Structural)]
pub struct CacheKey {
    pub font_id: u64,
    pub font_size_bits: u32,
    pub glyph_id: u16,
    pub x_bin: u8,
    pub y_bin: u8,
    pub flags: u32,
}

/// What the rasterizer produced for a glyph: the size of its bitmap, the
/// placement of the bitmap relative to the pen position, and whether it is
/// a colour bitmap (else a single-channel mask).
#[derive(Copy, Clone, Debug, PartialEq, Eq, Structural)]
pub struct GlyphImage {
    pub width: u32,
    pub height: u32,
    pub left: i32,
    pub top: i32,
    pub color: bool,
}

/// Settings of the rasterizer.
#[derive(Copy, Clone, Debug, PartialEq, Eq, Structural)]
pub struct TextConfig {
    pub hint: bool,
    pub subpixel: bool,
}

/// Where a glyph lives in the atlas textures and how to place it.
#[derive(Copy, Clone, Debug, PartialEq, Eq, Structural)]
pub struct RenderedGlyph {
    /// Index of the atlas texture.
    pub texture_index: usize,
    /// Size of the cell used on screen: the bitmap and its padding.
    pub width: u32,
    pub height: u32,
    /// Placement of the bitmap relative to the pen position.
    pub offset_x: i32,
    pub offset_y: i32,
    /// Top-left corner of the cell in the atlas.
    pub atlas_x: u32,
    pub atlas_y: u32,
    /// A colour glyph (drawn as is) rather than a mask (drawn in the text colour).
    pub color_glyph: bool,
}

/// Where the caller copies a new glyph's pixels.
#[derive(Copy, Clone, Debug, PartialEq, Eq, Structural)]
pub struct Upload {
    pub texture_index: usize,
    /// Top-left corner of the bitmap in the atlas texture.
    pub x: u32,
    pub y: u32,
    /// The texture is new: the caller creates it (empty, `TEXTURE_SIZE`
    /// square) before the copy.
    pub new_texture: bool,
}

/// The cached outcome for `key`: `None` when never rasterised, `Some(None)`
/// when the glyph could not be rendered or placed.
pub open spec fn cached(s: Seq<(CacheKey, Option<RenderedGlyph>)>, key: CacheKey) -> Option<Option<RenderedGlyph>> {
    if exists|i: int| 0 <= i < s.len() && #[trigger] s[i].0 == key {
        Some(s[choose|i: int| 0 <= i < s.len() && #[trigger] s[i].0 == key].1)
    } else {
        None
    }
}

pub open spec fn keys_distinct(s: Seq<(CacheKey, Option<RenderedGlyph>)>) -> bool {
    forall|i: int, j: int| 0 <= i < s.len() && 0 <= j < s.len() && i != j ==> #[trigger] s[i].0 != #[trigger] s[j].0
}

proof fn lemma_cached_at(s: Seq<(CacheKey, Option<RenderedGlyph>)>, i: int)
    requires
        keys_distinct(s),
        0 <= i < s.len(),
    ensures
        cached(s, s[i].0) == Some(s[i].1),
{
    let key = s[i].0;
    assert(s[i].0 == key);
    let k = choose|k: int| 0 <= k < s.len() && #[trigger] s[k].0 == key;
    assert(s[k].0 == key);
}

proof fn lemma_cached_push(s: Seq<(CacheKey, Option<RenderedGlyph>)>, key: CacheKey, g: Option<RenderedGlyph>)
    requires
        keys_distinct(s),
        cached(s, key) is None,
    ensures
        keys_distinct(s.push((key, g))),
        forall|k: CacheKey| #[trigger] cached(s.push((key, g)), k) == if k == key {
            Some(g)
        } else {
            cached(s, k)
        },
{
    let t = s.push((key, g));
    assert forall|i: int| 0 <= i < s.len() implies s[i].0 != key by {
        if s[i].0 == key {
            assert(exists|j: int| 0 <= j < s.len() && #[trigger] s[j].0 == key);
        }
    }
    assert forall|i: int, j: int| 0 <= i < t.len() && 0 <= j < t.len() && i != j implies #[trigger] t[i].0 != #[trigger] t[j].0 by {
        if i < s.len() && j < s.len() {
            assert(t[i] == s[i] && t[j] == s[j]);
        } else if i < s.len() {
            assert(t[i] == s[i]);
        } else {
            assert(t[j] == s[j]);
        }
    }
    assert forall|k: CacheKey| #[trigger] cached(t, k) == if k == key {
        Some(g)
    } else {
        cached(s, k)
    } by {
        if k == key {
            lemma_cached_at(t, s.len() as int);
        } else {
            if exists|i: int| 0 <= i < s.len() && #[trigger] s[i].0 == k {
                let i = choose|i: int| 0 <= i < s.len() && #[trigger] s[i].0 == k;
                lemma_cached_at(s, i);
                assert(t[i] == s[i]);
                lemma_cached_at(t, i);
            } else {
                assert forall|i: int| 0 <= i < t.len() implies t[i].0 != k by {
                    if i < s.len() {
                        assert(t[i] == s[i]);
                    }
                }
            }
        }
    }
}

/// The glyph cache: the outcome of every glyph rasterised so far, and the
/// atlas textures that hold their pixels. Entries are never evicted.
pub struct RenderCache {
    rendered_glyphs: Vec<(CacheKey, Option<RenderedGlyph>)>,
    glyph_textures: Vec<femtovg::Atlas>,
    /// The cells reserved in each atlas, in the order they were reserved.
    reserved: Ghost<Seq<Seq<Cell>>>,
}

impl RenderCache {
    pub closed spec fn entries(&self) -> Seq<(CacheKey, Option<RenderedGlyph>)> {
        self.rendered_glyphs@
    }

    /// The atlas textures, in the order they were made.
    pub closed spec fn atlases(&self) -> Seq<femtovg::Atlas> {
        self.glyph_textures@
    }

    /// The cells reserved in each atlas, in the order they were reserved.
    pub closed spec fn cells(&self) -> Seq<Seq<Cell>> {
        self.reserved@
    }

    pub open spec fn textures(&self) -> nat {
        self.atlases().len()
    }

    pub closed spec fn wf(&self) -> bool {
        &&& keys_distinct(self.rendered_glyphs@)
        &&& self.reserved@.len() == self.glyph_textures@.len()
        &&& forall|i: int| 0 <= i < self.glyph_textures@.len() ==> #[trigger] atlas_size(self.glyph_textures@[i]) == (TEXTURE_SIZE, TEXTURE_SIZE)
            && cells_ok(self.glyph_textures@[i], self.reserved@[i])
    }

    pub fn new() -> (r: RenderCache)
        ensures
            r.wf(),
            r.textures() == 0,
            forall|k: CacheKey| #[trigger] cached(r.entries(), k) is None,
    {
        RenderCache { rendered_glyphs: Vec::new(), glyph_textures: Vec::new(), reserved: Ghost(Seq::empty()) }
    }

    /// Number of atlas textures in use.
    pub fn texture_count(&self) -> (r: usize)
        ensures
            r == self.textures(),
    {
        self.glyph_textures.len()
    }

    /// The cached outcome for `key`, if it was rasterised before.
    pub fn lookup(&self, key: &CacheKey) -> (r: Option<Option<RenderedGlyph>>)
        requires
            self.wf(),
        ensures
            r == cached(self.entries(), *key),
    {
        let mut i: usize = 0;
        while i < self.rendered_glyphs.len()
            invariant
                i <= self.entries().len(),
                self.wf(),
                forall|k: int| 0 <= k < i ==> self.entries()[k].0 != *key,
            decreases self.entries().len() - i,
        {
            if self.rendered_glyphs[i].0 == *key {
                proof {
                    lemma_cached_at(self.entries(), i as int);
                }
                return Some(self.rendered_glyphs[i].1);
            }
            i += 1;
        }
        None
    }

    /// Reserves a cell of `w` by `h` pixels in the first atlas that has room,
    /// making a new atlas when none has. Returns the atlas index, the cell's
    /// corner and whether the atlas is new.
    fn allocate(&mut self, w: usize, h: usize) -> (r: (usize, usize, usize, bool))
        requires
            old(self).wf(),
            w <= TEXTURE_SIZE,
            h < TEXTURE_SIZE,
        ensures
            final(self).wf(),
            final(self).entries() == old(self).entries(),
            cell_reserved(old(self).atlases(), old(self).cells(), final(self).atlases(), final(self).cells(), r.0 as int, (r.1, r.2, w, h)),
            r.3 == (r.0 == old(self).textures()),
    {
        let ghost a0 = self.atlases();
        let ghost c0 = self.cells();
        let mut i: usize = 0;
        while i < self.glyph_textures.len()
            invariant
                self.wf(),
                self.entries() == old(self).entries(),
                self.atlases() == a0,
                self.cells() == c0,
                a0 == old(self).atlases(),
                c0 == old(self).cells(),
                w <= TEXTURE_SIZE,
                h < TEXTURE_SIZE,
                i <= a0.len(),
                forall|k: int| 0 <= k < i ==> #[trigger] atlas_place(a0[k], w, h) is None,
            decreases a0.len() - i,
        {
            assert(atlas_size(a0[i as int]) == (TEXTURE_SIZE, TEXTURE_SIZE) && cells_ok(a0[i as int], c0[i as int]));
            let found = atlas_add_rect(&mut self.glyph_textures[i], w, h);
            match found {
                Some((x, y)) => {
                    proof {
                        let a = self.glyph_textures@;
                        lemma_reserve(a0[i as int], a[i as int], c0[i as int], (x, y, w, h));
                        self.reserved@ = c0.update(i as int, c0[i as int].push((x, y, w, h)));
                        let c = self.reserved@;
                        assert forall|k: int| 0 <= k < a.len() implies #[trigger] atlas_size(a[k]) == (TEXTURE_SIZE, TEXTURE_SIZE)
                            && cells_ok(a[k], c[k]) by {
                            if k != i as int {
                                assert(a[k] == a0[k]);
                                assert(c[k] == c0[k]);
                            }
                        }
                        assert(prior_cells(c0, i as int) == c0[i as int]);
                    }
                    return (i, x, y, false);
                },
                None => {
                    proof {
                        assert(self.glyph_textures@ =~= a0);
                    }
                },
            }
            i += 1;
        }
        let mut atlas = new_atlas(TEXTURE_SIZE, TEXTURE_SIZE);
        let ghost fresh = atlas;
        proof {
            assert(cells_ok(fresh, Seq::<Cell>::empty()));
        }
        let found = atlas_add_rect(&mut atlas, w, h);
        assert(found == Some((0usize, 0usize)));
        let t = self.glyph_textures.len();
        self.glyph_textures.push(atlas);
        proof {
            lemma_reserve(fresh, atlas, Seq::<Cell>::empty(), (0, 0, w, h));
            self.reserved@ = c0.push(Seq::<Cell>::empty().push((0usize, 0usize, w, h)));
            let a = self.glyph_textures@;
            let c = self.reserved@;
            assert forall|k: int| 0 <= k < a.len() implies #[trigger] atlas_size(a[k]) == (TEXTURE_SIZE, TEXTURE_SIZE)
                && cells_ok(a[k], c[k]) by {
                if k < t as int {
                    assert(a[k] == a0[k]);
                    assert(c[k] == c0[k]);
                }
            }
            assert(prior_cells(c0, t as int) == Seq::<Cell>::empty());
        }
        (t, 0, 0, true)
    }

    /// Records the rasterizer's outcome for a glyph that is not cached yet
    /// and returns the glyph's record, with where to copy its pixels.
    ///
    /// A renderable glyph whose cell (bitmap, padding and margin) is no wider
    /// than an atlas and strictly lower than one always gets a record: its
    /// cell goes where the packer of the first atlas with room puts it, or to
    /// the origin of a new atlas when none has room. A glyph that is not
    /// renderable (`image` is `None`), or whose cell is too large, is recorded
    /// as `None`, so that it is not rasterised again.
    pub fn store(&mut self, key: CacheKey, image: Option<GlyphImage>) -> (r: (Option<RenderedGlyph>, Option<Upload>))
        requires
            old(self).wf(),
            cached(old(self).entries(), key) is None,
        ensures
            final(self).wf(),
            forall|k: CacheKey| #[trigger] cached(final(self).entries(), k) == if k == key {
                Some(r.0)
            } else {
                cached(old(self).entries(), k)
            },
            !placeable(image) ==> r.0 is None && r.1 is None && final(self).atlases() == old(self).atlases()
                && final(self).cells() == old(self).cells(),
            placeable(image) ==> r.0 is Some && r.1 is Some && glyph_placed(
                old(self).atlases(),
                old(self).cells(),
                final(self).atlases(),
                final(self).cells(),
                image.unwrap(),
                r.0.unwrap(),
                r.1.unwrap(),
            ),
    {
        let border: u32 = GLYPH_MARGIN + GLYPH_PADDING;
        let (glyph, upload) = match image {
            None => (None, None),
            Some(im) => {
                if im.width as u64 + 2 * border as u64 > TEXTURE_SIZE as u64 || im.height as u64 + 2 * border as u64 >= TEXTURE_SIZE as u64 {
                    (None, None)
                } else {
                    let alloc_w = im.width + 2 * border;
                    let alloc_h = im.height + 2 * border;
                    let (t, x, y, fresh) = self.allocate(alloc_w as usize, alloc_h as usize);
                    let g = RenderedGlyph {
                        texture_index: t,
                        width: im.width + 2 * GLYPH_PADDING,
                        height: im.height + 2 * GLYPH_PADDING,
                        offset_x: im.left,
                        offset_y: im.top,
                        atlas_x: x as u32 + GLYPH_MARGIN,
                        atlas_y: y as u32 + GLYPH_MARGIN,
                        color_glyph: im.color,
                    };
                    let u = Upload {
                        texture_index: t,
                        x: x as u32 + GLYPH_MARGIN + GLYPH_PADDING,
                        y: y as u32 + GLYPH_MARGIN + GLYPH_PADDING,
                        new_texture: fresh,
                    };
                    (Some(g), Some(u))
                }
            },
        };
        proof {
            lemma_cached_push(self.rendered_glyphs@, key, glyph);
        }
        assert(self.wf());
        let ghost before = *self;
        self.rendered_glyphs.push((key, glyph));
        assert(keys_distinct(self.rendered_glyphs@));
        assert(self.glyph_textures@ == before.glyph_textures@);
        assert(self.reserved@ == before.reserved@);
        (glyph, upload)
    }

    /// Whether `key` still has to be rasterised: it was never stored.
    pub fn needs_raster(&self, key: &CacheKey) -> (r: bool)
        requires
            self.wf(),
        ensures
            r == (cached(self.entries(), *key) is None),
    {
        self.lookup(key).is_none()
    }

    /// The record for `key`: the cached one when `key` was stored before
    /// (then `image` is not looked at and nothing changes), else the outcome
    /// of storing `image`, the rasterizer's result for `key`.
    pub fn resolve(&mut self, key: CacheKey, image: Option<GlyphImage>) -> (r: (Option<RenderedGlyph>, Option<Upload>))
        requires
            old(self).wf(),
        ensures
            final(self).wf(),
            cached(old(self).entries(), key) matches Some(g) ==> r == (g, None::<Upload>) && final(self).entries()
                == old(self).entries() && final(self).atlases() == old(self).atlases() && final(self).cells()
                == old(self).cells(),
            cached(old(self).entries(), key) is None ==> {
                &&& forall|k: CacheKey| #[trigger] cached(final(self).entries(), k) == if k == key {
                    Some(r.0)
                } else {
                    cached(old(self).entries(), k)
                }
                &&& !placeable(image) ==> r.0 is None && r.1 is None && final(self).atlases() == old(self).atlases()
                &&& placeable(image) ==> r.0 is Some && r.1 is Some && glyph_placed(
                    old(self).atlases(),
                    old(self).cells(),
                    final(self).atlases(),
                    final(self).cells(),
                    image.unwrap(),
                    r.0.unwrap(),
                    r.1.unwrap(),
                )
            },
    {
        match self.lookup(&key) {
            Some(g) => (g, None),
            None => self.store(key, image),
        }
    }
}

/// The cells atlas `t` held before a cell went into it: none when `t` is a
/// new atlas.
pub open spec fn prior_cells(c: Seq<Seq<Cell>>, t: int) -> Seq<Cell> {
    if 0 <= t < c.len() {
        c[t]
    } else {
        Seq::empty()
    }
}

/// `t` is the first atlas of `a` whose packer has room for a `w` by `h`
/// cell, or `a.len()` when none has room.
pub open spec fn first_fit(a: Seq<femtovg::Atlas>, w: usize, h: usize, t: int) -> bool {
    &&& 0 <= t <= a.len()
    &&& forall|k: int| 0 <= k < t ==> #[trigger] atlas_place(a[k], w, h) is None
    &&& t < a.len() ==> atlas_place(a[t], w, h) is Some
}

/// Atlases `oa` with cells `oc` became `na` with `nc` once `cell` was
/// reserved in atlas `t`: the first whose packer has room, at the place it
/// chose, or the origin of a new atlas appended when none has room. The cell
/// lies within the atlas and shares no pixel with the cells reserved there
/// before; the other atlases and their cells are unchanged.
pub open spec fn cell_reserved(
    oa: Seq<femtovg::Atlas>,
    oc: Seq<Seq<Cell>>,
    na: Seq<femtovg::Atlas>,
    nc: Seq<Seq<Cell>>,
    t: int,
    cell: Cell,
) -> bool {
    &&& first_fit(oa, cell.2, cell.3, t)
    &&& t < oa.len() ==> atlas_place(oa[t], cell.2, cell.3) == Some((cell.0, cell.1))
    &&& t == oa.len() ==> cell.0 == 0 && cell.1 == 0
    &&& oc.len() == oa.len()
    &&& na.len() == if t == oa.len() { oa.len() + 1 } else { oa.len() }
    &&& nc.len() == na.len()
    &&& forall|k: int| 0 <= k < oa.len() && k != t ==> #[trigger] na[k] == oa[k] && nc[k] == oc[k]
    &&& cell.0 + cell.2 <= TEXTURE_SIZE && cell.1 + cell.3 <= TEXTURE_SIZE
    &&& nc[t] == prior_cells(oc, t).push(cell)
    &&& forall|i: int| 0 <= i < prior_cells(oc, t).len() ==> disjoint(#[trigger] prior_cells(oc, t)[i], cell)
}

/// The rasterizer produced a bitmap whose cell (bitmap, padding and margin)
/// is no wider than an atlas and strictly lower than one.
pub open spec fn placeable(image: Option<GlyphImage>) -> bool {
    image matches Some(im) && im.width + 2 * (GLYPH_MARGIN + GLYPH_PADDING) <= TEXTURE_SIZE
        && im.height + 2 * (GLYPH_MARGIN + GLYPH_PADDING) < TEXTURE_SIZE
}

/// The cell of a placed glyph: its padded bitmap and the margin around it.
pub open spec fn cell_of(im: GlyphImage, g: RenderedGlyph) -> Cell {
    (
        (g.atlas_x - GLYPH_MARGIN) as usize,
        (g.atlas_y - GLYPH_MARGIN) as usize,
        (im.width + 2 * (GLYPH_MARGIN + GLYPH_PADDING)) as usize,
        (im.height + 2 * (GLYPH_MARGIN + GLYPH_PADDING)) as usize,
    )
}

/// Glyph record `g` and upload `u` describe bitmap `im` placed into the
/// atlases `oa` (with cells `oc`), which became `na` (with cells `nc`).
pub open spec fn glyph_placed(
    oa: Seq<femtovg::Atlas>,
    oc: Seq<Seq<Cell>>,
    na: Seq<femtovg::Atlas>,
    nc: Seq<Seq<Cell>>,
    im: GlyphImage,
    g: RenderedGlyph,
    u: Upload,
) -> bool {
    &&& g.width == im.width + 2 * GLYPH_PADDING
    &&& g.height == im.height + 2 * GLYPH_PADDING
    &&& g.offset_x == im.left && g.offset_y == im.top
    &&& g.color_glyph == im.color
    &&& g.atlas_x >= GLYPH_MARGIN && g.atlas_y >= GLYPH_MARGIN
    &&& cell_reserved(oa, oc, na, nc, g.texture_index as int, cell_of(im, g))
    &&& u.texture_index == g.texture_index
    &&& u.x == g.atlas_x + GLYPH_PADDING && u.y == g.atlas_y + GLYPH_PADDING
    &&& u.new_texture == (g.texture_index == oa.len())
}

/// Two glyphs whose cells are each wider and higher than half an atlas,
/// stored one after the other into a cache without atlases, land in two
/// different atlas textures: the first in texture 0, the second in a new
/// texture 1.
pub proof fn lemma_large_glyphs_split(
    a0: Seq<femtovg::Atlas>,
    c0: Seq<Seq<Cell>>,
    a1: Seq<femtovg::Atlas>,
    c1: Seq<Seq<Cell>>,
    a2: Seq<femtovg::Atlas>,
    c2: Seq<Seq<Cell>>,
    im1: GlyphImage,
    g1: RenderedGlyph,
    u1: Upload,
    im2: GlyphImage,
    g2: RenderedGlyph,
    u2: Upload,
)
    requires
        a0.len() == 0,
        glyph_placed(a0, c0, a1, c1, im1, g1, u1),
        glyph_placed(a1, c1, a2, c2, im2, g2, u2),
        cell_of(im1, g1).2 + cell_of(im2, g2).2 > TEXTURE_SIZE,
        cell_of(im1, g1).3 + cell_of(im2, g2).3 > TEXTURE_SIZE,
    ensures
        g1.texture_index == 0,
        g2.texture_index == 1,
        u2.new_texture,
        a2.len() == 2,
{
    let k1 = cell_of(im1, g1);
    let k2 = cell_of(im2, g2);
    assert(g1.texture_index == 0);
    assert(c1[0] == Seq::<Cell>::empty().push(k1));
    if g2.texture_index == 0 {
        assert(prior_cells(c1, 0) == c1[0]);
        assert(prior_cells(c1, 0)[0] == k1);
        assert(disjoint(k1, k2));
    }
}

/// Once a glyph is stored, every later lookup of its key finds the same
/// record (so the rasterizer runs once per key): storing other keys leaves it.
pub proof fn lemma_store_keeps_others(
    before: Seq<(CacheKey, Option<RenderedGlyph>)>,
    after: Seq<(CacheKey, Option<RenderedGlyph>)>,
    stored: CacheKey,
    g: Option<RenderedGlyph>,
    key: CacheKey,
)
    requires
        forall|k: CacheKey| #[trigger] cached(after, k) == if k == stored {
            Some(g)
        } else {
            cached(before, k)
        },
        cached(before, stored) is None,
        cached(before, key) is Some,
    ensures
        cached(after, key) == cached(before, key),
{
    if key == stored {
        assert(cached(after, stored) == Some(g));
    }
    assert(cached(after, key) == if key == stored { Some(g) } else { cached(before, key) });
}

/// A glyph to draw: its cache key, its pen position in pixels (snapped) and
/// the vertical position of its line.
#[derive(Copy, Clone, Debug, PartialEq, Eq, Structural)]
pub struct PlacedGlyph {
    pub key: CacheKey,
    pub x: i32,
    pub y: i32,
    pub line_y: i32,
}

/// A textured rectangle: screen corners `(x0, y0)`, `(x1, y1)` and atlas
/// corners `(s0, t0)`, `(s1, t1)`, in pixels.
#[derive(Copy, Clone, Debug, PartialEq, Eq, Structural)]
pub struct Quad {
    pub x0: i64,
    pub y0: i64,
    pub x1: i64,
    pub y1: i64,
    pub s0: i64,
    pub t0: i64,
    pub s1: i64,
    pub t1: i64,
}

/// The quads drawn from one atlas texture.
pub struct DrawBatch {
    pub texture_index: usize,
    pub quads: Vec<Quad>,
}

/// The frame's text, batched per texture, masks and colour glyphs apart.
pub struct GlyphCommands {
    pub alpha_glyphs: Vec<DrawBatch>,
    pub color_glyphs: Vec<DrawBatch>,
}

/// The cached record of `g` when it is a colour glyph (`color`) or a mask
/// (`!color`); `None` for glyphs not cached or not renderable.
pub open spec fn selected(s: Seq<(CacheKey, Option<RenderedGlyph>)>, g: PlacedGlyph, color: bool) -> Option<RenderedGlyph> {
    match cached(s, g.key) {
        Some(Some(r)) => if r.color_glyph == color {
            Some(r)
        } else {
            None
        },
        _ => None,
    }
}

/// The screen quad of glyph `g` with record `r`.
pub open spec fn quad_of(g: PlacedGlyph, r: RenderedGlyph) -> Quad {
    let x0 = g.x + r.offset_x - GLYPH_PADDING;
    let y0 = g.y - r.offset_y - GLYPH_PADDING + g.line_y;
    Quad {
        x0: x0 as i64,
        y0: y0 as i64,
        x1: (x0 + r.width) as i64,
        y1: (y0 + r.height) as i64,
        s0: r.atlas_x as i64,
        t0: r.atlas_y as i64,
        s1: (r.atlas_x + r.width) as i64,
        t1: (r.atlas_y + r.height) as i64,
    }
}

/// The textures used by the glyphs of one kind, in order of first use.
pub open spec fn textures_of(s: Seq<(CacheKey, Option<RenderedGlyph>)>, gs: Seq<PlacedGlyph>, color: bool) -> Seq<usize>
    decreases gs.len(),
{
    if gs.len() == 0 {
        Seq::empty()
    } else {
        let prev = textures_of(s, gs.drop_last(), color);
        match selected(s, gs.last(), color) {
            Some(r) => if prev.contains(r.texture_index) {
                prev
            } else {
                prev.push(r.texture_index)
            },
            None => prev,
        }
    }
}

/// The quads of the glyphs of one kind drawn from texture `t`, in order.
pub open spec fn quads_for(s: Seq<(CacheKey, Option<RenderedGlyph>)>, gs: Seq<PlacedGlyph>, color: bool, t: usize) -> Seq<Quad>
    decreases gs.len(),
{
    if gs.len() == 0 {
        Seq::empty()
    } else {
        let prev = quads_for(s, gs.drop_last(), color, t);
        match selected(s, gs.last(), color) {
            Some(r) => if r.texture_index == t {
                prev.push(quad_of(gs.last(), r))
            } else {
                prev
            },
            None => prev,
        }
    }
}

/// `batches` holds, for each texture used by the glyphs of one kind, in
/// order of first use, the quads drawn from it.
pub open spec fn batched(s: Seq<(CacheKey, Option<RenderedGlyph>)>, gs: Seq<PlacedGlyph>, color: bool, batches: Seq<DrawBatch>) -> bool {
    &&& batches.len() == textures_of(s, gs, color).len()
    &&& forall|j: int| 0 <= j < batches.len() ==> (#[trigger] batches[j]).texture_index == textures_of(s, gs, color)[j]
        && batches[j].quads@ == quads_for(s, gs, color, textures_of(s, gs, color)[j])
}

proof fn lemma_textures_distinct(s: Seq<(CacheKey, Option<RenderedGlyph>)>, gs: Seq<PlacedGlyph>, color: bool)
    ensures
        textures_of(s, gs, color).no_duplicates(),
    decreases gs.len(),
{
    if gs.len() > 0 {
        lemma_textures_distinct(s, gs.drop_last(), color);
        let prev = textures_of(s, gs.drop_last(), color);
        match selected(s, gs.last(), color) {
            Some(r) => {
                if !prev.contains(r.texture_index) {
                    let n = prev.push(r.texture_index);
                    assert forall|a: int, b: int| 0 <= a < b < n.len() implies n[a] != n[b] by {
                        if b == prev.len() {
                            assert(n[a] == prev[a]);
                        }
                    }
                }
            },
            None => {},
        }
    }
}

proof fn lemma_quads_unused(s: Seq<(CacheKey, Option<RenderedGlyph>)>, gs: Seq<PlacedGlyph>, color: bool, t: usize)
    requires
        !textures_of(s, gs, color).contains(t),
    ensures
        quads_for(s, gs, color, t) == Seq::<Quad>::empty(),
    decreases gs.len(),
{
    if gs.len() > 0 {
        let prev = textures_of(s, gs.drop_last(), color);
        match selected(s, gs.last(), color) {
            Some(r) => {
                if prev.contains(r.texture_index) {
                    assert(r.texture_index != t);
                } else {
                    assert(prev.push(r.texture_index)[prev.len() as int] == r.texture_index);
                    assert(r.texture_index != t);
                    assert forall|i: int| 0 <= i < prev.len() implies prev[i] != t by {
                        assert(prev.push(r.texture_index)[i] == prev[i]);
                    }
                }
            },
            None => {},
        }
        lemma_quads_unused(s, gs.drop_last(), color, t);
    }
}

impl RenderCache {
    /// The batched draw commands for `glyphs`, from their cached records:
    /// one batch per atlas texture and kind, in order of first use, each
    /// holding the quads of its glyphs in order. Glyphs not cached, or not
    /// renderable, are skipped.
    pub fn fill_to_cmds(&self, glyphs: &Vec<PlacedGlyph>) -> (r: GlyphCommands)
        requires
            self.wf(),
        ensures
            batched(self.entries(), glyphs@, false, r.alpha_glyphs@),
            batched(self.entries(), glyphs@, true, r.color_glyphs@),
    {
        let ghost s = self.entries();
        let mut alpha: Vec<DrawBatch> = Vec::new();
        let mut color: Vec<DrawBatch> = Vec::new();
        let mut i: usize = 0;
        while i < glyphs.len()
            invariant
                s == self.entries(),
                self.wf(),
                i <= glyphs@.len(),
                batched(s, glyphs@.take(i as int), false, alpha@),
                batched(s, glyphs@.take(i as int), true, color@),
            decreases glyphs@.len() - i,
        {
            let g = glyphs[i];
            let ghost pre = glyphs@.take(i as int);
            let ghost post = glyphs@.take(i as int + 1);
            proof {
                assert(post.drop_last() == pre);
                assert(post.last() == g);
            }
            match self.lookup(&g.key) {
                Some(Some(rec)) => {
                    let q = Quad {
                        x0: g.x as i64 + rec.offset_x as i64 - GLYPH_PADDING as i64,
                        y0: g.y as i64 - rec.offset_y as i64 - GLYPH_PADDING as i64 + g.line_y as i64,
                        x1: g.x as i64 + rec.offset_x as i64 - GLYPH_PADDING as i64 + rec.width as i64,
                        y1: g.y as i64 - rec.offset_y as i64 - GLYPH_PADDING as i64 + g.line_y as i64 + rec.height as i64,
                        s0: rec.atlas_x as i64,
                        t0: rec.atlas_y as i64,
                        s1: rec.atlas_x as i64 + rec.width as i64,
                        t1: rec.atlas_y as i64 + rec.height as i64,
                    };
                    assert(q == quad_of(g, rec));
                    if rec.color_glyph {
                        add_quad(&mut color, Ghost(s), Ghost(pre), Ghost(post), true, rec, q);
                        proof {
                            lemma_other_kind(s, pre, post, false);
                        }
                    } else {
                        add_quad(&mut alpha, Ghost(s), Ghost(pre), Ghost(post), false, rec, q);
                        proof {
                            lemma_other_kind(s, pre, post, true);
                        }
                    }
                },
                _ => {
                    proof {
                        lemma_other_kind(s, pre, post, true);
                        lemma_other_kind(s, pre, post, false);
                    }
                },
            }
            i += 1;
        }
        proof {
            assert(glyphs@.take(glyphs@.len() as int) == glyphs@);
        }
        GlyphCommands { alpha_glyphs: alpha, color_glyphs: color }
    }
}

/// A glyph that is not of kind `color` changes no batch of that kind.
proof fn lemma_other_kind(s: Seq<(CacheKey, Option<RenderedGlyph>)>, pre: Seq<PlacedGlyph>, post: Seq<PlacedGlyph>, color: bool)
    requires
        post.len() == pre.len() + 1,
        post.drop_last() == pre,
        selected(s, post.last(), color) is None,
    ensures
        textures_of(s, post, color) == textures_of(s, pre, color),
        forall|t: usize| #[trigger] quads_for(s, post, color, t) == quads_for(s, pre, color, t),
{
}

fn add_quad(
    batches: &mut Vec<DrawBatch>,
    s: Ghost<Seq<(CacheKey, Option<RenderedGlyph>)>>,
    pre: Ghost<Seq<PlacedGlyph>>,
    post: Ghost<Seq<PlacedGlyph>>,
    color: bool,
    rec: RenderedGlyph,
    q: Quad,
)
    requires
        batched(s@, pre@, color, old(batches)@),
        post@.len() == pre@.len() + 1,
        post@.drop_last() == pre@,
        selected(s@, post@.last(), color) == Some(rec),
        q == quad_of(post@.last(), rec),
    ensures
        batched(s@, post@, color, final(batches)@),
{
    let ghost b0 = batches@;
    let ghost tp = textures_of(s@, pre@, color);
    proof {
        lemma_textures_distinct(s@, pre@, color);
    }
    let mut j: usize = 0;
    while j < batches.len()
        invariant
            batches@ == b0,
            batched(s@, pre@, color, b0),
            tp == textures_of(s@, pre@, color),
            tp.no_duplicates(),
            post@.len() == pre@.len() + 1,
            post@.drop_last() == pre@,
            selected(s@, post@.last(), color) == Some(rec),
            q == quad_of(post@.last(), rec),
            j <= b0.len(),
            forall|k: int| 0 <= k < j ==> b0[k].texture_index != rec.texture_index,
        decreases b0.len() - j,
    {
        if batches[j].texture_index == rec.texture_index {
            batches[j].quads.push(q);
            proof {
                let b = batches@;
                assert(tp[j as int] == rec.texture_index);
                assert(tp.contains(rec.texture_index));
                assert(post@.len() > 0);
                assert(textures_of(s@, post@, color) == (if tp.contains(rec.texture_index) {
                    tp
                } else {
                    tp.push(rec.texture_index)
                }));
                assert(textures_of(s@, post@, color) == tp);
                assert forall|k: int| 0 <= k < b.len() implies (#[trigger] b[k]).texture_index == textures_of(s@, post@, color)[k]
                    && b[k].quads@ == quads_for(s@, post@, color, textures_of(s@, post@, color)[k]) by {
                    if k != j as int {
                        assert(b[k] == b0[k]);
                        assert(tp[k] != tp[j as int]);
                    }
                }
            }
            return;
        }
        j += 1;
    }
    let mut quads: Vec<Quad> = Vec::new();
    quads.push(q);
    batches.push(DrawBatch { texture_index: rec.texture_index, quads });
    proof {
        let b = batches@;
        assert(!tp.contains(rec.texture_index)) by {
            if tp.contains(rec.texture_index) {
                let k = choose|k: int| 0 <= k < tp.len() && tp[k] == rec.texture_index;
                assert(b0[k].texture_index == tp[k]);
            }
        }
        let tn = textures_of(s@, post@, color);
        assert(post@.len() > 0);
        assert(tn == (if tp.contains(rec.texture_index) {
            tp
        } else {
            tp.push(rec.texture_index)
        }));
        assert(tn == tp.push(rec.texture_index));
        lemma_quads_unused(s@, pre@, color, rec.texture_index);
        assert forall|k: int| 0 <= k < b.len() implies (#[trigger] b[k]).texture_index == tn[k]
            && b[k].quads@ == quads_for(s@, post@, color, tn[k]) by {
            if k < b0.len() {
                assert(b[k] == b0[k]);
                assert(tn[k] == tp[k]);
                assert(tp[k] != rec.texture_index);
            } else {
                assert(b[k].quads@ =~= seq![q]);
                assert(Seq::<Quad>::empty().push(q) =~= seq![q]);
            }
        }
    }
}

} // verus!
