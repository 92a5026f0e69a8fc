use mangui::glyph::{CacheKey, GlyphImage, PlacedGlyph, Quad, RenderCache, Upload, TEXTURE_SIZE};
use mangui::invalidator::Invalidator;
use mangui::store::Writable;

fn key(glyph_id: u16) -> CacheKey {
    CacheKey { font_id: 1, font_size_bits: 16f32.to_bits(), glyph_id, x_bin: 0, y_bin: 0, flags: 0 }
}

fn image(w: u32, h: u32, color: bool) -> Option<GlyphImage> {
    Some(GlyphImage { width: w, height: h, left: 2, top: 9, color })
}

#[test]
fn same_key_is_rasterised_once() {
    let mut cache = RenderCache::new();
    let mut rasterised = 0;
    let mut results = Vec::new();
    for _ in 0..2 {
        let rec = match cache.lookup(&key(7)) {
            Some(r) => r,
            None => {
                rasterised += 1;
                cache.store(key(7), image(10, 12, false)).0
            },
        };
        results.push(rec);
    }
    assert_eq!(rasterised, 1);
    assert_eq!(results[0], results[1]);
    let g = results[0].unwrap();
    assert_eq!((g.texture_index, g.atlas_x, g.atlas_y), (0, 1, 1));
    assert_eq!((g.width, g.height, g.offset_x, g.offset_y), (12, 14, 2, 9));
}

#[test]
fn first_glyph_creates_texture_and_upload() {
    let mut cache = RenderCache::new();
    let (g, u) = cache.store(key(1), image(10, 10, true));
    assert_eq!(u, Some(Upload { texture_index: 0, x: 2, y: 2, new_texture: true }));
    assert!(g.unwrap().color_glyph);
    assert_eq!(cache.texture_count(), 1);
    let (_, u2) = cache.store(key(2), image(10, 10, false));
    assert!(!u2.unwrap().new_texture);
    assert_eq!(cache.texture_count(), 1);
}

#[test]
fn large_glyphs_spill_into_second_atlas() {
    let mut cache = RenderCache::new();
    let (a, _) = cache.store(key(1), image(300, 300, false));
    let (b, ub) = cache.store(key(2), image(300, 300, false));
    assert_eq!(a.unwrap().texture_index, 0);
    assert_eq!(b.unwrap().texture_index, 1);
    assert!(ub.unwrap().new_texture);
    assert_eq!(cache.texture_count(), 2);
}

#[test]
fn unrenderable_and_oversized_are_cached_as_none() {
    let mut cache = RenderCache::new();
    assert_eq!(cache.store(key(1), None), (None, None));
    assert_eq!(cache.lookup(&key(1)), Some(None));
    assert_eq!(cache.store(key(2), image(TEXTURE_SIZE as u32, 4, false)), (None, None));
    assert_eq!(cache.lookup(&key(2)), Some(None));
    assert_eq!(cache.texture_count(), 0);
    assert_eq!(cache.lookup(&key(3)), None);
}

#[test]
fn draw_commands_batch_by_texture_and_kind() {
    let mut cache = RenderCache::new();
    cache.store(key(1), image(300, 300, false));
    cache.store(key(2), image(300, 300, false));
    cache.store(key(3), image(4, 4, true));
    cache.store(key(4), None);
    let at = |k: u16, x: i32| PlacedGlyph { key: key(k), x, y: 20, line_y: 5 };
    let glyphs = vec![at(2, 0), at(1, 10), at(3, 20), at(2, 30), at(4, 40), at(9, 50)];
    let cmds = cache.fill_to_cmds(&glyphs);
    assert_eq!(cmds.alpha_glyphs.len(), 2);
    assert_eq!(cmds.alpha_glyphs[0].texture_index, 1);
    assert_eq!(cmds.alpha_glyphs[0].quads.len(), 2);
    assert_eq!(cmds.alpha_glyphs[1].texture_index, 0);
    assert_eq!(cmds.alpha_glyphs[1].quads.len(), 1);
    assert_eq!(cmds.color_glyphs.len(), 1);
    let q = cmds.color_glyphs[0].quads[0];
    let r = cache.lookup(&key(3)).unwrap().unwrap();
    let x0 = 20 + 2 - 1;
    let y0 = 20 - 9 - 1 + 5;
    assert_eq!(
        q,
        Quad {
            x0,
            y0,
            x1: x0 + 6,
            y1: y0 + 6,
            s0: r.atlas_x as i64,
            t0: r.atlas_y as i64,
            s1: r.atlas_x as i64 + 6,
            t1: r.atlas_y as i64 + 6,
        }
    );
}

#[test]
fn invalidator_tracks_writes() {
    let mut v = Invalidator::new(3u32);
    assert!(!v.invalidated());
    assert_eq!(*v.get(), 3);
    *v.get_mut() += 1;
    assert!(v.invalidated());
    assert_eq!(*v.get(), 4);
    v.reset();
    assert!(!v.invalidated());
    v.set(9);
    assert!(v.invalidated() && *v.get() == 9);
}

#[test]
fn writable_notifies_subscribers_in_order() {
    let mut w = Writable::new(String::from("a"));
    let s0 = w.subscribe();
    let s1 = w.subscribe();
    let s2 = w.subscribe();
    w.unsubscribe(s1);
    assert_eq!(w.set(String::from("b")), vec![s0, s2]);
    assert_eq!(w.get(), "b");
    w.unsubscribe(s1);
    assert_eq!(w.set(String::from("c")), vec![s0, s2]);
}

#[test]
fn largest_glyph_cell() {
    let mut cache = RenderCache::new();
    let (g, u) = cache.store(key(1), image(507, 507, false));
    let g = g.unwrap();
    assert_eq!((g.texture_index, g.atlas_x, g.atlas_y, g.width), (0, 1, 1, 509));
    assert_eq!(u.unwrap().x, 2);
    let (h, _) = cache.store(key(2), image(509, 10, false));
    assert_eq!(h, None);
    assert_eq!(cache.texture_count(), 1);
}

#[test]
fn small_glyph_goes_to_first_atlas_with_room() {
    let mut cache = RenderCache::new();
    cache.store(key(1), image(300, 300, false));
    cache.store(key(2), image(300, 300, false));
    let (g, u) = cache.store(key(3), image(10, 10, false));
    assert_eq!(g.unwrap().texture_index, 0);
    assert!(!u.unwrap().new_texture);
    assert_eq!(cache.texture_count(), 2);
}

#[test]
fn resolve_rasterises_each_key_once() {
    let mut cache = RenderCache::new();
    let mut calls = 0;
    let mut records = Vec::new();
    for _ in 0..3 {
        let raster = if cache.needs_raster(&key(5)) {
            calls += 1;
            image(8, 8, false)
        } else {
            None
        };
        let (g, u) = cache.resolve(key(5), raster);
        if records.is_empty() {
            assert!(u.is_some());
        } else {
            assert!(u.is_none());
        }
        records.push(g);
    }
    assert_eq!(calls, 1);
    assert!(records[0].is_some());
    assert!(records.iter().all(|r| *r == records[0]));
    assert_eq!(cache.texture_count(), 1);
}

#[test]
fn cells_in_one_atlas_do_not_overlap() {
    let mut cache = RenderCache::new();
    let mut cells = Vec::new();
    for k in 0..40u16 {
        let (g, _) = cache.store(key(k), image(20 + (k as u32 % 7) * 9, 15 + (k as u32 % 5) * 11, false));
        let g = g.unwrap();
        cells.push((g.texture_index, g.atlas_x - 1, g.atlas_y - 1, g.width + 2, g.height + 2));
    }
    for (i, a) in cells.iter().enumerate() {
        assert!(a.1 + a.3 <= 512 && a.2 + a.4 <= 512);
        for b in cells.iter().skip(i + 1) {
            if a.0 == b.0 {
                assert!(a.1 + a.3 <= b.1 || b.1 + b.3 <= a.1 || a.2 + a.4 <= b.2 || b.2 + b.4 <= a.2);
            }
        }
    }
}
