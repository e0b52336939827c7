use provinces::color::Rgb;
use provinces::definition::Kind;
use provinces::definition::Province;
use provinces::merge::CommonData;
use provinces::merge::Which;
use provinces::merge::get_common;
use provinces::merge::get_conflicting;
use provinces::merge::get_replacement;
use provinces::merge::get_replacement_map;
use provinces::merge::iter_defs_marked;
use provinces::merge::make_new_defs;
use provinces::merge::make_new_pixel;
use provinces::merge::make_new_provs;
use provinces::merge::replace_rgb;
use provinces::raster::Raster;
use provinces::raster::extract_colors;

const ATTEMPTS: usize = 1_000_000;

fn rgb(r: u8, g: u8, b: u8) -> Rgb {
    Rgb { r, g, b }
}

fn prov(id: usize, c: Rgb, kind: Kind) -> Province {
    Province {
        id,
        rgb: c,
        kind,
        coastal: false,
        terrain: "plains".to_string(),
        continent: 1,
    }
}

fn raster(width: usize, pixels: Vec<Rgb>) -> Raster {
    let height = pixels.len() / width;
    assert_eq!(width * height, pixels.len());
    Raster::from_pixels(width, height, pixels)
}

#[test]
fn conflicting_colors_are_the_shared_ones() {
    let a = vec![prov(1, rgb(1, 1, 1), Kind::Land), prov(2, rgb(2, 2, 2), Kind::Land)];
    let b = vec![prov(1, rgb(2, 2, 2), Kind::Ocean), prov(2, rgb(3, 3, 3), Kind::Land)];
    let confl = get_conflicting(&a, &b);
    assert_eq!(confl, vec![rgb(2, 2, 2)]);
}

#[test]
fn disjoint_sets_have_no_conflicts() {
    let a = vec![prov(1, rgb(1, 1, 1), Kind::Land)];
    let b = vec![prov(1, rgb(2, 2, 2), Kind::Ocean)];
    assert!(get_conflicting(&a, &b).is_empty());
}

#[test]
fn common_colors_exclude_background() {
    let p1 = raster(2, vec![rgb(1, 1, 1), rgb(0, 0, 0)]);
    let p2 = raster(2, vec![rgb(2, 2, 2), rgb(1, 1, 1)]);
    let all = get_common(&p1, &p2);
    assert_eq!(all.len(), 2);
    assert!(all.contains(&rgb(1, 1, 1)));
    assert!(all.contains(&rgb(2, 2, 2)));
    assert!(!all.contains(&rgb(0, 0, 0)));
}

#[test]
fn replacement_pool_is_disjoint_from_used_colors() {
    let a = vec![prov(1, rgb(1, 1, 1), Kind::Land), prov(2, rgb(9, 9, 9), Kind::Land)];
    let b = vec![prov(1, rgb(1, 1, 1), Kind::Ocean)];
    // (9,9,9) is defined but not on any canvas: a banked free color.
    let all = vec![rgb(1, 1, 1), rgb(2, 2, 2)];
    let pool = get_replacement(&a, &b, &all, 5, ATTEMPTS);
    assert!(pool.len() >= 5);
    assert!(pool.contains(&rgb(9, 9, 9)));
    for c in &pool {
        assert!(!all.contains(c));
        assert_ne!(*c, rgb(0, 0, 0));
    }
    // no duplicates
    for i in 0..pool.len() {
        for j in (i + 1)..pool.len() {
            assert_ne!(pool[i], pool[j]);
        }
    }
}

#[test]
fn replacement_map_covers_every_conflict_with_fresh_colors() {
    let a = vec![prov(1, rgb(1, 1, 1), Kind::Land), prov(2, rgb(2, 2, 2), Kind::Land)];
    let b = vec![prov(1, rgb(1, 1, 1), Kind::Ocean), prov(2, rgb(2, 2, 2), Kind::Ocean)];
    let all = vec![rgb(1, 1, 1), rgb(2, 2, 2)];
    let map = get_replacement_map(&a, &b, &all, ATTEMPTS).expect("pool fills");
    assert_eq!(map.entries.len(), 2);
    let keys: Vec<Rgb> = map.entries.iter().map(|e| e.0).collect();
    assert!(keys.contains(&rgb(1, 1, 1)));
    assert!(keys.contains(&rgb(2, 2, 2)));
    assert_ne!(map.entries[0].2, map.entries[1].2);
    for e in &map.entries {
        assert!(!all.contains(&e.2));
        assert_ne!(e.2, rgb(0, 0, 0));
    }
}

#[test]
fn replace_rgb_only_touches_the_mapped_side() {
    let a = vec![prov(1, rgb(1, 1, 1), Kind::Land)];
    let b = vec![prov(1, rgb(1, 1, 1), Kind::Ocean)];
    let all = vec![rgb(1, 1, 1)];
    let map = get_replacement_map(&a, &b, &all, ATTEMPTS).expect("pool fills");
    assert_eq!(map.entries.len(), 1);
    let (key, side, fresh) = map.entries[0];
    assert_eq!(key, rgb(1, 1, 1));
    assert_ne!(fresh, rgb(1, 1, 1));

    let mut on_side = key;
    replace_rgb(&mut on_side, side, &map);
    assert_eq!(on_side, fresh);

    let other = match side {
        Which::Map1 => Which::Map2,
        Which::Map2 => Which::Map1,
    };
    let mut off_side = key;
    replace_rgb(&mut off_side, other, &map);
    assert_eq!(off_side, key);

    let mut unrelated = rgb(7, 7, 7);
    replace_rgb(&mut unrelated, side, &map);
    assert_eq!(unrelated, rgb(7, 7, 7));
}

#[test]
fn pixel_merge_is_left_biased() {
    let common = CommonData {
        all_colors: vec![rgb(1, 1, 1), rgb(2, 2, 2)],
        replacement: provinces::merge::Replacement { entries: Vec::new() },
    };
    assert_eq!(make_new_pixel(rgb(1, 1, 1), rgb(2, 2, 2), &common), rgb(1, 1, 1));
    assert_eq!(make_new_pixel(rgb(0, 0, 0), rgb(2, 2, 2), &common), rgb(2, 2, 2));
    assert_eq!(make_new_pixel(rgb(1, 1, 1), rgb(0, 0, 0), &common), rgb(1, 1, 1));
    assert_eq!(make_new_pixel(rgb(0, 0, 0), rgb(0, 0, 0), &common), rgb(0, 0, 0));
}

#[test]
fn marked_defs_keep_order_and_sides() {
    let a = vec![prov(1, rgb(1, 1, 1), Kind::Land)];
    let b = vec![prov(2, rgb(2, 2, 2), Kind::Ocean), prov(3, rgb(3, 3, 3), Kind::Lake)];
    let marked = iter_defs_marked(a, b);
    assert_eq!(marked.len(), 3);
    assert_eq!(marked[0].1, Which::Map1);
    assert_eq!(marked[0].0.id, 1);
    assert_eq!(marked[1].1, Which::Map2);
    assert_eq!(marked[1].0.id, 2);
    assert_eq!(marked[2].1, Which::Map2);
    assert_eq!(marked[2].0.id, 3);
}

#[test]
fn disjoint_merge_keeps_every_original_color() {
    let a = vec![prov(1, rgb(1, 1, 1), Kind::Land)];
    let b = vec![prov(1, rgb(2, 2, 2), Kind::Ocean)];
    let ra = raster(2, vec![rgb(1, 1, 1), rgb(0, 0, 0)]);
    let rb = raster(2, vec![rgb(0, 0, 0), rgb(2, 2, 2)]);
    let all = get_common(&ra, &rb);
    let map = get_replacement_map(&a, &b, &all, ATTEMPTS).expect("no conflicts: trivial");
    assert!(map.entries.is_empty());
    let common = CommonData { all_colors: all, replacement: map };

    let merged = make_new_defs(a, b, &common);
    assert_eq!(merged.len(), 3);
    assert_eq!(merged[0], Province::initial());
    assert_eq!(merged[1].rgb, rgb(1, 1, 1));
    assert_eq!(merged[1].kind, Kind::Land);
    assert_eq!(merged[2].rgb, rgb(2, 2, 2));
    assert_eq!(merged[2].kind, Kind::Ocean);
    for (i, d) in merged.iter().enumerate() {
        assert_eq!(d.id, i);
    }

    let out = make_new_provs(&ra, &rb, &common);
    assert_eq!(out.pixels, vec![rgb(1, 1, 1), rgb(2, 2, 2)]);
}

#[test]
fn merge_drops_unknown_and_footprintless_records() {
    let a = vec![
        prov(1, rgb(1, 1, 1), Kind::Unknown),
        prov(2, rgb(2, 2, 2), Kind::Land),
        prov(3, rgb(7, 7, 7), Kind::Land), // no pixel anywhere
    ];
    let b: Vec<Province> = Vec::new();
    let ra = raster(1, vec![rgb(2, 2, 2)]);
    let rb = raster(1, vec![rgb(0, 0, 0)]);
    let all = get_common(&ra, &rb);
    let map = get_replacement_map(&a, &b, &all, ATTEMPTS).unwrap();
    let common = CommonData { all_colors: all, replacement: map };
    let merged = make_new_defs(a, b, &common);
    assert_eq!(merged.len(), 2);
    assert_eq!(merged[0], Province::initial());
    assert_eq!(merged[1].rgb, rgb(2, 2, 2));
}

// The worked two-by-one example: a shared color between the two maps is
// detected, one side's occurrence is renamed to a fresh color, the pixel
// merge is left-biased, and the output is ordered and renumbered.
#[test]
fn two_by_one_collision_scenario() {
    let c10 = rgb(10, 10, 10);
    let c20 = rgb(20, 20, 20);
    let black = rgb(0, 0, 0);

    let defs_a = vec![prov(1, c10, Kind::Land)];
    let defs_b = vec![prov(1, c10, Kind::Ocean), prov(2, c20, Kind::Land)];
    let ra = raster(2, vec![c10, black]);
    let rb = raster(2, vec![c10, c20]);

    let confl = get_conflicting(&defs_a, &defs_b);
    assert_eq!(confl, vec![c10]);

    let all = get_common(&ra, &rb);
    let map = get_replacement_map(&defs_a, &defs_b, &all, ATTEMPTS).expect("pool fills");
    assert_eq!(map.entries.len(), 1);
    let (key, side, fresh) = map.entries[0];
    assert_eq!(key, c10);
    assert!(!all.contains(&fresh));
    assert_ne!(fresh, black);

    let common = CommonData { all_colors: all, replacement: map };

    // Raster: position 0 resolves from side A's occurrence (left-biased),
    // mapped through the replacement; position 1 from side B's unchanged.
    let merged = make_new_provs(&ra, &rb, &common);
    let expected0 = if side == Which::Map1 { fresh } else { c10 };
    assert_eq!(merged.pixels, vec![expected0, c20]);

    // Definitions: placeholder first, ordered Land before Ocean, ids
    // sequential, and the one shared color split into two distinct colors.
    let out = make_new_defs(defs_a, defs_b, &common);
    assert_eq!(out.len(), 4);
    assert_eq!(out[0], Province::initial());
    for (i, d) in out.iter().enumerate() {
        assert_eq!(d.id, i);
    }
    let ranks: Vec<u8> = out.iter().map(|d| d.kind.rank()).collect();
    for w in ranks.windows(2) {
        assert!(w[0] <= w[1]);
    }
    // side A's Land record and side B's Ocean record both carried (10,10,10);
    // afterwards exactly one of them carries the fresh color.
    let a_color = out.iter().find(|d| d.kind == Kind::Land && d.rgb != c20 && d.rgb != black).unwrap().rgb;
    let b_color = out.iter().find(|d| d.kind == Kind::Ocean).unwrap().rgb;
    assert_ne!(a_color, b_color);
    if side == Which::Map1 {
        assert_eq!(a_color, fresh);
        assert_eq!(b_color, c10);
    } else {
        assert_eq!(a_color, c10);
        assert_eq!(b_color, fresh);
    }
}

#[test]
fn extract_colors_skips_black_and_white() {
    let img = raster(5, vec![rgb(1, 1, 1), rgb(0, 0, 0), rgb(255, 255, 255), rgb(1, 1, 1), rgb(3, 3, 3)]);
    let colors = extract_colors(&img);
    assert_eq!(colors, vec![rgb(1, 1, 1), rgb(3, 3, 3)]);
}

#[test]
fn deterministic_sweep_fills_the_pool_without_randomness() {
    let a: Vec<Province> = Vec::new();
    let b: Vec<Province> = Vec::new();
    // the sweep skips black and every used color, then banks free colors
    // in its fixed order
    let all = vec![rgb(0, 0, 1)];
    let pool = get_replacement(&a, &b, &all, 3, 0);
    assert_eq!(pool, vec![rgb(0, 0, 2), rgb(0, 0, 3), rgb(0, 0, 4)]);
}

#[test]
fn replacement_map_succeeds_without_random_draws() {
    let a = vec![prov(1, rgb(1, 1, 1), Kind::Land)];
    let b = vec![prov(1, rgb(1, 1, 1), Kind::Ocean)];
    let all = vec![rgb(1, 1, 1)];
    let map = get_replacement_map(&a, &b, &all, 0).expect("the sweep supplies the pool");
    assert_eq!(map.entries.len(), 1);
    assert_eq!(map.entries[0].0, rgb(1, 1, 1));
    assert_eq!(map.entries[0].2, rgb(0, 0, 1));
}
