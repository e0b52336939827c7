//! The merge engine: detecting colors that two maps both use, synthesizing
//! fresh replacement colors, building the frozen replacement mapping, and
//! rewriting the definition table and the raster consistently against it.

use vstd::prelude::*;
use vstd::arithmetic::div_mod::lemma_fundamental_div_mod_converse_div;
use vstd::arithmetic::div_mod::lemma_fundamental_div_mod_converse_mod;
use crate::color::contains_color;
use crate::color::distinct_colors;
use crate::color::insert_color;
use crate::color::Rgb;
use crate::definition::Kind;
use crate::definition::ProvData;
use crate::definition::Province;
use crate::definition::views_of;
use crate::raster::Raster;
use crate::reindex::finalize_defs;
use crate::reindex::lemma_reindexed_color_count;
use crate::reindex::reindexed;
use crate::validate::color_count;

verus! {

/// Which of the two input maps a color or record came from.
#[derive(Debug, Clone, Copy, PartialEq, Eq, Structural)]
pub enum Which {
    Map1,
    Map2,
}

/// The opposite origin side.
pub open spec fn other_side(w: Which) -> Which {
    match w {
        Which::Map1 => Which::Map2,
        Which::Map2 => Which::Map1,
    }
}

/// The frozen replacement mapping: each entry sends one original color, on
/// one origin side, to its fresh replacement. Built once per merge, then
/// only read.
pub struct Replacement {
    pub entries: Vec<(Rgb, Which, Rgb)>,
}

/// The replacement for color `c` of side `w`, if one was assigned.
pub open spec fn lookup(entries: Seq<(Rgb, Which, Rgb)>, c: Rgb, w: Which) -> Option<Rgb>
    decreases entries.len(),
{
    if entries.len() == 0 {
        None
    } else if entries[0].0 == c && entries[0].1 == w {
        Some(entries[0].2)
    } else {
        lookup(entries.skip(1), c, w)
    }
}

/// The color a pixel or record of color `c` from side `w` ends up with.
pub open spec fn replaced(entries: Seq<(Rgb, Which, Rgb)>, c: Rgb, w: Which) -> Rgb {
    match lookup(entries, c, w) {
        Some(n) => n,
        None => c,
    }
}

/// The read-only state the two rewrite tasks share: every color either
/// raster uses, and the frozen replacement mapping.
pub struct CommonData {
    pub all_colors: Vec<Rgb>,
    pub replacement: Replacement,
}

/// Some record among the first `n` carries color `c`.
pub open spec fn has_color_upto(ds: Seq<ProvData>, c: Rgb, n: int) -> bool {
    exists|i: int| 0 <= i < n && (#[trigger] ds[i]).rgb == c
}

/// Some record of the set carries color `c`.
pub open spec fn has_color(ds: Seq<ProvData>, c: Rgb) -> bool {
    has_color_upto(ds, c, ds.len() as int)
}

/// Scanning one more record sees its color and nothing else new.
proof fn lemma_has_color_upto_step(ds: Seq<ProvData>, c: Rgb, n: int)
    requires
        0 <= n < ds.len(),
    ensures
        has_color_upto(ds, c, n + 1) <==> (has_color_upto(ds, c, n) || ds[n].rgb == c),
{
    if has_color_upto(ds, c, n + 1) {
        let i = choose|i: int| 0 <= i < n + 1 && (#[trigger] ds[i]).rgb == c;
        if i < n {
            assert(has_color_upto(ds, c, n));
        }
    }
    if has_color_upto(ds, c, n) {
        let i = choose|i: int| 0 <= i < n && (#[trigger] ds[i]).rgb == c;
        assert(0 <= i < n + 1 && ds[i].rgb == c);
    }
    if ds[n].rgb == c {
        assert(0 <= n < n + 1 && ds[n].rgb == c);
    }
}

/// Some pixel among the first `n` has color `c`.
pub open spec fn pix_upto(ps: Seq<Rgb>, c: Rgb, n: int) -> bool {
    exists|i: int| 0 <= i < n && #[trigger] ps[i] == c
}

proof fn lemma_pix_upto_step(ps: Seq<Rgb>, c: Rgb, n: int)
    requires
        0 <= n < ps.len(),
    ensures
        pix_upto(ps, c, n + 1) <==> (pix_upto(ps, c, n) || ps[n] == c),
{
    if pix_upto(ps, c, n + 1) {
        let i = choose|i: int| 0 <= i < n + 1 && #[trigger] ps[i] == c;
        if i < n {
            assert(pix_upto(ps, c, n));
        }
    }
    if pix_upto(ps, c, n) {
        let i = choose|i: int| 0 <= i < n && #[trigger] ps[i] == c;
        assert(0 <= i < n + 1 && ps[i] == c);
    }
}

proof fn lemma_pix_upto_full(ps: Seq<Rgb>, c: Rgb)
    ensures
        pix_upto(ps, c, ps.len() as int) <==> ps.contains(c),
{
    if pix_upto(ps, c, ps.len() as int) {
        let i = choose|i: int| 0 <= i < ps.len() && #[trigger] ps[i] == c;
        assert(ps.contains(c));
    }
    if ps.contains(c) {
        let i = choose|i: int| 0 <= i < ps.len() && ps[i] == c;
        assert(0 <= i < ps.len() && ps[i] == c);
    }
}

/// Some entry of the mapping is keyed by color `c`.
pub open spec fn has_entry_for(entries: Seq<(Rgb, Which, Rgb)>, c: Rgb) -> bool {
    exists|k: int| 0 <= k < entries.len() && (#[trigger] entries[k]).0 == c
}

/// Color `c` appears in records of both sides.
pub open spec fn conflicting_color(ds1: Seq<ProvData>, ds2: Seq<ProvData>, c: Rgb) -> bool {
    has_color(ds1, c) && has_color(ds2, c)
}

/// Whether any record of the set carries color `c`.
pub fn defs_contain_color(defs: &[Province], c: Rgb) -> (r: bool)
    ensures
        r == has_color(views_of(defs@), c),
{
    let ghost ds = views_of(defs@);
    let mut i: usize = 0;
    while i < defs.len()
        invariant
            i <= defs@.len(),
            ds == views_of(defs@),
            !has_color_upto(ds, c, i as int),
        decreases defs.len() - i,
    {
        proof {
            lemma_has_color_upto_step(ds, c, i as int);
        }
        if defs[i].rgb == c {
            proof {
                assert(ds[i as int].rgb == c);
            }
            return true;
        }
        i = i + 1;
    }
    false
}

/// The set of colors used by records on both sides: the conflict set of a
/// merge, each color listed once.
pub fn get_conflicting(defs1: &[Province], defs2: &[Province]) -> (out: Vec<Rgb>)
    ensures
        distinct_colors(out@),
        forall|c: Rgb| #[trigger] out@.contains(c)
            <==> conflicting_color(views_of(defs1@), views_of(defs2@), c),
{
    let ghost ds1 = views_of(defs1@);
    let ghost ds2 = views_of(defs2@);
    let mut out: Vec<Rgb> = Vec::new();
    let mut i: usize = 0;
    while i < defs1.len()
        invariant
            i <= defs1@.len(),
            ds1 == views_of(defs1@),
            ds2 == views_of(defs2@),
            distinct_colors(out@),
            forall|c: Rgb| #[trigger] out@.contains(c)
                <==> (has_color_upto(ds1, c, i as int) && has_color(ds2, c)),
        decreases defs1.len() - i,
    {
        let c = defs1[i].rgb;
        proof {
            assert(ds1[i as int].rgb == c);
        }
        let ghost before = out@;
        if defs_contain_color(defs2, c) {
            insert_color(&mut out, c);
        }
        proof {
            assert forall|x: Rgb| out@.contains(x)
                implies (has_color_upto(ds1, x, i + 1) && has_color(ds2, x)) by {
                lemma_has_color_upto_step(ds1, x, i as int);
                if before.contains(x) {
                    assert(has_color_upto(ds1, x, i as int) && has_color(ds2, x));
                } else {
                    assert(x == c);
                    assert(ds1[i as int].rgb == x);
                }
            }
            assert forall|x: Rgb| (has_color_upto(ds1, x, i + 1) && has_color(ds2, x))
                implies out@.contains(x) by {
                lemma_has_color_upto_step(ds1, x, i as int);
                if has_color_upto(ds1, x, i as int) {
                    assert(before.contains(x));
                } else {
                    assert(ds1[i as int].rgb == x);
                    assert(x == c);
                }
            }
        }
        i = i + 1;
    }
    out
}

/// Folds every non-background color of `pixels` into `out`, keeping it
/// duplicate-free.
fn add_colors(out: &mut Vec<Rgb>, pixels: &Vec<Rgb>)
    requires
        distinct_colors(old(out)@),
    ensures
        distinct_colors(final(out)@),
        forall|c: Rgb| #[trigger] final(out)@.contains(c)
            <==> (old(out)@.contains(c)
                || (pixels@.contains(c) && c != Rgb::black_spec())),
{
    let ghost base = out@;
    let mut i: usize = 0;
    while i < pixels.len()
        invariant
            i <= pixels@.len(),
            distinct_colors(out@),
            forall|c: Rgb| #[trigger] out@.contains(c)
                <==> (base.contains(c)
                    || (pix_upto(pixels@, c, i as int) && c != Rgb::black_spec())),
        decreases pixels.len() - i,
    {
        let c = pixels[i];
        let ghost before = out@;
        if !(c == Rgb::black()) {
            insert_color(out, c);
        }
        proof {
            assert forall|x: Rgb| out@.contains(x)
                implies (base.contains(x)
                    || (pix_upto(pixels@, x, i + 1) && x != Rgb::black_spec())) by {
                lemma_pix_upto_step(pixels@, x, i as int);
                if before.contains(x) {
                } else {
                    assert(x == c);
                    assert(pixels@[i as int] == x);
                }
            }
            assert forall|x: Rgb| (base.contains(x)
                    || (pix_upto(pixels@, x, i + 1) && x != Rgb::black_spec()))
                implies out@.contains(x) by {
                lemma_pix_upto_step(pixels@, x, i as int);
                if base.contains(x) {
                    assert(before.contains(x));
                } else if pix_upto(pixels@, x, i as int) {
                    assert(before.contains(x));
                } else {
                    assert(pixels@[i as int] == x);
                    assert(x == c);
                }
            }
        }
        i = i + 1;
    }
    proof {
        assert forall|c: Rgb| out@.contains(c)
            implies (base.contains(c)
                || (pixels@.contains(c) && c != Rgb::black_spec())) by {
            lemma_pix_upto_full(pixels@, c);
        }
        assert forall|c: Rgb| (base.contains(c)
                || (pixels@.contains(c) && c != Rgb::black_spec()))
            implies out@.contains(c) by {
            lemma_pix_upto_full(pixels@, c);
        }
    }
}

/// Every color either raster uses, black left out: the authoritative
/// used-color set of a merge.
pub fn get_common(prov1: &Raster, prov2: &Raster) -> (out: Vec<Rgb>)
    ensures
        distinct_colors(out@),
        forall|c: Rgb| #[trigger] out@.contains(c)
            <==> ((prov1.pixels@.contains(c) || prov2.pixels@.contains(c))
                && c != Rgb::black_spec()),
{
    let mut out: Vec<Rgb> = Vec::new();
    add_colors(&mut out, &prov1.pixels);
    add_colors(&mut out, &prov2.pixels);
    out
}

/// Relies on `rand::random` for `[u8; 3]`: three uniformly drawn bytes.
/// Nothing is promised of the value; every caller must test it.
#[verifier::external_body]
fn draw_random_color() -> (c: Rgb) {
    let v: [u8; 3] = rand::random();
    Rgb { r: v[0], g: v[1], b: v[2] }
}

/// Relies on `rand::random` for `bool`: a uniformly drawn boolean.
/// Nothing is promised of the value.
#[verifier::external_body]
fn draw_random_bool() -> (b: bool) {
    rand::random()
}

/// A uniformly drawn origin side.
fn random_side() -> (w: Which) {
    if draw_random_bool() {
        Which::Map1
    } else {
        Which::Map2
    }
}

/// Folds into `out` every definition color that the rasters do not use,
/// background black left out.
fn seed_free_colors(out: &mut Vec<Rgb>, defs: &[Province], all_colors: &Vec<Rgb>)
    requires
        distinct_colors(old(out)@),
    ensures
        distinct_colors(final(out)@),
        forall|c: Rgb| #[trigger] final(out)@.contains(c)
            <==> (old(out)@.contains(c)
                || (has_color(views_of(defs@), c) && !all_colors@.contains(c)
                    && c != Rgb::black_spec())),
{
    let ghost ds = views_of(defs@);
    let ghost base = out@;
    let mut i: usize = 0;
    while i < defs.len()
        invariant
            i <= defs@.len(),
            ds == views_of(defs@),
            distinct_colors(out@),
            forall|c: Rgb| #[trigger] out@.contains(c)
                <==> (base.contains(c)
                    || (has_color_upto(ds, c, i as int) && !all_colors@.contains(c)
                        && c != Rgb::black_spec())),
        decreases defs.len() - i,
    {
        let c = defs[i].rgb;
        proof {
            assert(ds[i as int].rgb == c);
        }
        let ghost before = out@;
        let used = contains_color(all_colors, c);
        if !used && !(c == Rgb::black()) {
            insert_color(out, c);
        }
        proof {
            assert forall|x: Rgb| out@.contains(x)
                implies (base.contains(x)
                    || (has_color_upto(ds, x, i + 1) && !all_colors@.contains(x)
                        && x != Rgb::black_spec())) by {
                lemma_has_color_upto_step(ds, x, i as int);
                if before.contains(x) {
                } else {
                    assert(x == c);
                    assert(ds[i as int].rgb == x);
                }
            }
            assert forall|x: Rgb| (base.contains(x)
                    || (has_color_upto(ds, x, i + 1) && !all_colors@.contains(x)
                        && x != Rgb::black_spec()))
                implies out@.contains(x) by {
                lemma_has_color_upto_step(ds, x, i as int);
                if base.contains(x) {
                    assert(before.contains(x));
                } else if has_color_upto(ds, x, i as int) && !all_colors@.contains(x)
                    && x != Rgb::black_spec() {
                    assert(before.contains(x));
                } else {
                    assert(ds[i as int].rgb == x);
                    assert(x == c);
                }
            }
        }
        i = i + 1;
    }
}

/// The position of a color in the deterministic sweep order.
pub open spec fn color_index(c: Rgb) -> int {
    c.r * 65536 + c.g * 256 + c.b
}

/// The color at one sweep position.
pub open spec fn color_at(n: int) -> Rgb {
    Rgb { r: (n / 65536) as u8, g: ((n / 256) % 256) as u8, b: (n % 256) as u8 }
}

/// The sweep order enumerates every color exactly where its index says.
proof fn lemma_color_at_index(c: Rgb)
    ensures
        0 <= color_index(c) < 16777216,
        color_at(color_index(c)) == c,
{
    let n = color_index(c);
    assert((c.r * 256 + c.g) * 256 == c.r * 65536 + c.g * 256) by (nonlinear_arith);
    lemma_fundamental_div_mod_converse_div(n, 65536, c.r as int, c.g * 256 + c.b);
    lemma_fundamental_div_mod_converse_div(n, 256, c.r * 256 + c.g, c.b as int);
    lemma_fundamental_div_mod_converse_mod(n, 256, c.r * 256 + c.g, c.b as int);
    lemma_fundamental_div_mod_converse_mod(n / 256, 256, c.r as int, c.g as int);
}

/// The color at one sweep position.
fn sweep_color(n: u32) -> (c: Rgb)
    requires
        n < 16777216,
    ensures
        c == color_at(n as int),
{
    let r = (n / 65536) as u8;
    let g = ((n / 256) % 256) as u8;
    let b = (n % 256) as u8;
    Rgb { r, g, b }
}

/// Deterministic fallback source: sweeps the color space in a fixed order,
/// banking every free color, until the pool reaches `target` or no free
/// color remains outside it. With it the pool reaches `target` whenever
/// that many free colors exist at all.
fn sweep_free_colors(out: &mut Vec<Rgb>, all_colors: &Vec<Rgb>, target: usize)
    requires
        distinct_colors(old(out)@),
        forall|c: Rgb| #[trigger] old(out)@.contains(c)
            ==> !all_colors@.contains(c) && c != Rgb::black_spec(),
    ensures
        distinct_colors(final(out)@),
        forall|c: Rgb| old(out)@.contains(c) ==> #[trigger] final(out)@.contains(c),
        forall|c: Rgb| #[trigger] final(out)@.contains(c)
            ==> !all_colors@.contains(c) && c != Rgb::black_spec(),
        final(out)@.len() >= target
            || forall|c: Rgb| (!all_colors@.contains(c) && c != Rgb::black_spec())
                ==> #[trigger] final(out)@.contains(c),
{
    let ghost base = out@;
    let mut n: u32 = 0;
    while n < 16777216 && out.len() < target
        invariant
            n <= 16777216,
            distinct_colors(out@),
            forall|c: Rgb| base.contains(c) ==> #[trigger] out@.contains(c),
            forall|c: Rgb| #[trigger] out@.contains(c)
                ==> !all_colors@.contains(c) && c != Rgb::black_spec(),
            forall|m: int| 0 <= m < n
                && !all_colors@.contains(#[trigger] color_at(m))
                && color_at(m) != Rgb::black_spec()
                ==> out@.contains(color_at(m)),
        decreases 16777216 - n,
    {
        let c = sweep_color(n);
        let used = contains_color(all_colors, c);
        let ghost before = out@;
        if !used && !(c == Rgb::black()) {
            insert_color(out, c);
        }
        proof {
            assert forall|m: int| 0 <= m < n + 1
                && !all_colors@.contains(#[trigger] color_at(m))
                && color_at(m) != Rgb::black_spec()
                implies out@.contains(color_at(m)) by {
                if m < n {
                    assert(before.contains(color_at(m)));
                } else {
                    assert(color_at(m) == c);
                }
            }
        }
        n = n + 1;
    }
    if out.len() < target {
        proof {
            assert forall|c: Rgb| (!all_colors@.contains(c) && c != Rgb::black_spec())
                implies out@.contains(c) by {
                lemma_color_at_index(c);
            }
        }
    }
}

/// A pool of colors disjoint from `all_colors` and from the background:
/// first every definition color that no raster uses (already-banked free
/// colors), then random draws, up to `attempts` of them, and finally a
/// deterministic sweep of the color space, until the pool holds `target`
/// colors. The pool reaches `target` whenever that many free colors exist;
/// short of that it holds every free color there is.
pub fn get_replacement(
    defs1: &[Province],
    defs2: &[Province],
    all_colors: &Vec<Rgb>,
    target: usize,
    attempts: usize,
) -> (out: Vec<Rgb>)
    ensures
        distinct_colors(out@),
        forall|c: Rgb| #[trigger] out@.contains(c)
            ==> !all_colors@.contains(c) && c != Rgb::black_spec(),
        forall|c: Rgb| ((has_color(views_of(defs1@), c) || has_color(views_of(defs2@), c))
            && !all_colors@.contains(c) && c != Rgb::black_spec())
            ==> #[trigger] out@.contains(c),
        out@.len() >= target
            || forall|c: Rgb| (!all_colors@.contains(c) && c != Rgb::black_spec())
                ==> #[trigger] out@.contains(c),
{
    let ghost ds1 = views_of(defs1@);
    let ghost ds2 = views_of(defs2@);
    let mut out: Vec<Rgb> = Vec::new();
    seed_free_colors(&mut out, defs1, all_colors);
    seed_free_colors(&mut out, defs2, all_colors);
    let ghost seeded = out@;
    let mut tries: usize = 0;
    while tries < attempts && out.len() < target
        invariant
            distinct_colors(out@),
            forall|c: Rgb| seeded.contains(c) ==> #[trigger] out@.contains(c),
            forall|c: Rgb| #[trigger] out@.contains(c)
                ==> !all_colors@.contains(c) && c != Rgb::black_spec(),
        decreases attempts - tries,
    {
        let c = draw_random_color();
        let used = contains_color(all_colors, c);
        if !used && !(c == Rgb::black()) {
            insert_color(&mut out, c);
        }
        tries = tries + 1;
    }
    let ghost drawn = out@;
    sweep_free_colors(&mut out, all_colors, target);
    proof {
        assert forall|c: Rgb| seeded.contains(c) implies #[trigger] out@.contains(c) by {
            assert(drawn.contains(c));
        }
    }
    out
}

/// Builds the frozen replacement mapping: one entry per conflicting color,
/// keyed by the color and a randomly drawn origin side (the side whose
/// occurrence gets renamed; the other side keeps the color), each sent to a
/// distinct fresh pool color. Returns nothing when the random draws could
/// not fill the pool within `attempts`.
pub fn get_replacement_map(
    defs1: &[Province],
    defs2: &[Province],
    all_colors: &Vec<Rgb>,
    attempts: usize,
) -> (r: Option<Replacement>)
    ensures
        r is Some ==> forall|k: int| 0 <= k < (r->0).entries@.len()
            ==> conflicting_color(views_of(defs1@), views_of(defs2@),
                (#[trigger] (r->0).entries@[k]).0),
        r is Some ==> forall|c: Rgb| conflicting_color(views_of(defs1@), views_of(defs2@), c)
            ==> #[trigger] has_entry_for((r->0).entries@, c),
        r is Some ==> forall|k: int, l: int| 0 <= k < l < (r->0).entries@.len()
            ==> (#[trigger] (r->0).entries@[k]).0 != (#[trigger] (r->0).entries@[l]).0,
        r is Some ==> forall|k: int, l: int| 0 <= k < l < (r->0).entries@.len()
            ==> (#[trigger] (r->0).entries@[k]).2 != (#[trigger] (r->0).entries@[l]).2,
        r is Some ==> forall|k: int| 0 <= k < (r->0).entries@.len()
            ==> !all_colors@.contains((#[trigger] (r->0).entries@[k]).2)
                && (r->0).entries@[k].2 != Rgb::black_spec(),
        r is None ==> exists|c: Rgb| conflicting_color(views_of(defs1@), views_of(defs2@), c),
{
    let ghost ds1 = views_of(defs1@);
    let ghost ds2 = views_of(defs2@);
    let confl = get_conflicting(defs1, defs2);
    let pool = get_replacement(defs1, defs2, all_colors, confl.len(), attempts);
    if pool.len() < confl.len() {
        proof {
            assert(confl@.len() > 0);
            assert(confl@.contains(confl@[0]));
        }
        return None;
    }
    let mut entries: Vec<(Rgb, Which, Rgb)> = Vec::new();
    let mut k: usize = 0;
    while k < confl.len()
        invariant
            k <= confl@.len(),
            confl@.len() <= pool@.len(),
            distinct_colors(confl@),
            distinct_colors(pool@),
            forall|c: Rgb| #[trigger] confl@.contains(c) <==> conflicting_color(ds1, ds2, c),
            forall|c: Rgb| #[trigger] pool@.contains(c)
                ==> !all_colors@.contains(c) && c != Rgb::black_spec(),
            ds1 == views_of(defs1@),
            ds2 == views_of(defs2@),
            entries@.len() == k,
            forall|j: int| 0 <= j < k ==> (#[trigger] entries@[j]).0 == confl@[j],
            forall|j: int| 0 <= j < k ==> (#[trigger] entries@[j]).2 == pool@[j],
        decreases confl.len() - k,
    {
        let side = random_side();
        entries.push((confl[k], side, pool[k]));
        k = k + 1;
    }
    let result = Replacement { entries };
    proof {
        let es = result.entries@;
        assert forall|j: int| 0 <= j < es.len()
            implies conflicting_color(ds1, ds2, (#[trigger] es[j]).0)
                && !all_colors@.contains(es[j].2)
                && es[j].2 != Rgb::black_spec() by {
            assert(confl@.contains(confl@[j]));
            assert(pool@.contains(pool@[j]));
        }
        assert forall|c: Rgb| conflicting_color(ds1, ds2, c)
            implies #[trigger] has_entry_for(es, c) by {
            assert(confl@.contains(c));
            let j = choose|j: int| 0 <= j < confl@.len() && confl@[j] == c;
            assert(0 <= j < es.len() && es[j].0 == c);
        }
        assert forall|k2: int, l: int| 0 <= k2 < l < es.len()
            implies (#[trigger] es[k2]).0 != (#[trigger] es[l]).0 by {
            assert(es[k2].0 == confl@[k2]);
            assert(es[l].0 == confl@[l]);
            assert(confl@[k2] != confl@[l]);
        }
        assert forall|k2: int, l: int| 0 <= k2 < l < es.len()
            implies (#[trigger] es[k2]).2 != (#[trigger] es[l]).2 by {
            assert(es[k2].2 == pool@[k2]);
            assert(es[l].2 == pool@[l]);
            assert(pool@[k2] != pool@[l]);
        }
    }
    Some(result)
}

/// The replacement assigned to color `c` of side `w`, if any.
pub fn get_replacement_color(m: &Replacement, c: Rgb, w: Which) -> (r: Option<Rgb>)
    ensures
        r == lookup(m.entries@, c, w),
{
    let ghost es = m.entries@;
    proof {
        assert(es.skip(0) =~= es);
    }
    let mut i: usize = 0;
    while i < m.entries.len()
        invariant
            i <= es.len(),
            es == m.entries@,
            lookup(es, c, w) == lookup(es.skip(i as int), c, w),
        decreases m.entries.len() - i,
    {
        let e = m.entries[i];
        proof {
            assert(es.skip(i as int)[0] == es[i as int]);
            assert(es.skip(i as int).skip(1) =~= es.skip(i + 1));
        }
        if e.0 == c && e.1 == w {
            return Some(e.2);
        }
        i = i + 1;
    }
    proof {
        assert(es.skip(es.len() as int) =~= Seq::<(Rgb, Which, Rgb)>::empty());
    }
    None
}

/// Rewrites the color in place: a color with an assigned replacement for
/// this side takes it; any other color stays.
pub fn replace_rgb(rgb: &mut Rgb, which: Which, replacement: &Replacement)
    ensures
        *final(rgb) == replaced(replacement.entries@, *old(rgb), which),
{
    match get_replacement_color(replacement, *rgb, which) {
        Some(n) => {
            *rgb = n;
        },
        None => {},
    }
}

/// The merged value of one coordinate: side A's rewritten color when A is
/// not background, else side B's rewritten color when B is not background,
/// else background. The left bias is deliberate policy.
pub open spec fn merged_pixel(entries: Seq<(Rgb, Which, Rgb)>, p1: Rgb, p2: Rgb) -> Rgb {
    if p1 != Rgb::black_spec() {
        replaced(entries, p1, Which::Map1)
    } else if p2 != Rgb::black_spec() {
        replaced(entries, p2, Which::Map2)
    } else {
        Rgb::black_spec()
    }
}

/// Merges one coordinate's two pixels under the frozen mapping.
pub fn make_new_pixel(pixel1: Rgb, pixel2: Rgb, common: &CommonData) -> (out: Rgb)
    ensures
        out == merged_pixel(common.replacement.entries@, pixel1, pixel2),
{
    if !(pixel1 == Rgb::black()) {
        let mut c = pixel1;
        replace_rgb(&mut c, Which::Map1, &common.replacement);
        c
    } else if !(pixel2 == Rgb::black()) {
        let mut c = pixel2;
        replace_rgb(&mut c, Which::Map2, &common.replacement);
        c
    } else {
        Rgb::black()
    }
}

/// Both definition sets, each record marked with its origin side, side A
/// first.
pub open spec fn marked_views(ds1: Seq<ProvData>, ds2: Seq<ProvData>) -> Seq<(ProvData, Which)> {
    ds1.map_values(|d: ProvData| (d, Which::Map1))
        + ds2.map_values(|d: ProvData| (d, Which::Map2))
}

/// A record survives the merge when it is a real province and its color has
/// a visual footprint in one of the rasters.
pub open spec fn keep_def(all: Seq<Rgb>, d: ProvData) -> bool {
    d.kind != Kind::Unknown && all.contains(d.rgb)
}

/// The record with its color rewritten for its origin side.
pub open spec fn rewrite_def(entries: Seq<(Rgb, Which, Rgb)>, d: ProvData, w: Which) -> ProvData {
    ProvData { rgb: replaced(entries, d.rgb, w), ..d }
}

/// The surviving records of the marked input, in input order, colors
/// rewritten.
pub open spec fn merge_survivors(
    ms: Seq<(ProvData, Which)>,
    all: Seq<Rgb>,
    entries: Seq<(Rgb, Which, Rgb)>,
) -> Seq<ProvData>
    decreases ms.len(),
{
    if ms.len() == 0 {
        Seq::empty()
    } else {
        let p = merge_survivors(ms.drop_last(), all, entries);
        if keep_def(all, ms.last().0) {
            p.push(rewrite_def(entries, ms.last().0, ms.last().1))
        } else {
            p
        }
    }
}

/// Both definition sets in one list, each record paired with its origin
/// side, side A's records first.
pub fn iter_defs_marked(defs1: Vec<Province>, defs2: Vec<Province>) -> (out: Vec<(Province, Which)>)
    ensures
        out@.map_values(|e: (Province, Which)| (e.0@, e.1))
            == marked_views(views_of(defs1@), views_of(defs2@)),
{
    let ghost ds1 = views_of(defs1@);
    let ghost ds2 = views_of(defs2@);
    let ghost target = marked_views(ds1, ds2);
    let mut out: Vec<(Province, Which)> = Vec::new();
    let mut rest1 = defs1;
    let ghost orig1 = rest1@;
    let mut j: usize = 0;
    let n1: usize = rest1.len();
    while rest1.len() > 0
        invariant
            j <= orig1.len(),
            orig1.len() == n1,
            rest1@ == orig1.skip(j as int),
            out@.len() == j,
            forall|i: int| 0 <= i < j
                ==> (#[trigger] out@[i]).0@ == orig1[i]@ && out@[i].1 == Which::Map1,
        decreases rest1.len(),
    {
        let p = rest1.remove(0);
        proof {
            assert(orig1.skip(j as int)[0] == orig1[j as int]);
            assert(rest1@ =~= orig1.skip(j + 1));
        }
        out.push((p, Which::Map1));
        j = j + 1;
    }
    let mut rest2 = defs2;
    let ghost orig2 = rest2@;
    let mut k: usize = 0;
    let n2: usize = rest2.len();
    while rest2.len() > 0
        invariant
            k <= orig2.len(),
            orig2.len() == n2,
            rest2@ == orig2.skip(k as int),
            out@.len() == n1 + k,
            forall|i: int| 0 <= i < n1
                ==> (#[trigger] out@[i]).0@ == orig1[i]@ && out@[i].1 == Which::Map1,
            forall|i: int| 0 <= i < k
                ==> (#[trigger] out@[n1 + i]).0@ == orig2[i]@
                    && out@[n1 + i].1 == Which::Map2,
        decreases rest2.len(),
    {
        let p = rest2.remove(0);
        proof {
            assert(orig2.skip(k as int)[0] == orig2[k as int]);
            assert(rest2@ =~= orig2.skip(k + 1));
        }
        out.push((p, Which::Map2));
        k = k + 1;
    }
    proof {
        let mapped = out@.map_values(|e: (Province, Which)| (e.0@, e.1));
        assert(ds1.len() == n1 && ds2.len() == n2);
        assert forall|i: int| 0 <= i < mapped.len()
            implies mapped[i] == target[i] by {
            assert(mapped[i] == (out@[i].0@, out@[i].1));
            if i < n1 {
                assert(out@[i].0@ == orig1[i]@);
                assert(ds1[i] == orig1[i]@);
                assert(target[i] == (ds1[i], Which::Map1));
            } else {
                let t = i - n1;
                assert(out@[n1 + t].0@ == orig2[t]@ && out@[n1 + t].1 == Which::Map2);
                assert(n1 + t == i);
                assert(ds2[t] == orig2[t]@);
                assert(target[i] == (ds2[t], Which::Map2));
            }
        }
        assert(mapped =~= target);
    }
    out
}

/// Builds the merged definition set: both sides' records, authoring noise
/// (`Unknown`) dropped, records without a visual footprint dropped, colors
/// rewritten per origin side, then the shared final ordering and
/// renumbering applied.
pub fn make_new_defs(defs1: Vec<Province>, defs2: Vec<Province>, common: &CommonData) -> (out: Vec<Province>)
    ensures
        views_of(out@) == reindexed(merge_survivors(
            marked_views(views_of(defs1@), views_of(defs2@)),
            common.all_colors@,
            common.replacement.entries@,
        )),
{
    let ghost ds1 = views_of(defs1@);
    let ghost ds2 = views_of(defs2@);
    let ghost all = common.all_colors@;
    let ghost entries = common.replacement.entries@;
    let marked = iter_defs_marked(defs1, defs2);
    let ghost ms = marked@.map_values(|e: (Province, Which)| (e.0@, e.1));
    let mut survivors: Vec<Province> = Vec::new();
    let mut rest = marked;
    let ghost orig = rest@;
    let mut j: usize = 0;
    let n0: usize = rest.len();
    proof {
        assert(ms.take(0) =~= Seq::<(ProvData, Which)>::empty());
        assert(views_of(survivors@) =~= merge_survivors(ms.take(0), all, entries));
    }
    while rest.len() > 0
        invariant
            j <= orig.len(),
            orig.len() == n0,
            rest@ == orig.skip(j as int),
            ms == orig.map_values(|e: (Province, Which)| (e.0@, e.1)),
            all == common.all_colors@,
            entries == common.replacement.entries@,
            views_of(survivors@) == merge_survivors(ms.take(j as int), all, entries),
        decreases rest.len(),
    {
        let (mut p, side) = rest.remove(0);
        proof {
            assert(orig.skip(j as int)[0] == orig[j as int]);
            assert(rest@ =~= orig.skip(j + 1));
            assert(ms[j as int] == (orig[j as int].0@, orig[j as int].1));
            assert(ms.take(j + 1).drop_last() =~= ms.take(j as int));
            assert(ms.take(j + 1).last() == ms[j as int]);
        }
        let ghost p0 = p@;
        let is_unknown = p.kind == Kind::Unknown;
        let footprint = contains_color(&common.all_colors, p.rgb);
        if !is_unknown && footprint {
            replace_rgb(&mut p.rgb, side, &common.replacement);
            proof {
                assert(p@ == rewrite_def(entries, p0, side));
                assert(views_of(survivors@.push(p)) =~= views_of(survivors@).push(p@));
            }
            survivors.push(p);
        }
        j = j + 1;
    }
    proof {
        assert(ms.take(j as int) =~= ms);
    }
    finalize_defs(survivors)
}

/// Builds the merged raster: every coordinate resolved by the left-biased
/// pixel policy under the frozen mapping.
pub fn make_new_provs(provs1: &Raster, provs2: &Raster, common: &CommonData) -> (out: Raster)
    requires
        provs1.wf(),
        provs2.wf(),
        provs1.width == provs2.width,
        provs1.height == provs2.height,
    ensures
        out.wf(),
        out.width == provs1.width,
        out.height == provs1.height,
        out.pixels@.len() == provs1.pixels@.len(),
        forall|i: int| 0 <= i < out.pixels@.len()
            ==> out.pixels@[i] == merged_pixel(common.replacement.entries@,
                provs1.pixels@[i], provs2.pixels@[i]),
{
    let mut pixels: Vec<Rgb> = Vec::new();
    let n = provs1.pixels.len();
    let mut i: usize = 0;
    while i < n
        invariant
            i <= n,
            n == provs1.pixels@.len(),
            provs2.pixels@.len() == n,
            pixels@.len() == i,
            forall|k: int| 0 <= k < i
                ==> pixels@[k] == merged_pixel(common.replacement.entries@,
                    provs1.pixels@[k], provs2.pixels@[k]),
        decreases n - i,
    {
        let px = make_new_pixel(provs1.pixels[i], provs2.pixels[i], common);
        pixels.push(px);
        i = i + 1;
    }
    Raster { width: provs1.width, height: provs1.height, pixels }
}

/// Disjoint inputs produce an empty conflict set, hence an empty mapping:
/// no entry's key color can lie on both sides.
pub proof fn lemma_disjoint_no_entries(
    ds1: Seq<ProvData>,
    ds2: Seq<ProvData>,
    entries: Seq<(Rgb, Which, Rgb)>,
)
    requires
        forall|c: Rgb| !conflicting_color(ds1, ds2, c),
        forall|k: int| 0 <= k < entries.len()
            ==> conflicting_color(ds1, ds2, (#[trigger] entries[k]).0),
    ensures
        entries.len() == 0,
{
    if entries.len() > 0 {
        assert(conflicting_color(ds1, ds2, entries[0].0));
    }
}

/// Under an empty mapping every color is carried through unchanged: a merge
/// of disjoint inputs keeps every surviving record as it was (the
/// subsequent renumbering touches ids only).
pub proof fn lemma_empty_mapping_keeps_colors(
    ms: Seq<(ProvData, Which)>,
    all: Seq<Rgb>,
    entries: Seq<(Rgb, Which, Rgb)>,
)
    requires
        entries.len() == 0,
    ensures
        forall|c: Rgb, w: Which| replaced(entries, c, w) == c,
        forall|d: ProvData, w: Which| rewrite_def(entries, d, w) == d,
        merge_survivors(ms, all, entries)
            == ms.filter(|e: (ProvData, Which)| keep_def(all, e.0))
                .map_values(|e: (ProvData, Which)| e.0),
    decreases ms.len(),
{
    reveal(Seq::filter);
    assert forall|c: Rgb, w: Which| replaced(entries, c, w) == c by {
        assert(lookup(entries, c, w) is None);
    }
    assert forall|d: ProvData, w: Which| rewrite_def(entries, d, w) == d by {
        assert(lookup(entries, d.rgb, w) is None);
    }
    if ms.len() == 0 {
        assert(merge_survivors(ms, all, entries)
            =~= ms.filter(|e: (ProvData, Which)| keep_def(all, e.0))
                .map_values(|e: (ProvData, Which)| e.0));
    } else {
        lemma_empty_mapping_keeps_colors(ms.drop_last(), all, entries);
        assert(merge_survivors(ms, all, entries)
            =~= ms.filter(|e: (ProvData, Which)| keep_def(all, e.0))
                .map_values(|e: (ProvData, Which)| e.0));
    }
}

/// No entry carries key color `c`: the lookup finds nothing on either side.
pub proof fn lemma_lookup_no_match(entries: Seq<(Rgb, Which, Rgb)>, c: Rgb, w: Which)
    requires
        forall|i: int| 0 <= i < entries.len() ==> (#[trigger] entries[i]).0 != c,
    ensures
        lookup(entries, c, w) is None,
    decreases entries.len(),
{
    if entries.len() > 0 {
        assert(entries[0].0 != c);
        assert forall|i: int| 0 <= i < entries.skip(1).len()
            implies (#[trigger] entries.skip(1)[i]).0 != c by {
            assert(entries.skip(1)[i] == entries[i + 1]);
        }
        lemma_lookup_no_match(entries.skip(1), c, w);
    }
}

/// The first entry whose key matches decides the lookup; with pairwise
/// distinct key colors, an entry's rule applies exactly on its own side.
pub proof fn lemma_lookup_unique(entries: Seq<(Rgb, Which, Rgb)>, k: int)
    requires
        0 <= k < entries.len(),
        forall|i: int, j: int| 0 <= i < j < entries.len()
            ==> (#[trigger] entries[i]).0 != (#[trigger] entries[j]).0,
    ensures
        lookup(entries, entries[k].0, entries[k].1) == Some(entries[k].2),
        lookup(entries, entries[k].0, other_side(entries[k].1)) is None,
    decreases entries.len(),
{
    let c = entries[k].0;
    let w = entries[k].1;
    assert(other_side(w) != w);
    if k == 0 {
        assert(lookup(entries, c, w) == Some(entries[0].2));
        assert(entries[0].1 != other_side(w));
        assert(lookup(entries, c, other_side(w))
            == lookup(entries.skip(1), c, other_side(w)));
        assert forall|i: int| 0 <= i < entries.skip(1).len()
            implies (#[trigger] entries.skip(1)[i]).0 != c by {
            assert(entries.skip(1)[i] == entries[i + 1]);
        }
        lemma_lookup_no_match(entries.skip(1), c, other_side(w));
    } else {
        assert(entries[0].0 != c);
        assert forall|i: int, j: int| 0 <= i < j < entries.skip(1).len()
            implies (#[trigger] entries.skip(1)[i]).0
                != (#[trigger] entries.skip(1)[j]).0 by {
            assert(entries.skip(1)[i] == entries[i + 1]);
            assert(entries.skip(1)[j] == entries[j + 1]);
        }
        assert(entries.skip(1)[k - 1] == entries[k]);
        lemma_lookup_unique(entries.skip(1), k - 1);
        assert(lookup(entries, c, w) == lookup(entries.skip(1), c, w));
        assert(lookup(entries, c, other_side(w))
            == lookup(entries.skip(1), c, other_side(w)));
    }
}

/// The collision resolution of one conflicting color: the drawn side's
/// occurrences take the fresh color, the other side keeps the original, and
/// the two resulting colors differ.
pub proof fn lemma_collision_resolved(entries: Seq<(Rgb, Which, Rgb)>, all: Seq<Rgb>, k: int)
    requires
        0 <= k < entries.len(),
        forall|i: int, j: int| 0 <= i < j < entries.len()
            ==> (#[trigger] entries[i]).0 != (#[trigger] entries[j]).0,
        forall|i: int| 0 <= i < entries.len()
            ==> !all.contains((#[trigger] entries[i]).2),
        all.contains(entries[k].0),
    ensures
        replaced(entries, entries[k].0, entries[k].1) == entries[k].2,
        replaced(entries, entries[k].0, entries[k].1) != entries[k].0,
        replaced(entries, entries[k].0, other_side(entries[k].1)) == entries[k].0,
        entries[k].1 == Which::Map1 && entries[k].0 != Rgb::black_spec()
            ==> forall|p2: Rgb| merged_pixel(entries, entries[k].0, p2) == entries[k].2,
        entries[k].1 == Which::Map2 && entries[k].0 != Rgb::black_spec()
            ==> merged_pixel(entries, Rgb::black_spec(), entries[k].0) == entries[k].2,
        // two records that shared the color end up with two distinct colors
        forall|d: ProvData| (#[trigger] d.rgb) == entries[k].0
            ==> rewrite_def(entries, d, entries[k].1).rgb == entries[k].2
                && rewrite_def(entries, d, other_side(entries[k].1)).rgb == entries[k].0
                && rewrite_def(entries, d, entries[k].1).rgb
                    != rewrite_def(entries, d, other_side(entries[k].1)).rgb,
{
    lemma_lookup_unique(entries, k);
    assert(!all.contains(entries[k].2));
}

/// How many marked records of color `c` from side `w` survive the category
/// and footprint checks.
pub open spec fn kept_count(ms: Seq<(ProvData, Which)>, all: Seq<Rgb>, c: Rgb, w: Which) -> nat
    decreases ms.len(),
{
    if ms.len() == 0 {
        0
    } else {
        (kept_count(ms.drop_last(), all, c, w)
            + (if ms.last().0.rgb == c && ms.last().1 == w && keep_def(all, ms.last().0) {
                1 as nat
            } else {
                0
            })) as nat
    }
}

/// A successful lookup names one of the mapping's own entries.
pub proof fn lemma_lookup_member(entries: Seq<(Rgb, Which, Rgb)>, c: Rgb, w: Which)
    requires
        lookup(entries, c, w) is Some,
    ensures
        exists|l: int| 0 <= l < entries.len()
            && #[trigger] entries[l] == (c, w, lookup(entries, c, w)->0),
    decreases entries.len(),
{
    if entries[0].0 == c && entries[0].1 == w {
        assert(entries[0] == (c, w, lookup(entries, c, w)->0));
    } else {
        lemma_lookup_member(entries.skip(1), c, w);
        let l = choose|l: int| 0 <= l < entries.skip(1).len()
            && #[trigger] entries.skip(1)[l] == (c, w, lookup(entries.skip(1), c, w)->0);
        assert(entries.skip(1)[l] == entries[l + 1]);
        assert(entries[l + 1] == (c, w, lookup(entries, c, w)->0));
    }
}

/// Counting the collision split among the surviving records: the fresh color
/// appears exactly as often as the renamed side's surviving occurrences of
/// the original color, and the original color exactly as often as the other
/// side's.
pub proof fn lemma_collision_record_counts(
    ms: Seq<(ProvData, Which)>,
    all: Seq<Rgb>,
    entries: Seq<(Rgb, Which, Rgb)>,
    k: int,
)
    requires
        0 <= k < entries.len(),
        forall|i: int, j: int| 0 <= i < j < entries.len()
            ==> (#[trigger] entries[i]).0 != (#[trigger] entries[j]).0,
        forall|i: int, j: int| 0 <= i < j < entries.len()
            ==> (#[trigger] entries[i]).2 != (#[trigger] entries[j]).2,
        forall|i: int| 0 <= i < entries.len() ==> !all.contains((#[trigger] entries[i]).2),
        all.contains(entries[k].0),
    ensures
        color_count(merge_survivors(ms, all, entries), entries[k].2)
            == kept_count(ms, all, entries[k].0, entries[k].1),
        color_count(merge_survivors(ms, all, entries), entries[k].0)
            == kept_count(ms, all, entries[k].0, other_side(entries[k].1)),
    decreases ms.len(),
{
    let c = entries[k].0;
    let w = entries[k].1;
    let f = entries[k].2;
    lemma_lookup_unique(entries, k);
    assert(f != c);
    if ms.len() == 0 {
        assert(color_count(Seq::<ProvData>::empty(), f) == 0);
        assert(color_count(Seq::<ProvData>::empty(), c) == 0);
    } else {
        lemma_collision_record_counts(ms.drop_last(), all, entries, k);
        let d = ms.last().0;
        let side = ms.last().1;
        let prev = merge_survivors(ms.drop_last(), all, entries);
        if keep_def(all, d) {
            let x = rewrite_def(entries, d, side);
            let rc = replaced(entries, d.rgb, side);
            assert(x.rgb == rc);
            assert(merge_survivors(ms, all, entries) == prev.push(x));
            assert(prev.push(x).drop_last() =~= prev);
            assert(prev.push(x).last() == x);
            assert(side == w || side == other_side(w));
            if d.rgb == c {
                if side == w {
                    assert(rc == f);
                } else {
                    assert(rc == c);
                }
            } else {
                if lookup(entries, d.rgb, side) is Some {
                    lemma_lookup_member(entries, d.rgb, side);
                    let l = choose|l: int| 0 <= l < entries.len()
                        && #[trigger] entries[l]
                            == (d.rgb, side, lookup(entries, d.rgb, side)->0);
                    assert(entries[l].0 == d.rgb);
                    assert(l != k);
                    assert(entries[l].2 != f) by {
                        if l < k {
                            assert(entries[l].2 != entries[k].2);
                        } else {
                            assert(entries[k].2 != entries[l].2);
                        }
                    }
                    assert(!all.contains(entries[l].2));
                    assert(rc == entries[l].2);
                    assert(rc != c);
                } else {
                    assert(rc == d.rgb);
                    assert(all.contains(d.rgb));
                    assert(rc != f);
                    assert(rc != c);
                }
            }
        }
    }
}

/// The collision property at the definition-set level: with one surviving
/// occurrence of the conflicting color on each side, the merged output set
/// holds exactly one record with the fresh color and exactly one with the
/// original color — two distinct colors where there was one shared color.
pub proof fn lemma_collision_two_records(
    ms: Seq<(ProvData, Which)>,
    all: Seq<Rgb>,
    entries: Seq<(Rgb, Which, Rgb)>,
    k: int,
)
    requires
        0 <= k < entries.len(),
        forall|i: int, j: int| 0 <= i < j < entries.len()
            ==> (#[trigger] entries[i]).0 != (#[trigger] entries[j]).0,
        forall|i: int, j: int| 0 <= i < j < entries.len()
            ==> (#[trigger] entries[i]).2 != (#[trigger] entries[j]).2,
        forall|i: int| 0 <= i < entries.len() ==> !all.contains((#[trigger] entries[i]).2),
        all.contains(entries[k].0),
        entries[k].0 != Rgb::black_spec(),
        entries[k].2 != Rgb::black_spec(),
        kept_count(ms, all, entries[k].0, entries[k].1) == 1,
        kept_count(ms, all, entries[k].0, other_side(entries[k].1)) == 1,
    ensures
        entries[k].2 != entries[k].0,
        color_count(reindexed(merge_survivors(ms, all, entries)), entries[k].2) == 1,
        color_count(reindexed(merge_survivors(ms, all, entries)), entries[k].0) == 1,
{
    lemma_collision_record_counts(ms, all, entries, k);
    lemma_reindexed_color_count(merge_survivors(ms, all, entries), entries[k].2);
    lemma_reindexed_color_count(merge_survivors(ms, all, entries), entries[k].0);
}

/// How many of a side's records carry color `c` and survive the category
/// and footprint checks.
pub open spec fn side_count(ds: Seq<ProvData>, all: Seq<Rgb>, c: Rgb) -> nat
    decreases ds.len(),
{
    if ds.len() == 0 {
        0
    } else {
        (side_count(ds.drop_last(), all, c)
            + (if ds.last().rgb == c && keep_def(all, ds.last()) { 1 as nat } else { 0 })) as nat
    }
}

/// Surviving-occurrence counts distribute over concatenation of the marked
/// input.
proof fn lemma_kept_count_concat(
    a: Seq<(ProvData, Which)>,
    b: Seq<(ProvData, Which)>,
    all: Seq<Rgb>,
    c: Rgb,
    w: Which,
)
    ensures
        kept_count(a + b, all, c, w) == kept_count(a, all, c, w) + kept_count(b, all, c, w),
    decreases b.len(),
{
    if b.len() == 0 {
        assert(a + b =~= a);
    } else {
        lemma_kept_count_concat(a, b.drop_last(), all, c, w);
        assert((a + b).drop_last() =~= a + b.drop_last());
        assert((a + b).last() == b.last());
    }
}

/// On a single side's marked records, the surviving-occurrence count for
/// that side is the side's own count, and for the other side zero.
proof fn lemma_kept_count_one_side(
    ds: Seq<ProvData>,
    all: Seq<Rgb>,
    c: Rgb,
    w: Which,
    tag: Which,
)
    ensures
        kept_count(ds.map_values(|d: ProvData| (d, tag)), all, c, w)
            == if w == tag { side_count(ds, all, c) } else { 0 },
    decreases ds.len(),
{
    let ms = ds.map_values(|d: ProvData| (d, tag));
    if ds.len() == 0 {
        assert(ms.len() == 0);
    } else {
        lemma_kept_count_one_side(ds.drop_last(), all, c, w, tag);
        assert(ms.drop_last() =~= ds.drop_last().map_values(|d: ProvData| (d, tag)));
        assert(ms.last() == (ds.last(), tag));
    }
}

/// Each side contributes its own surviving occurrences to the marked input.
pub proof fn lemma_kept_count_sides(
    ds1: Seq<ProvData>,
    ds2: Seq<ProvData>,
    all: Seq<Rgb>,
    c: Rgb,
)
    ensures
        kept_count(marked_views(ds1, ds2), all, c, Which::Map1) == side_count(ds1, all, c),
        kept_count(marked_views(ds1, ds2), all, c, Which::Map2) == side_count(ds2, all, c),
{
    let m1 = ds1.map_values(|d: ProvData| (d, Which::Map1));
    let m2 = ds2.map_values(|d: ProvData| (d, Which::Map2));
    lemma_kept_count_concat(m1, m2, all, c, Which::Map1);
    lemma_kept_count_concat(m1, m2, all, c, Which::Map2);
    lemma_kept_count_one_side(ds1, all, c, Which::Map1, Which::Map1);
    lemma_kept_count_one_side(ds1, all, c, Which::Map2, Which::Map1);
    lemma_kept_count_one_side(ds2, all, c, Which::Map1, Which::Map2);
    lemma_kept_count_one_side(ds2, all, c, Which::Map2, Which::Map2);
}

/// The collision property over the two input sets: when each side holds
/// exactly one surviving record of a conflicting color, the merged output
/// set holds exactly one record with the fresh color and exactly one with
/// the original color, whichever side the tiebreak renamed.
pub proof fn lemma_collision_split_sides(
    ds1: Seq<ProvData>,
    ds2: Seq<ProvData>,
    all: Seq<Rgb>,
    entries: Seq<(Rgb, Which, Rgb)>,
    k: int,
)
    requires
        0 <= k < entries.len(),
        forall|i: int, j: int| 0 <= i < j < entries.len()
            ==> (#[trigger] entries[i]).0 != (#[trigger] entries[j]).0,
        forall|i: int, j: int| 0 <= i < j < entries.len()
            ==> (#[trigger] entries[i]).2 != (#[trigger] entries[j]).2,
        forall|i: int| 0 <= i < entries.len() ==> !all.contains((#[trigger] entries[i]).2),
        all.contains(entries[k].0),
        entries[k].0 != Rgb::black_spec(),
        entries[k].2 != Rgb::black_spec(),
        side_count(ds1, all, entries[k].0) == 1,
        side_count(ds2, all, entries[k].0) == 1,
    ensures
        entries[k].2 != entries[k].0,
        color_count(reindexed(merge_survivors(marked_views(ds1, ds2), all, entries)),
            entries[k].2) == 1,
        color_count(reindexed(merge_survivors(marked_views(ds1, ds2), all, entries)),
            entries[k].0) == 1,
{
    lemma_kept_count_sides(ds1, ds2, all, entries[k].0);
    assert(other_side(entries[k].1) != entries[k].1);
    lemma_collision_two_records(marked_views(ds1, ds2), all, entries, k);
}

/// A color that no mapping entry names, as key or as fresh value, keeps its
/// surviving occurrences and gains none: together with
/// `lemma_collision_record_counts` this accounts for every color of the
/// merged records.
pub proof fn lemma_unmapped_color_count(
    ms: Seq<(ProvData, Which)>,
    all: Seq<Rgb>,
    entries: Seq<(Rgb, Which, Rgb)>,
    m: Rgb,
)
    requires
        forall|i: int| 0 <= i < entries.len()
            ==> (#[trigger] entries[i]).0 != m && entries[i].2 != m,
    ensures
        color_count(merge_survivors(ms, all, entries), m)
            == kept_count(ms, all, m, Which::Map1) + kept_count(ms, all, m, Which::Map2),
    decreases ms.len(),
{
    if ms.len() == 0 {
        assert(color_count(Seq::<ProvData>::empty(), m) == 0);
    } else {
        lemma_unmapped_color_count(ms.drop_last(), all, entries, m);
        let d = ms.last().0;
        let side = ms.last().1;
        let prev = merge_survivors(ms.drop_last(), all, entries);
        assert(side == Which::Map1 || side == Which::Map2);
        if keep_def(all, d) {
            let x = rewrite_def(entries, d, side);
            let rc = replaced(entries, d.rgb, side);
            assert(x.rgb == rc);
            assert(merge_survivors(ms, all, entries) == prev.push(x));
            assert(prev.push(x).drop_last() =~= prev);
            assert(prev.push(x).last() == x);
            if d.rgb == m {
                lemma_lookup_no_match(entries, m, side);
                assert(rc == m);
            } else {
                if lookup(entries, d.rgb, side) is Some {
                    lemma_lookup_member(entries, d.rgb, side);
                    let l = choose|l: int| 0 <= l < entries.len()
                        && #[trigger] entries[l]
                            == (d.rgb, side, lookup(entries, d.rgb, side)->0);
                    assert(rc == entries[l].2);
                    assert(rc != m);
                } else {
                    assert(rc == d.rgb);
                    assert(rc != m);
                }
            }
        }
    }
}

} // verus!
