//! The duplicate validator: a single left-to-right scan over a definition
//! set that collects one conflict description per duplicate id or duplicate
//! color found, and, on request, partitions the distinct colors seen into
//! conflicting and remaining ones for diagnostic output.

use vstd::prelude::*;
use crate::color::Rgb;
use crate::color::contains_color;
use crate::definition::ProvData;
use crate::definition::Province;
use crate::definition::views_of;
use crate::numtext::dec_chars;
use crate::numtext::render_uint;

verus! {

/// No two records share an id and no two records share a color.
pub open spec fn no_dups(ds: Seq<ProvData>) -> bool {
    forall|i: int, j: int| 0 <= i < j < ds.len()
        ==> ds[i].id != ds[j].id && ds[i].rgb != ds[j].rgb
}

/// Record `i` repeats an earlier record's id.
pub open spec fn dup_id_at(ds: Seq<ProvData>, i: int) -> bool {
    exists|j: int| 0 <= j < i && ds[j].id == ds[i].id
}

/// Record `i` repeats an earlier record's color.
pub open spec fn dup_rgb_at(ds: Seq<ProvData>, i: int) -> bool {
    exists|j: int| 0 <= j < i && ds[j].rgb == ds[i].rgb
}

/// Index of the first record with id `v`.
pub open spec fn first_idx_id(ds: Seq<ProvData>, v: int) -> int
    decreases ds.len(),
{
    if ds.len() == 0 {
        0
    } else if ds[0].id == v {
        0
    } else {
        1 + first_idx_id(ds.skip(1), v)
    }
}

/// Index of the first record with color `c`.
pub open spec fn first_idx_rgb(ds: Seq<ProvData>, c: Rgb) -> int
    decreases ds.len(),
{
    if ds.len() == 0 {
        0
    } else if ds[0].rgb == c {
        0
    } else {
        1 + first_idx_rgb(ds.skip(1), c)
    }
}

pub proof fn lemma_first_idx_id(ds: Seq<ProvData>, v: int)
    requires
        exists|j: int| 0 <= j < ds.len() && ds[j].id == v,
    ensures
        0 <= first_idx_id(ds, v) < ds.len(),
        ds[first_idx_id(ds, v)].id == v,
        forall|k: int| 0 <= k < first_idx_id(ds, v) ==> ds[k].id != v,
    decreases ds.len(),
{
    if ds[0].id != v {
        let j = choose|j: int| 0 <= j < ds.len() && ds[j].id == v;
        assert(ds.skip(1)[j - 1] == ds[j]);
        lemma_first_idx_id(ds.skip(1), v);
        assert forall|k: int| 0 <= k < first_idx_id(ds, v) implies ds[k].id != v by {
            if k > 0 {
                assert(ds.skip(1)[k - 1] == ds[k]);
            }
        }
    }
}

pub proof fn lemma_first_idx_rgb(ds: Seq<ProvData>, c: Rgb)
    requires
        exists|j: int| 0 <= j < ds.len() && ds[j].rgb == c,
    ensures
        0 <= first_idx_rgb(ds, c) < ds.len(),
        ds[first_idx_rgb(ds, c)].rgb == c,
        forall|k: int| 0 <= k < first_idx_rgb(ds, c) ==> ds[k].rgb != c,
    decreases ds.len(),
{
    if ds[0].rgb != c {
        let j = choose|j: int| 0 <= j < ds.len() && ds[j].rgb == c;
        assert(ds.skip(1)[j - 1] == ds[j]);
        lemma_first_idx_rgb(ds.skip(1), c);
        assert forall|k: int| 0 <= k < first_idx_rgb(ds, c) implies ds[k].rgb != c by {
            if k > 0 {
                assert(ds.skip(1)[k - 1] == ds[k]);
            }
        }
    }
}

/// The color rendered as the conflict descriptions show it.
pub open spec fn rgb_debug(c: Rgb) -> Seq<char> {
    "["@ + dec_chars(c.r as nat) + ", "@ + dec_chars(c.g as nat) + ", "@
        + dec_chars(c.b as nat) + "]"@
}

/// One conflict description, naming the first-seen record and the repeat.
pub open spec fn dup_msg(thing: Seq<char>, a: ProvData, b: ProvData) -> Seq<char> {
    "duplicate "@ + thing + "s exist: "@
        + dec_chars(a.id as nat) + "="@ + rgb_debug(a.rgb) + ", "@
        + dec_chars(b.id as nat) + "="@ + rgb_debug(b.rgb)
}

/// What record `i` contributes to the conflict list: its id message, then
/// its color message, each present only where `i` repeats an earlier record.
pub open spec fn msgs_at(ds: Seq<ProvData>, i: int) -> Seq<Seq<char>> {
    let id_part: Seq<Seq<char>> = if dup_id_at(ds, i) {
        seq![dup_msg("id"@, ds[first_idx_id(ds, ds[i].id)], ds[i])]
    } else {
        Seq::empty()
    };
    let rgb_part: Seq<Seq<char>> = if dup_rgb_at(ds, i) {
        seq![dup_msg("color"@, ds[first_idx_rgb(ds, ds[i].rgb)], ds[i])]
    } else {
        Seq::empty()
    };
    id_part + rgb_part
}

/// Every conflict description the scan collects, in scan order.
pub open spec fn conflict_msgs(ds: Seq<ProvData>) -> Seq<Seq<char>>
    decreases ds.len(),
{
    if ds.len() == 0 {
        Seq::empty()
    } else {
        conflict_msgs(ds.drop_last()) + msgs_at(ds, ds.len() - 1)
    }
}

/// How many duplicate occurrences the scan sees: one per record that
/// repeats an earlier id, and one per record that repeats an earlier color.
pub open spec fn dup_entries(ds: Seq<ProvData>) -> nat
    decreases ds.len(),
{
    if ds.len() == 0 {
        0
    } else {
        (dup_entries(ds.drop_last())
            + (if dup_id_at(ds, ds.len() - 1) { 1 as nat } else { 0 })
            + (if dup_rgb_at(ds, ds.len() - 1) { 1 as nat } else { 0 })) as nat
    }
}

/// One entry per duplicate occurrence, never one per record involved.
pub proof fn lemma_one_entry_per_duplicate(ds: Seq<ProvData>)
    ensures
        conflict_msgs(ds).len() == dup_entries(ds),
    decreases ds.len(),
{
    if ds.len() != 0 {
        lemma_one_entry_per_duplicate(ds.drop_last());
    }
}

/// How many records carry id `v`.
pub open spec fn id_count(ds: Seq<ProvData>, v: int) -> nat
    decreases ds.len(),
{
    if ds.len() == 0 {
        0
    } else {
        (id_count(ds.drop_last(), v) + (if ds.last().id == v { 1 as nat } else { 0 })) as nat
    }
}

/// How many conflict entries the scan makes for id `v`: by `msgs_at`, every
/// record that repeats `v` contributes exactly one id entry, and nothing
/// else mentions `v` as a duplicate id.
pub open spec fn id_entries_for(ds: Seq<ProvData>, v: int) -> nat
    decreases ds.len(),
{
    if ds.len() == 0 {
        0
    } else {
        (id_entries_for(ds.drop_last(), v)
            + (if ds.last().id == v && dup_id_at(ds, ds.len() - 1) { 1 as nat } else { 0 })) as nat
    }
}

/// A positive id count names a record and back.
proof fn lemma_id_count_exists(ds: Seq<ProvData>, v: int)
    ensures
        id_count(ds, v) >= 1
            <==> exists|j: int| 0 <= j < ds.len() && (#[trigger] ds[j]).id == v,
    decreases ds.len(),
{
    if ds.len() > 0 {
        lemma_id_count_exists(ds.drop_last(), v);
        if ds.last().id == v {
            assert(ds[ds.len() - 1].id == v);
        }
        if id_count(ds.drop_last(), v) >= 1 {
            let j = choose|j: int| 0 <= j < ds.drop_last().len()
                && (#[trigger] ds.drop_last()[j]).id == v;
            assert(ds[j].id == v);
        }
        if exists|j: int| 0 <= j < ds.len() && (#[trigger] ds[j]).id == v {
            let j = choose|j: int| 0 <= j < ds.len() && (#[trigger] ds[j]).id == v;
            if j < ds.len() - 1 {
                assert(ds.drop_last()[j].id == v);
            }
        }
    }
}

/// One entry per duplicate pair, in general: an id occurring `k >= 1` times
/// yields exactly `k - 1` conflict entries for it — one per repeat of the
/// first occurrence, never one per record involved.
pub proof fn lemma_entries_per_id(ds: Seq<ProvData>, v: int)
    ensures
        id_count(ds, v) == 0 ==> id_entries_for(ds, v) == 0,
        id_count(ds, v) >= 1 ==> id_entries_for(ds, v) == id_count(ds, v) - 1,
    decreases ds.len(),
{
    if ds.len() > 0 {
        lemma_entries_per_id(ds.drop_last(), v);
        let n = ds.len() - 1;
        if ds.last().id == v {
            lemma_id_count_exists(ds.drop_last(), v);
            assert(dup_id_at(ds, n) <==> id_count(ds.drop_last(), v) >= 1) by {
                if dup_id_at(ds, n) {
                    let j = choose|j: int| 0 <= j < n && ds[j].id == ds[n].id;
                    assert(ds.drop_last()[j].id == v);
                }
                if id_count(ds.drop_last(), v) >= 1 {
                    let j = choose|j: int| 0 <= j < ds.drop_last().len()
                        && (#[trigger] ds.drop_last()[j]).id == v;
                    assert(ds[j].id == ds[n].id);
                }
            }
        }
    }
}

/// A set of exactly two records with one shared id and distinct colors
/// yields exactly one conflict entry.
pub proof fn lemma_duplicate_pair_single_entry(ds: Seq<ProvData>)
    requires
        ds.len() == 2,
        ds[0].id == ds[1].id,
        ds[0].rgb != ds[1].rgb,
    ensures
        conflict_msgs(ds).len() == 1,
{
    lemma_one_entry_per_duplicate(ds);
    assert(dup_id_at(ds, 1));
    assert(!dup_rgb_at(ds, 1));
    let dl = ds.drop_last();
    assert(dl.len() == 1);
    assert(!dup_id_at(dl, 0));
    assert(!dup_rgb_at(dl, 0));
    assert(dl.drop_last() =~= Seq::<ProvData>::empty());
    assert(dup_entries(Seq::<ProvData>::empty()) == 0);
    assert(dup_entries(dl) == 0);
}

/// The distinct colors of the set, in order of first occurrence.
pub open spec fn seen_colors(ds: Seq<ProvData>) -> Seq<Rgb>
    decreases ds.len(),
{
    if ds.len() == 0 {
        Seq::empty()
    } else {
        let p = seen_colors(ds.drop_last());
        if p.contains(ds.last().rgb) {
            p
        } else {
            p.push(ds.last().rgb)
        }
    }
}

/// How many records carry color `c`.
pub open spec fn color_count(ds: Seq<ProvData>, c: Rgb) -> nat
    decreases ds.len(),
{
    if ds.len() == 0 {
        0
    } else {
        (color_count(ds.drop_last(), c) + (if ds.last().rgb == c { 1 as nat } else { 0 })) as nat
    }
}

/// The colors of `seen` that more than one record carries, in order.
pub open spec fn confl_of(seen: Seq<Rgb>, ds: Seq<ProvData>) -> Seq<Rgb>
    decreases seen.len(),
{
    if seen.len() == 0 {
        Seq::empty()
    } else {
        confl_of(seen.drop_last(), ds)
            + (if color_count(ds, seen.last()) >= 2 { seq![seen.last()] } else { Seq::empty() })
    }
}

/// The colors of `seen` that exactly one record carries, in order.
pub open spec fn regular_of(seen: Seq<Rgb>, ds: Seq<ProvData>) -> Seq<Rgb>
    decreases seen.len(),
{
    if seen.len() == 0 {
        Seq::empty()
    } else {
        regular_of(seen.drop_last(), ds)
            + (if color_count(ds, seen.last()) >= 2 { Seq::empty() } else { seq![seen.last()] })
    }
}

/// The compact bracketed form used by the diagnostic artifacts.
pub open spec fn rgb_brief(c: Rgb) -> Seq<char> {
    "["@ + dec_chars(c.r as nat) + ","@ + dec_chars(c.g as nat) + ","@
        + dec_chars(c.b as nat) + "]"@
}

/// A space-separated list of compact color forms, with no trailing space.
pub open spec fn colors_blob(cs: Seq<Rgb>) -> Seq<char>
    decreases cs.len(),
{
    if cs.len() == 0 {
        Seq::empty()
    } else if cs.len() == 1 {
        rgb_brief(cs[0])
    } else {
        colors_blob(cs.drop_last()) + seq![' '] + rgb_brief(cs.last())
    }
}

/// A failed validation: every conflict found, and, when diagnostics were
/// requested, the partition of the distinct colors into the conflicting
/// ones and the rest, each rendered for its artifact file.
pub struct ValidateError {
    /// One human-readable description per duplicate id or color found.
    pub invalid_items: Vec<String>,
    /// When diagnostics were requested: the conflicting colors' rendering,
    /// then the remaining colors' rendering.
    pub dump: Option<(String, String)>,
}

/// The conflict descriptions joined by line breaks.
pub open spec fn joined_msgs(ms: Seq<Seq<char>>) -> Seq<char>
    decreases ms.len(),
{
    if ms.len() == 0 {
        Seq::empty()
    } else if ms.len() == 1 {
        ms[0]
    } else {
        joined_msgs(ms.drop_last()) + seq!['\n'] + ms.last()
    }
}

impl ValidateError {
    /// The whole failure as one text: every conflict description on its own
    /// line.
    pub fn describe(&self) -> (out: String)
        ensures
            out@ == joined_msgs(self.invalid_items@.map_values(|m: String| m@)),
    {
        let ghost ms = self.invalid_items@.map_values(|m: String| m@);
        let mut out = String::new();
        let mut k: usize = 0;
        proof {
            assert(ms.take(0) =~= Seq::<Seq<char>>::empty());
        }
        while k < self.invalid_items.len()
            invariant
                k <= ms.len(),
                ms == self.invalid_items@.map_values(|m: String| m@),
                out@ == joined_msgs(ms.take(k as int)),
            decreases self.invalid_items.len() - k,
        {
            proof {
                assert(ms.take(k + 1).drop_last() =~= ms.take(k as int));
                assert(ms.take(k + 1).last() == ms[k as int]);
                assert(ms.take(k + 1)[0] == ms[0]);
                assert(ms[k as int] == self.invalid_items@[k as int]@);
            }
            if k > 0 {
                out.append("\n");
                proof {
                    reveal_strlit("\n");
                    assert("\n"@ =~= seq!['\n']);
                }
            }
            out.append(self.invalid_items[k].as_str());
            k = k + 1;
        }
        proof {
            assert(ms.take(ms.len() as int) =~= ms);
        }
        out
    }
}

/// Renders a color as the conflict descriptions show it.
fn render_rgb_debug(c: Rgb) -> (out: String)
    ensures
        out@ == rgb_debug(c),
{
    let mut s = "[".to_owned();
    s.append(render_uint(c.r as usize).as_str());
    s.append(", ");
    s.append(render_uint(c.g as usize).as_str());
    s.append(", ");
    s.append(render_uint(c.b as usize).as_str());
    s.append("]");
    s
}

/// Renders a color in the compact diagnostic form.
fn render_rgb_brief(c: Rgb) -> (out: String)
    ensures
        out@ == rgb_brief(c),
{
    let mut s = "[".to_owned();
    s.append(render_uint(c.r as usize).as_str());
    s.append(",");
    s.append(render_uint(c.g as usize).as_str());
    s.append(",");
    s.append(render_uint(c.b as usize).as_str());
    s.append("]");
    s
}

/// Builds one conflict description.
fn dup_message(thing: &str, a: &Province, b: &Province) -> (out: String)
    ensures
        out@ == dup_msg(thing@, a@, b@),
{
    let mut s = "duplicate ".to_owned();
    s.append(thing);
    s.append("s exist: ");
    s.append(render_uint(a.id).as_str());
    s.append("=");
    s.append(render_rgb_debug(a.rgb).as_str());
    s.append(", ");
    s.append(render_uint(b.id).as_str());
    s.append("=");
    s.append(render_rgb_debug(b.rgb).as_str());
    s
}

/// First earlier record sharing record `i`'s id.
fn find_dup_id(defs: &[Province], i: usize) -> (r: Option<usize>)
    requires
        i < defs@.len(),
    ensures
        match r {
            Some(j) => j < i && defs@[j as int]@.id == defs@[i as int]@.id
                && forall|k: int| 0 <= k < j ==> defs@[k]@.id != defs@[i as int]@.id,
            None => forall|k: int| 0 <= k < i ==> defs@[k]@.id != defs@[i as int]@.id,
        },
{
    let mut j: usize = 0;
    while j < i
        invariant
            i < defs@.len(),
            j <= i,
            forall|k: int| 0 <= k < j ==> defs@[k]@.id != defs@[i as int]@.id,
        decreases i - j,
    {
        if defs[j].id == defs[i].id {
            return Some(j);
        }
        j = j + 1;
    }
    None
}

/// First earlier record sharing record `i`'s color.
fn find_dup_rgb(defs: &[Province], i: usize) -> (r: Option<usize>)
    requires
        i < defs@.len(),
    ensures
        match r {
            Some(j) => j < i && defs@[j as int]@.rgb == defs@[i as int]@.rgb
                && forall|k: int| 0 <= k < j ==> defs@[k]@.rgb != defs@[i as int]@.rgb,
            None => forall|k: int| 0 <= k < i ==> defs@[k]@.rgb != defs@[i as int]@.rgb,
        },
{
    let mut j: usize = 0;
    while j < i
        invariant
            i < defs@.len(),
            j <= i,
            forall|k: int| 0 <= k < j ==> defs@[k]@.rgb != defs@[i as int]@.rgb,
        decreases i - j,
    {
        if defs[j].rgb == defs[i].rgb {
            return Some(j);
        }
        j = j + 1;
    }
    None
}

/// The distinct colors of the set, in first-seen order.
fn collect_seen(defs: &[Province]) -> (seen: Vec<Rgb>)
    ensures
        seen@ == seen_colors(views_of(defs@)),
{
    let ghost ds = views_of(defs@);
    let mut seen: Vec<Rgb> = Vec::new();
    let mut i: usize = 0;
    proof {
        assert(ds.take(0) =~= Seq::<ProvData>::empty());
    }
    while i < defs.len()
        invariant
            i <= defs@.len(),
            ds == views_of(defs@),
            seen@ == seen_colors(ds.take(i as int)),
        decreases defs.len() - i,
    {
        let c = defs[i].rgb;
        proof {
            assert(ds.take(i + 1).drop_last() =~= ds.take(i as int));
            assert(ds.take(i + 1).last() == ds[i as int]);
            assert(ds[i as int].rgb == c);
        }
        let have = contains_color(&seen, c);
        if !have {
            seen.push(c);
        }
        i = i + 1;
    }
    proof {
        assert(ds.take(ds.len() as int) =~= ds);
    }
    seen
}

/// How many records carry color `c`.
fn count_color(defs: &[Province], c: Rgb) -> (n: usize)
    ensures
        n == color_count(views_of(defs@), c),
{
    let ghost ds = views_of(defs@);
    let mut n: usize = 0;
    let mut i: usize = 0;
    proof {
        assert(ds.take(0) =~= Seq::<ProvData>::empty());
    }
    while i < defs.len()
        invariant
            i <= defs@.len(),
            ds == views_of(defs@),
            n == color_count(ds.take(i as int), c),
            n <= i,
        decreases defs.len() - i,
    {
        proof {
            assert(ds.take(i + 1).drop_last() =~= ds.take(i as int));
            assert(ds.take(i + 1).last() == ds[i as int]);
        }
        if defs[i].rgb == c {
            n = n + 1;
        }
        i = i + 1;
    }
    proof {
        assert(ds.take(ds.len() as int) =~= ds);
    }
    n
}

/// Renders a list of colors as one space-separated diagnostic line.
pub fn render_blob(cs: &Vec<Rgb>) -> (out: String)
    ensures
        out@ == colors_blob(cs@),
{
    let mut out = String::new();
    let mut k: usize = 0;
    proof {
        assert(cs@.take(0) =~= Seq::<Rgb>::empty());
    }
    while k < cs.len()
        invariant
            k <= cs@.len(),
            out@ == colors_blob(cs@.take(k as int)),
        decreases cs.len() - k,
    {
        proof {
            assert(cs@.take(k + 1).drop_last() =~= cs@.take(k as int));
            assert(cs@.take(k + 1).last() == cs@[k as int]);
            assert(cs@.take(k + 1)[0] == cs@[0]);
        }
        if k > 0 {
            out.append(" ");
            proof {
                reveal_strlit(" ");
                assert(" "@ =~= seq![' ']);
            }
        }
        out.append(render_rgb_brief(cs[k]).as_str());
        proof {
            lemma_blob_step(cs@, k as int, out@);
        }
        k = k + 1;
    }
    proof {
        assert(cs@.take(cs@.len() as int) =~= cs@);
    }
    out
}

/// The blob over one more color is the blob so far, a space when anything
/// precedes, then the new color's form.
proof fn lemma_blob_step(cs: Seq<Rgb>, k: int, built: Seq<char>)
    requires
        0 <= k < cs.len(),
        k == 0 ==> built == rgb_brief(cs[0]),
        k > 0 ==> built == colors_blob(cs.take(k)) + seq![' '] + rgb_brief(cs[k]),
    ensures
        built == colors_blob(cs.take(k + 1)),
{
    assert(cs.take(k + 1).drop_last() =~= cs.take(k));
    assert(cs.take(k + 1).last() == cs[k]);
    if k == 0 {
        assert(cs.take(1)[0] == cs[0]);
    }
}

/// Validates a definition set: succeeds exactly when no two records share
/// an id and no two share a color; otherwise returns every conflict found,
/// with the diagnostic color partition when `dump` asks for it.
pub fn validate_defs(defs: &[Province], dump: bool) -> (r: Result<(), ValidateError>)
    ensures
        r is Ok <==> no_dups(views_of(defs@)),
        r is Err ==> (r->Err_0).invalid_items@.map_values(|m: String| m@)
            == conflict_msgs(views_of(defs@)),
        r is Err ==> ((r->Err_0).dump is Some <==> dump),
        r is Err && dump ==> ((r->Err_0).dump->0).0@
            == colors_blob(confl_of(seen_colors(views_of(defs@)), views_of(defs@))),
        r is Err && dump ==> ((r->Err_0).dump->0).1@
            == colors_blob(regular_of(seen_colors(views_of(defs@)), views_of(defs@))),
{
    let ghost ds = views_of(defs@);
    let mut errors: Vec<String> = Vec::new();
    let mut i: usize = 0;
    proof {
        assert(ds.take(0) =~= Seq::<ProvData>::empty());
        assert(errors@.map_values(|m: String| m@) =~= conflict_msgs(ds.take(0)));
    }
    while i < defs.len()
        invariant
            i <= defs@.len(),
            ds == views_of(defs@),
            errors@.map_values(|m: String| m@) == conflict_msgs(ds.take(i as int)),
            errors@.len() == 0 <==> no_dups(ds.take(i as int)),
        decreases defs.len() - i,
    {
        let ghost pre = ds.take(i as int);
        let ghost cur = ds.take(i + 1);
        proof {
            assert(cur.drop_last() =~= pre);
            assert(cur.last() == ds[i as int]);
            assert(forall|k: int| 0 <= k <= i ==> cur[k] == ds[k]);
        }
        let ghost before = errors@.map_values(|m: String| m@);
        match find_dup_id(defs, i) {
            Some(j) => {
                proof {
                    assert(cur[j as int].id == cur[i as int].id);
                    assert(dup_id_at(cur, i as int));
                    lemma_first_idx_id(cur, cur[i as int].id);
                    let f = first_idx_id(cur, cur[i as int].id);
                    assert(f == j);
                }
                let m = dup_message("id", &defs[j], &defs[i]);
                proof {
                    assert(errors@.push(m).map_values(|x: String| x@)
                        =~= errors@.map_values(|x: String| x@).push(m@));
                }
                errors.push(m);
            },
            None => {
                proof {
                    assert(!dup_id_at(cur, i as int));
                }
            },
        }
        match find_dup_rgb(defs, i) {
            Some(j) => {
                proof {
                    assert(cur[j as int].rgb == cur[i as int].rgb);
                    assert(dup_rgb_at(cur, i as int));
                    lemma_first_idx_rgb(cur, cur[i as int].rgb);
                    let f = first_idx_rgb(cur, cur[i as int].rgb);
                    assert(f == j);
                }
                let m = dup_message("color", &defs[j], &defs[i]);
                proof {
                    assert(errors@.push(m).map_values(|x: String| x@)
                        =~= errors@.map_values(|x: String| x@).push(m@));
                }
                errors.push(m);
            },
            None => {
                proof {
                    assert(!dup_rgb_at(cur, i as int));
                }
            },
        }
        proof {
            assert(errors@.map_values(|m: String| m@) =~= before + msgs_at(cur, i as int));
            assert(conflict_msgs(cur) == conflict_msgs(pre) + msgs_at(cur, i as int));
            assert(no_dups(cur) <==> (no_dups(pre) && !dup_id_at(cur, i as int)
                && !dup_rgb_at(cur, i as int))) by {
                if no_dups(pre) && !dup_id_at(cur, i as int) && !dup_rgb_at(cur, i as int) {
                    assert forall|a: int, b: int| 0 <= a < b < cur.len()
                        implies cur[a].id != cur[b].id && cur[a].rgb != cur[b].rgb by {
                        if b < i {
                            assert(pre[a] == cur[a] && pre[b] == cur[b]);
                        }
                    }
                }
            }
        }
        i = i + 1;
    }
    proof {
        assert(ds.take(ds.len() as int) =~= ds);
    }
    if errors.len() == 0 {
        Ok(())
    } else {
        let dumped: Option<(String, String)> = if dump {
            let seen = collect_seen(defs);
            let mut confl: Vec<Rgb> = Vec::new();
            let mut reg: Vec<Rgb> = Vec::new();
            let mut k: usize = 0;
            proof {
                assert(seen@.take(0) =~= Seq::<Rgb>::empty());
                assert(confl@ =~= confl_of(seen@.take(0), ds));
                assert(reg@ =~= regular_of(seen@.take(0), ds));
            }
            while k < seen.len()
                invariant
                    k <= seen@.len(),
                    ds == views_of(defs@),
                    seen@ == seen_colors(ds),
                    confl@ == confl_of(seen@.take(k as int), ds),
                    reg@ == regular_of(seen@.take(k as int), ds),
                decreases seen.len() - k,
            {
                proof {
                    assert(seen@.take(k + 1).drop_last() =~= seen@.take(k as int));
                    assert(seen@.take(k + 1).last() == seen@[k as int]);
                }
                let c = seen[k];
                let n = count_color(defs, c);
                if n >= 2 {
                    confl.push(c);
                } else {
                    reg.push(c);
                }
                k = k + 1;
            }
            proof {
                assert(seen@.take(seen@.len() as int) =~= seen@);
            }
            Some((render_blob(&confl), render_blob(&reg)))
        } else {
            None
        };
        Err(ValidateError { invalid_items: errors, dump: dumped })
    }
}

} // verus!
