//! The shared output policy of every transformation: put the placeholder
//! first, order the surviving records by their `Kind`, and renumber ids
//! sequentially by resulting position. Both the filter tool and the merge
//! engine end with this step.

use vstd::prelude::*;
use vstd::seq_lib::group_filter_ensures;
use crate::color::Rgb;
use crate::definition::initial_data;
use crate::definition::Kind;
use crate::definition::ProvData;
use crate::definition::Province;
use crate::definition::views_of;
use crate::validate::color_count;

verus! {

/// The record with its id replaced.
pub open spec fn with_id(d: ProvData, id: int) -> ProvData {
    ProvData { id: id, ..d }
}

/// The records of one rank, in input order.
pub open spec fn of_rank(ds: Seq<ProvData>, k: int) -> Seq<ProvData> {
    ds.filter(|d: ProvData| d.kind.rank_spec() == k)
}

/// The records ordered by rank, ties kept in input order.
pub open spec fn kind_sorted(ds: Seq<ProvData>) -> Seq<ProvData> {
    of_rank(ds, 0) + of_rank(ds, 1) + of_rank(ds, 2) + of_rank(ds, 3)
}

/// The finished output set: the placeholder, then the records by rank, every
/// id replaced by its position.
pub open spec fn reindexed(ds: Seq<ProvData>) -> Seq<ProvData> {
    let sorted = kind_sorted(ds);
    Seq::new(
        sorted.len() + 1,
        |i: int| if i == 0 {
            initial_data()
        } else {
            with_id(sorted[i - 1], i)
        },
    )
}

/// Ordering by rank loses no record.
pub proof fn lemma_kind_sorted_len(ds: Seq<ProvData>)
    ensures
        kind_sorted(ds).len() == ds.len(),
    decreases ds.len(),
{
    reveal(Seq::filter);
    if ds.len() != 0 {
        lemma_kind_sorted_len(ds.drop_last());
        let r = ds.last().kind.rank_spec();
        assert(0 <= r <= 3);
    }
}

/// Without Unknown records nothing has rank zero.
proof fn lemma_no_rank0(ds: Seq<ProvData>)
    requires
        forall|i: int| 0 <= i < ds.len() ==> (#[trigger] ds[i]).kind != Kind::Unknown,
    ensures
        of_rank(ds, 0).len() == 0,
    decreases ds.len(),
{
    reveal(Seq::filter);
    if ds.len() != 0 {
        assert(ds.last() == ds[ds.len() - 1]);
        assert forall|i: int| 0 <= i < ds.drop_last().len()
            implies (#[trigger] ds.drop_last()[i]).kind != Kind::Unknown by {
            assert(ds.drop_last()[i] == ds[i]);
        }
        lemma_no_rank0(ds.drop_last());
    }
}

/// In the finished output of a set without Unknown records, ranks are
/// non-decreasing, the placeholder is first, and ids count the positions.
pub proof fn lemma_output_ordering(ds: Seq<ProvData>)
    requires
        forall|i: int| 0 <= i < ds.len() ==> (#[trigger] ds[i]).kind != Kind::Unknown,
    ensures
        reindexed(ds).len() == ds.len() + 1,
        reindexed(ds)[0] == initial_data(),
        forall|a: int, b: int| 0 <= a < b < reindexed(ds).len()
            ==> reindexed(ds)[a].kind.rank_spec() <= reindexed(ds)[b].kind.rank_spec(),
        forall|i: int| 0 <= i < reindexed(ds).len() ==> reindexed(ds)[i].id == i,
{
    broadcast use group_filter_ensures;

    lemma_kind_sorted_len(ds);
    lemma_no_rank0(ds);
    let sorted = kind_sorted(ds);
    let l1 = of_rank(ds, 1).len() as int;
    let l2 = of_rank(ds, 2).len() as int;
    let l3 = of_rank(ds, 3).len() as int;
    assert forall|x: int| 0 <= x < sorted.len()
        implies 1 <= (#[trigger] sorted[x]).kind.rank_spec()
            && (x < l1 ==> sorted[x].kind.rank_spec() == 1)
            && (l1 <= x < l1 + l2 ==> sorted[x].kind.rank_spec() == 2)
            && (l1 + l2 <= x ==> sorted[x].kind.rank_spec() == 3) by {
        if x < l1 {
            assert(sorted[x] == of_rank(ds, 1)[x]);
        } else if x < l1 + l2 {
            assert(sorted[x] == of_rank(ds, 2)[x - l1]);
        } else {
            assert(sorted[x] == of_rank(ds, 3)[x - l1 - l2]);
        }
    }
    assert forall|a: int, b: int| 0 <= a < b < reindexed(ds).len()
        implies reindexed(ds)[a].kind.rank_spec() <= reindexed(ds)[b].kind.rank_spec() by {
        if a > 0 {
            let x = a - 1;
            let y = b - 1;
            assert(sorted[x].kind.rank_spec() <= sorted[y].kind.rank_spec());
        } else {
            assert(reindexed(ds)[a].kind.rank_spec() == 1);
            assert(sorted[b - 1].kind.rank_spec() >= 1);
        }
    }
}

/// Builds the finished output set from the surviving records: placeholder
/// first, then the survivors ordered by rank and renumbered by position.
pub fn finalize_defs(survivors: Vec<Province>) -> (out: Vec<Province>)
    ensures
        views_of(out@) == reindexed(views_of(survivors@)),
        out@.len() == survivors@.len() + 1,
{
    let ghost orig = survivors@;
    let ghost ds = views_of(orig);
    proof {
        reveal(Seq::filter);
        lemma_kind_sorted_len(ds);
    }
    let mut rest = survivors;
    let mut b0: Vec<Province> = Vec::new();
    let mut b1: Vec<Province> = Vec::new();
    let mut b2: Vec<Province> = Vec::new();
    let mut b3: Vec<Province> = Vec::new();
    let mut j: usize = 0;
    let n0: usize = rest.len();
    proof {
        assert(orig.len() == n0);
        assert(rest@ =~= orig.skip(0));
        assert(ds.take(0) =~= Seq::<ProvData>::empty());
        assert(views_of(b0@) =~= of_rank(ds.take(0), 0));
        assert(views_of(b1@) =~= of_rank(ds.take(0), 1));
        assert(views_of(b2@) =~= of_rank(ds.take(0), 2));
        assert(views_of(b3@) =~= of_rank(ds.take(0), 3));
    }
    while rest.len() > 0
        invariant
            j <= orig.len(),
            orig.len() <= usize::MAX,
            ds == views_of(orig),
            rest@ == orig.skip(j as int),
            views_of(b0@) == of_rank(ds.take(j as int), 0),
            views_of(b1@) == of_rank(ds.take(j as int), 1),
            views_of(b2@) == of_rank(ds.take(j as int), 2),
            views_of(b3@) == of_rank(ds.take(j as int), 3),
        decreases rest.len(),
    {
        let p = rest.remove(0);
        proof {
            reveal(Seq::filter);
            assert(orig.skip(j as int)[0] == orig[j as int]);
            assert(rest@ =~= orig.skip(j + 1));
            assert(ds.take(j + 1).drop_last() =~= ds.take(j as int));
            assert(ds.take(j + 1).last() == ds[j as int]);
            assert(ds[j as int] == orig[j as int]@);
        }
        let r = p.kind.rank();
        if r == 0 {
            proof {
                assert(views_of(b0@.push(p)) =~= views_of(b0@).push(p@));
            }
            b0.push(p);
        } else if r == 1 {
            proof {
                assert(views_of(b1@.push(p)) =~= views_of(b1@).push(p@));
            }
            b1.push(p);
        } else if r == 2 {
            proof {
                assert(views_of(b2@.push(p)) =~= views_of(b2@).push(p@));
            }
            b2.push(p);
        } else {
            proof {
                assert(views_of(b3@.push(p)) =~= views_of(b3@).push(p@));
            }
            b3.push(p);
        }
        j = j + 1;
    }
    proof {
        assert(j == orig.len());
        assert(ds.take(j as int) =~= ds);
    }
    let mut sorted_v = b0;
    sorted_v.append(&mut b1);
    sorted_v.append(&mut b2);
    sorted_v.append(&mut b3);
    proof {
        assert(views_of(sorted_v@) =~= kind_sorted(ds));
    }
    let ghost sv = sorted_v@;
    let mut out: Vec<Province> = Vec::new();
    out.push(Province::initial());
    let mut k: usize = 0;
    while sorted_v.len() > 0
        invariant
            k <= sv.len(),
            views_of(sv) == kind_sorted(ds),
            sorted_v@ == sv.skip(k as int),
            out@.len() == k + 1,
            out@[0]@ == initial_data(),
            forall|i: int| 1 <= i <= k
                ==> (#[trigger] out@[i])@ == with_id(kind_sorted(ds)[i - 1], i),
        decreases sorted_v.len(),
    {
        let mut p = sorted_v.remove(0);
        proof {
            assert(sv.skip(k as int)[0] == sv[k as int]);
            assert(sorted_v@ =~= sv.skip(k + 1));
            assert(views_of(sv)[k as int] == sv[k as int]@);
        }
        p.id = out.len();
        proof {
            assert(p@ == with_id(kind_sorted(ds)[k as int], k + 1));
        }
        out.push(p);
        k = k + 1;
    }
    proof {
        assert(k == sv.len());
        assert(views_of(out@) =~= reindexed(ds));
    }
    out
}

/// Counting a color distributes over concatenation.
pub proof fn lemma_color_count_concat(a: Seq<ProvData>, b: Seq<ProvData>, c: Rgb)
    ensures
        color_count(a + b, c) == color_count(a, c) + color_count(b, c),
    decreases b.len(),
{
    if b.len() == 0 {
        assert(a + b =~= a);
    } else {
        lemma_color_count_concat(a, b.drop_last(), c);
        assert((a + b).drop_last() =~= a + b.drop_last());
        assert((a + b).last() == b.last());
    }
}

/// Two lists that agree on every position's color count every color alike.
pub proof fn lemma_color_count_same_rgbs(a: Seq<ProvData>, b: Seq<ProvData>, c: Rgb)
    requires
        a.len() == b.len(),
        forall|i: int| 0 <= i < a.len() ==> (#[trigger] a[i]).rgb == b[i].rgb,
    ensures
        color_count(a, c) == color_count(b, c),
    decreases a.len(),
{
    if a.len() > 0 {
        assert forall|i: int| 0 <= i < a.drop_last().len()
            implies (#[trigger] a.drop_last()[i]).rgb == b.drop_last()[i].rgb by {
            assert(a[i].rgb == b[i].rgb);
        }
        lemma_color_count_same_rgbs(a.drop_last(), b.drop_last(), c);
        assert(a.last().rgb == b.last().rgb);
    }
}

/// One bucket's count grows by the last record exactly when that record has
/// the bucket's rank.
proof fn lemma_bucket_count_step(ds: Seq<ProvData>, c: Rgb, k: int)
    requires
        ds.len() > 0,
    ensures
        color_count(of_rank(ds, k), c) == color_count(of_rank(ds.drop_last(), k), c)
            + (if ds.last().kind.rank_spec() == k && ds.last().rgb == c { 1 as nat } else { 0 }),
{
    reveal(Seq::filter);
    let prev = of_rank(ds.drop_last(), k);
    if ds.last().kind.rank_spec() == k {
        assert(of_rank(ds, k) == prev.push(ds.last()));
        assert(prev.push(ds.last()).drop_last() =~= prev);
        assert(prev.push(ds.last()).last() == ds.last());
    } else {
        assert(of_rank(ds, k) == prev);
    }
}

/// Ordering by rank moves records only: every color keeps its count.
pub proof fn lemma_kind_sorted_color_count(ds: Seq<ProvData>, c: Rgb)
    ensures
        color_count(kind_sorted(ds), c) == color_count(ds, c),
    decreases ds.len(),
{
    reveal(Seq::filter);
    lemma_color_count_concat(of_rank(ds, 0), of_rank(ds, 1), c);
    lemma_color_count_concat(of_rank(ds, 0) + of_rank(ds, 1), of_rank(ds, 2), c);
    lemma_color_count_concat(of_rank(ds, 0) + of_rank(ds, 1) + of_rank(ds, 2),
        of_rank(ds, 3), c);
    if ds.len() == 0 {
        assert(of_rank(ds, 0) =~= Seq::<ProvData>::empty());
        assert(of_rank(ds, 1) =~= Seq::<ProvData>::empty());
        assert(of_rank(ds, 2) =~= Seq::<ProvData>::empty());
        assert(of_rank(ds, 3) =~= Seq::<ProvData>::empty());
    } else {
        lemma_kind_sorted_color_count(ds.drop_last(), c);
        let dl = ds.drop_last();
        lemma_color_count_concat(of_rank(dl, 0), of_rank(dl, 1), c);
        lemma_color_count_concat(of_rank(dl, 0) + of_rank(dl, 1), of_rank(dl, 2), c);
        lemma_color_count_concat(of_rank(dl, 0) + of_rank(dl, 1) + of_rank(dl, 2),
            of_rank(dl, 3), c);
        lemma_bucket_count_step(ds, c, 0);
        lemma_bucket_count_step(ds, c, 1);
        lemma_bucket_count_step(ds, c, 2);
        lemma_bucket_count_step(ds, c, 3);
        assert(0 <= ds.last().kind.rank_spec() <= 3);
    }
}

/// The finished output keeps every real color's count: the renumbering
/// touches ids only and the placeholder adds only the background color.
pub proof fn lemma_reindexed_color_count(ds: Seq<ProvData>, c: Rgb)
    requires
        c != Rgb::black_spec(),
    ensures
        color_count(reindexed(ds), c) == color_count(ds, c),
{
    lemma_kind_sorted_color_count(ds, c);
    let sorted = kind_sorted(ds);
    let alt = seq![initial_data()] + sorted;
    assert(reindexed(ds).len() == alt.len());
    assert forall|i: int| 0 <= i < reindexed(ds).len()
        implies (#[trigger] reindexed(ds)[i]).rgb == alt[i].rgb by {
        if i > 0 {
            assert(reindexed(ds)[i] == with_id(sorted[i - 1], i));
            assert(alt[i] == sorted[i - 1]);
        }
    }
    lemma_color_count_same_rgbs(reindexed(ds), alt, c);
    lemma_color_count_concat(seq![initial_data()], sorted, c);
    assert(seq![initial_data()].drop_last() =~= Seq::<ProvData>::empty());
    assert(seq![initial_data()].last() == initial_data());
    assert(color_count(Seq::<ProvData>::empty(), c) == 0);
    assert(color_count(seq![initial_data()], c) == 0);
}

} // verus!
