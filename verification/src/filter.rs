//! The filter tool's core: selection criteria (id or color sets), the rule
//! that keeps or drops provinces by them, and the pass that filters a
//! definition set and applies the shared final ordering and renumbering.

use vstd::prelude::*;
use crate::color::Rgb;
use crate::definition::Kind;
use crate::definition::ProvData;
use crate::definition::Province;
use crate::definition::views_of;
use crate::reindex::finalize_defs;
use crate::reindex::reindexed;

verus! {

/// The opaque selection criteria a province-id source file normalizes to: a
/// set of identities or a set of colors, with a note where it came from.
pub enum Criteria {
    Ids(Vec<usize>, &'static str),
    Colors(Vec<Rgb>, &'static str),
}

/// Whether the criteria select the record.
pub open spec fn criteria_contains(cr: Criteria, d: ProvData) -> bool {
    match cr {
        Criteria::Ids(ids, _) => ids@.contains(d.id as usize),
        Criteria::Colors(colors, _) => colors@.contains(d.rgb),
    }
}

impl Criteria {
    /// Whether the criteria select the record.
    pub fn contains(&self, def: &Province) -> (r: bool)
        ensures
            r == criteria_contains(*self, def@),
    {
        match self {
            Criteria::Ids(ids, _) => {
                let mut i: usize = 0;
                while i < ids.len()
                    invariant
                        i <= ids@.len(),
                        criteria_contains(*self, def@) == ids@.contains(def.id),
                        forall|k: int| 0 <= k < i ==> ids@[k] != def.id,
                    decreases ids.len() - i,
                {
                    if ids[i] == def.id {
                        proof {
                            assert(ids@[i as int] == def.id);
                            assert(ids@.contains(def.id));
                        }
                        return true;
                    }
                    i = i + 1;
                }
                proof {
                    if ids@.contains(def@.id as usize) {
                        let k = choose|k: int| 0 <= k < ids@.len()
                            && ids@[k] == def@.id as usize;
                    }
                }
                false
            },
            Criteria::Colors(colors, _) => {
                let mut i: usize = 0;
                while i < colors.len()
                    invariant
                        i <= colors@.len(),
                        criteria_contains(*self, def@) == colors@.contains(def.rgb),
                        forall|k: int| 0 <= k < i ==> colors@[k] != def.rgb,
                    decreases colors.len() - i,
                {
                    if colors[i] == def.rgb {
                        proof {
                            assert(colors@[i as int] == def.rgb);
                            assert(colors@.contains(def.rgb));
                        }
                        return true;
                    }
                    i = i + 1;
                }
                proof {
                    if colors@.contains(def@.rgb) {
                        let k = choose|k: int| 0 <= k < colors@.len()
                            && colors@[k] == def@.rgb;
                    }
                }
                false
            },
        }
    }
}

/// What to do with the provinces the criteria select: keep only them, drop
/// exactly them, or keep everything (a pass-through collapse).
pub enum Rule {
    Whitelist(Criteria),
    Blacklist(Criteria),
    Always,
}

/// Whether the rule lets the record through.
pub open spec fn rule_allows(rule: Rule, d: ProvData) -> bool {
    match rule {
        Rule::Whitelist(cr) => criteria_contains(cr, d),
        Rule::Blacklist(cr) => !criteria_contains(cr, d),
        Rule::Always => true,
    }
}

impl Rule {
    /// Whether the rule lets the record through.
    pub fn apply(&self, def: &Province) -> (r: bool)
        ensures
            r == rule_allows(*self, def@),
    {
        match self {
            Rule::Whitelist(cr) => cr.contains(def),
            Rule::Blacklist(cr) => !cr.contains(def),
            Rule::Always => true,
        }
    }
}

/// Whether the filter pass keeps a real (non-Unknown) record: the rule
/// allows it, or the lake-keeping flag saves every non-lake.
pub open spec fn filter_keeps(rule: Rule, keep_lakes: bool, d: ProvData) -> bool {
    rule_allows(rule, d) || (d.kind != Kind::Lake && keep_lakes)
}

/// The records the pass keeps, in input order: Unknown records are dropped
/// outright, the rest pass by `filter_keeps`.
pub open spec fn filter_survivors(ds: Seq<ProvData>, rule: Rule, keep_lakes: bool) -> Seq<ProvData>
    decreases ds.len(),
{
    if ds.len() == 0 {
        Seq::empty()
    } else {
        let p = filter_survivors(ds.drop_last(), rule, keep_lakes);
        if ds.last().kind != Kind::Unknown && filter_keeps(rule, keep_lakes, ds.last()) {
            p.push(ds.last())
        } else {
            p
        }
    }
}

/// How many real records the pass removes: those that are not Unknown and
/// not kept.
pub open spec fn removed_count(ds: Seq<ProvData>, rule: Rule, keep_lakes: bool) -> nat
    decreases ds.len(),
{
    if ds.len() == 0 {
        0
    } else {
        (removed_count(ds.drop_last(), rule, keep_lakes)
            + (if ds.last().kind != Kind::Unknown
                && !filter_keeps(rule, keep_lakes, ds.last()) { 1 as nat } else { 0 })) as nat
    }
}

/// Filters the definition set by the rule and rebuilds it under the shared
/// output policy: placeholder first, ordered by kind, renumbered. Also
/// reports how many provinces the rule removed.
pub fn create_definitions(definitions: Vec<Province>, rule: &Rule, keep_lakes: bool)
    -> (out: (Vec<Province>, usize))
    ensures
        views_of(out.0@) == reindexed(filter_survivors(views_of(definitions@), *rule, keep_lakes)),
        out.1 == removed_count(views_of(definitions@), *rule, keep_lakes),
{
    let ghost ds = views_of(definitions@);
    let mut survivors: Vec<Province> = Vec::new();
    let mut removed: usize = 0;
    let mut rest = definitions;
    let ghost orig = rest@;
    let mut j: usize = 0;
    let n0: usize = rest.len();
    proof {
        assert(ds.take(0) =~= Seq::<ProvData>::empty());
        assert(views_of(survivors@) =~= filter_survivors(ds.take(0), *rule, keep_lakes));
    }
    while rest.len() > 0
        invariant
            j <= orig.len(),
            orig.len() == n0,
            rest@ == orig.skip(j as int),
            ds == views_of(orig),
            views_of(survivors@) == filter_survivors(ds.take(j as int), *rule, keep_lakes),
            removed == removed_count(ds.take(j as int), *rule, keep_lakes),
            removed <= j,
        decreases rest.len(),
    {
        let p = rest.remove(0);
        proof {
            assert(orig.skip(j as int)[0] == orig[j as int]);
            assert(rest@ =~= orig.skip(j + 1));
            assert(ds.take(j + 1).drop_last() =~= ds.take(j as int));
            assert(ds.take(j + 1).last() == ds[j as int]);
            assert(ds[j as int] == orig[j as int]@);
        }
        if !(p.kind == Kind::Unknown) {
            let is_lake = p.kind == Kind::Lake;
            if rule.apply(&p) || (!is_lake && keep_lakes) {
                proof {
                    assert(views_of(survivors@.push(p)) =~= views_of(survivors@).push(p@));
                }
                survivors.push(p);
            } else {
                removed = removed + 1;
            }
        }
        j = j + 1;
    }
    proof {
        assert(ds.take(j as int) =~= ds);
    }
    let finished = finalize_defs(survivors);
    (finished, removed)
}

} // verus!
