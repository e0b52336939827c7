//! The RGB color value and small verified helpers over duplicate-free
//! color lists, which the validator, the conflict detector and the merge
//! engine use as their set representation.

use vstd::prelude::*;

verus! {

/// One 3-byte RGB color.
#[derive(Debug, Clone, Copy, PartialEq, Eq, Hash, Structural)]
pub struct Rgb {
    pub r: u8,
    pub g: u8,
    pub b: u8,
}

impl Rgb {
    /// The reserved background color: black, never a real province color.
    pub open spec fn black_spec() -> Rgb {
        Rgb { r: 0, g: 0, b: 0 }
    }

    pub open spec fn is_black(self) -> bool {
        self == Rgb::black_spec()
    }

    pub fn black() -> (c: Rgb)
        ensures
            c == Rgb::black_spec(),
    {
        Rgb { r: 0, g: 0, b: 0 }
    }

    /// White, which the color scraper also strips from its output.
    pub open spec fn white_spec() -> Rgb {
        Rgb { r: 255, g: 255, b: 255 }
    }

    pub fn white() -> (c: Rgb)
        ensures
            c == Rgb::white_spec(),
    {
        Rgb { r: 255, g: 255, b: 255 }
    }
}

/// No color occurs twice in the sequence.
pub open spec fn distinct_colors(s: Seq<Rgb>) -> bool {
    forall|i: int, j: int| 0 <= i < j < s.len() ==> s[i] != s[j]
}

/// Whether the list holds the color; the exec counterpart of `Seq::contains`.
pub fn contains_color(v: &Vec<Rgb>, c: Rgb) -> (found: bool)
    ensures
        found == v@.contains(c),
{
    let mut i: usize = 0;
    while i < v.len()
        invariant
            i <= v.len(),
            forall|k: int| 0 <= k < i ==> v@[k] != c,
        decreases v.len() - i,
    {
        if v[i] == c {
            return true;
        }
        i = i + 1;
    }
    false
}

/// Appends the color unless it is already present, keeping the list
/// duplicate-free while growing its set of members by exactly `c`.
pub fn insert_color(v: &mut Vec<Rgb>, c: Rgb)
    requires
        distinct_colors(old(v)@),
    ensures
        distinct_colors(final(v)@),
        final(v)@.to_set() == old(v)@.to_set().insert(c),
        forall|x: Rgb| final(v)@.contains(x) <==> (old(v)@.contains(x) || x == c),
        old(v)@.contains(c) ==> final(v)@ == old(v)@,
        !old(v)@.contains(c) ==> final(v)@ == old(v)@.push(c),
{
    let already = contains_color(v, c);
    if !already {
        v.push(c);
        assert(v@.drop_last() == old(v)@);
    }
    proof {
        assert forall|x: Rgb| final(v)@.contains(x) <==> (old(v)@.contains(x) || x == c) by {
            if final(v)@.contains(x) {
                let i = choose|i: int| 0 <= i < final(v)@.len() && final(v)@[i] == x;
                if i < old(v)@.len() {
                    assert(old(v)@.contains(x));
                }
            }
            if old(v)@.contains(x) {
                let i = choose|i: int| 0 <= i < old(v)@.len() && old(v)@[i] == x;
                assert(final(v)@[i] == x);
            }
            if x == c && !old(v)@.contains(c) {
                assert(final(v)@[final(v)@.len() - 1] == c);
            }
        }
        assert(final(v)@.to_set() =~= old(v)@.to_set().insert(c));
    }
}

} // verus!
