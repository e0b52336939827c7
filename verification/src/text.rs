//! Character-level text structure of the definition file format: splitting a
//! record on its field separator, and cutting a file into whitespace-delimited
//! token runs, together with the lemmas that relate splitting to
//! concatenation.

use vstd::prelude::*;
use vstd::slice::slice_subrange;
use vstd::slice::slice_to_vec;

verus! {

/// Whitespace as the record format understands it.
pub open spec fn is_ws(c: char) -> bool {
    c == ' ' || c == '\t' || c == '\r' || c == '\n'
}

pub open spec fn no_ws(s: Seq<char>) -> bool {
    forall|i: int| 0 <= i < s.len() ==> !is_ws(#[trigger] s[i])
}

pub open spec fn no_sep(s: Seq<char>, sep: char) -> bool {
    forall|i: int| 0 <= i < s.len() ==> #[trigger] s[i] != sep
}

/// Splits on every occurrence of `sep`, keeping empty fields, so the result
/// always holds one more field than `s` holds separators.
pub open spec fn split_on(s: Seq<char>, sep: char) -> Seq<Seq<char>>
    decreases s.len(),
{
    if s.len() == 0 {
        seq![Seq::<char>::empty()]
    } else if s[0] == sep {
        seq![Seq::<char>::empty()] + split_on(s.skip(1), sep)
    } else {
        let r = split_on(s.skip(1), sep);
        seq![seq![s[0]] + r[0]] + r.skip(1)
    }
}

pub proof fn lemma_split_on_len(s: Seq<char>, sep: char)
    ensures
        split_on(s, sep).len() >= 1,
    decreases s.len(),
{
    if s.len() != 0 {
        lemma_split_on_len(s.skip(1), sep);
    }
}

/// Text without the separator is one whole field.
pub proof fn lemma_split_on_no_sep(s: Seq<char>, sep: char)
    requires
        no_sep(s, sep),
    ensures
        split_on(s, sep) == seq![s],
    decreases s.len(),
{
    if s.len() == 0 {
        assert(split_on(s, sep) =~~= seq![s]);
    } else {
        assert(s[0] != sep);
        lemma_split_on_no_sep(s.skip(1), sep);
        lemma_split_on_len(s.skip(1), sep);
        assert(seq![s[0]] + s.skip(1) =~= s);
        assert(split_on(s, sep) =~~= seq![s]);
    }
}

/// A separator after a clean field cuts exactly there: splitting
/// `a ++ sep ++ rest` yields `a` and then whatever `rest` splits into.
pub proof fn lemma_split_on_prefix(a: Seq<char>, rest: Seq<char>, sep: char)
    requires
        no_sep(a, sep),
    ensures
        split_on(a + seq![sep] + rest, sep) == seq![a] + split_on(rest, sep),
    decreases a.len(),
{
    let s = a + seq![sep] + rest;
    lemma_split_on_len(rest, sep);
    if a.len() == 0 {
        assert(s[0] == sep);
        assert(s.skip(1) =~= rest);
        assert(split_on(s, sep) =~~= seq![a] + split_on(rest, sep));
    } else {
        assert(s[0] == a[0]);
        assert(s[0] != sep);
        assert(s.skip(1) =~= a.skip(1) + seq![sep] + rest);
        lemma_split_on_prefix(a.skip(1), rest, sep);
        let r = split_on(s.skip(1), sep);
        assert(r == seq![a.skip(1)] + split_on(rest, sep));
        assert(r[0] == a.skip(1));
        assert(seq![s[0]] + r[0] =~= a);
        assert(r.skip(1) =~= split_on(rest, sep));
        assert(split_on(s, sep) =~~= seq![a] + split_on(rest, sep));
    }
}

/// The maximal non-whitespace runs of the text, in order, empty runs dropped.
pub open spec fn token_runs(s: Seq<char>) -> Seq<Seq<char>>
    decreases s.len(),
{
    if s.len() == 0 {
        Seq::<Seq<char>>::empty()
    } else if is_ws(s[0]) {
        token_runs(s.skip(1))
    } else {
        let r = token_runs(s.skip(1));
        if s.len() > 1 && !is_ws(s[1]) {
            seq![seq![s[0]] + r[0]] + r.skip(1)
        } else {
            seq![seq![s[0]]] + r
        }
    }
}

/// A whole token followed by whitespace (or the end) is cut exactly there.
pub proof fn lemma_token_runs_prefix(t: Seq<char>, rest: Seq<char>)
    requires
        t.len() > 0,
        no_ws(t),
        rest.len() == 0 || is_ws(rest[0]),
    ensures
        token_runs(t + rest) == seq![t] + token_runs(rest),
    decreases t.len(),
{
    let s = t + rest;
    assert(s[0] == t[0]);
    assert(!is_ws(s[0]));
    if t.len() == 1 {
        assert(s.skip(1) =~= rest);
        if s.len() > 1 {
            assert(s[1] == rest[0]);
        }
        assert(seq![s[0]] =~= t);
        assert(token_runs(s) =~~= seq![t] + token_runs(rest));
    } else {
        assert(s.len() > 1);
        assert(s[1] == t[1]);
        assert(!is_ws(s[1]));
        assert(s.skip(1) =~= t.skip(1) + rest);
        lemma_token_runs_prefix(t.skip(1), rest);
        let r = token_runs(s.skip(1));
        assert(r == seq![t.skip(1)] + token_runs(rest));
        assert(r[0] == t.skip(1));
        assert(seq![s[0]] + r[0] =~= t);
        assert(r.skip(1) =~= token_runs(rest));
        assert(token_runs(s) =~~= seq![t] + token_runs(rest));
    }
}

/// Whitespace on the left never adds a token.
pub proof fn lemma_token_runs_ws(s: Seq<char>)
    requires
        s.len() > 0,
        is_ws(s[0]),
    ensures
        token_runs(s) == token_runs(s.skip(1)),
{
}

pub fn is_ws_char(c: char) -> (r: bool)
    ensures
        r == is_ws(c),
{
    c == ' ' || c == '\t' || c == '\r' || c == '\n'
}

/// The characters of `s`, in order, as a vector.
pub fn str_to_chars(s: &str) -> (v: Vec<char>)
    ensures
        v@ == s@,
{
    let n = s.unicode_len();
    let mut v: Vec<char> = Vec::new();
    let mut i: usize = 0;
    while i < n
        invariant
            n == s@.len(),
            i <= n,
            v@ =~= s@.take(i as int),
        decreases n - i,
    {
        v.push(s.get_char(i));
        i = i + 1;
    }
    proof {
        assert(s@.take(n as int) =~= s@);
    }
    v
}

/// Cuts `rec` at every `sep`, returning the fields in order; the executable
/// counterpart of `split_on`.
pub fn split_fields(rec: &[char], sep: char) -> (fields: Vec<Vec<char>>)
    ensures
        fields@.map_values(|f: Vec<char>| f@) == split_on(rec@, sep),
{
    let ghost whole: Seq<Seq<char>> = split_on(rec@, sep);
    let mut fields: Vec<Vec<char>> = Vec::new();
    let mut start: usize = 0;
    let mut i: usize = 0;
    proof {
        assert(rec@.subrange(0, rec@.len() as int) =~= rec@);
        assert(fields@.map_values(|f: Vec<char>| f@)
            + split_on(rec@.subrange(0, rec@.len() as int), sep)
            =~= split_on(rec@, sep));
    }
    while i < rec.len()
        invariant
            start <= i <= rec@.len(),
            no_sep(rec@.subrange(start as int, i as int), sep),
            whole == split_on(rec@, sep),
            whole == fields@.map_values(|f: Vec<char>| f@)
                + split_on(rec@.subrange(start as int, rec@.len() as int), sep),
        decreases rec.len() - i,
    {
        if rec[i] == sep {
            let field = slice_to_vec(slice_subrange(rec, start, i));
            proof {
                let a = rec@.subrange(start as int, i as int);
                let rest = rec@.subrange(i + 1, rec@.len() as int);
                assert(rec@.subrange(start as int, rec@.len() as int)
                    =~= a + seq![sep] + rest);
                lemma_split_on_prefix(a, rest, sep);
                assert(fields@.push(field).map_values(|f: Vec<char>| f@)
                    =~= fields@.map_values(|f: Vec<char>| f@).push(field@));
            }
            fields.push(field);
            start = i + 1;
        }
        i = i + 1;
    }
    let last = slice_to_vec(slice_subrange(rec, start, rec.len()));
    proof {
        let a = rec@.subrange(start as int, rec@.len() as int);
        lemma_split_on_no_sep(a, sep);
        assert(fields@.push(last).map_values(|f: Vec<char>| f@)
            =~= fields@.map_values(|f: Vec<char>| f@).push(last@));
    }
    fields.push(last);
    proof {
        assert(fields@.map_values(|f: Vec<char>| f@) =~~= whole);
    }
    fields
}

/// The whitespace-delimited token runs of `s`, in order; the executable
/// counterpart of `token_runs`.
pub fn tokenize(s: &[char]) -> (ts: Vec<Vec<char>>)
    ensures
        ts@.map_values(|t: Vec<char>| t@) == token_runs(s@),
{
    let ghost whole: Seq<Seq<char>> = token_runs(s@);
    let mut ts: Vec<Vec<char>> = Vec::new();
    let mut i: usize = 0;
    proof {
        assert(s@.subrange(0, s@.len() as int) =~= s@);
        assert(ts@.map_values(|t: Vec<char>| t@)
            + token_runs(s@.subrange(0, s@.len() as int))
            =~= token_runs(s@));
    }
    while i < s.len()
        invariant
            i <= s@.len(),
            whole == token_runs(s@),
            whole == ts@.map_values(|t: Vec<char>| t@)
                + token_runs(s@.subrange(i as int, s@.len() as int)),
        decreases s.len() - i,
    {
        if is_ws_char(s[i]) {
            proof {
                let tail = s@.subrange(i as int, s@.len() as int);
                assert(tail[0] == s@[i as int]);
                lemma_token_runs_ws(tail);
                assert(tail.skip(1) =~= s@.subrange(i + 1, s@.len() as int));
            }
            i = i + 1;
        } else {
            let start = i;
            while i < s.len() && !is_ws_char(s[i])
                invariant
                    start <= i <= s@.len(),
                    start < s@.len(),
                    no_ws(s@.subrange(start as int, i as int)),
                decreases s.len() - i,
            {
                i = i + 1;
            }
            let tok = slice_to_vec(slice_subrange(s, start, i));
            proof {
                let t = s@.subrange(start as int, i as int);
                let rest = s@.subrange(i as int, s@.len() as int);
                assert(s@.subrange(start as int, s@.len() as int) =~= t + rest);
                if rest.len() > 0 {
                    assert(rest[0] == s@[i as int]);
                }
                lemma_token_runs_prefix(t, rest);
                assert(ts@.push(tok).map_values(|t2: Vec<char>| t2@)
                    =~= ts@.map_values(|t2: Vec<char>| t2@).push(tok@));
            }
            ts.push(tok);
        }
    }
    proof {
        assert(s@.subrange(i as int, s@.len() as int) =~= Seq::<char>::empty());
        assert(ts@.map_values(|t: Vec<char>| t@) =~~= whole);
    }
    ts
}

} // verus!
