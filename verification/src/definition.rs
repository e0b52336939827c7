//! The province definition record: its category, its textual record format
//! (`id;r;g;b;kind;coastal;terrain;continent`, one record per line), parsing,
//! serialization, and the proof that the two are inverses.

use vstd::prelude::*;
use crate::color::Rgb;
use crate::numtext::all_digits;
use crate::numtext::dec_chars;
use crate::numtext::digits_val;
use crate::numtext::is_digit_char;
use crate::numtext::lemma_dec_chars_val;
use crate::numtext::parse_uint;
use crate::numtext::parse_uint_spec;
use crate::numtext::render_uint;
use crate::text::is_ws;
use crate::text::lemma_split_on_no_sep;
use crate::text::lemma_split_on_prefix;
use crate::text::lemma_token_runs_prefix;
use crate::text::lemma_token_runs_ws;
use crate::text::no_sep;
use crate::text::no_ws;
use crate::text::split_fields;
use crate::text::split_on;
use crate::text::str_to_chars;
use crate::text::token_runs;
use crate::text::tokenize;

verus! {

/// Province category. The order `Unknown < Land < Ocean < Lake` is the rank
/// used for final output ordering.
#[derive(Debug, Clone, Copy, PartialEq, Eq, Structural)]
pub enum Kind {
    Unknown,
    Land,
    Ocean,
    Lake,
}

impl Kind {
    /// Position in the output order.
    pub open spec fn rank_spec(self) -> int {
        match self {
            Kind::Unknown => 0,
            Kind::Land => 1,
            Kind::Ocean => 2,
            Kind::Lake => 3,
        }
    }

    pub fn rank(self) -> (r: u8)
        ensures
            r as int == self.rank_spec(),
    {
        match self {
            Kind::Unknown => 0,
            Kind::Land => 1,
            Kind::Ocean => 2,
            Kind::Lake => 3,
        }
    }

    /// The stable lowercase textual form.
    pub open spec fn text_spec(self) -> Seq<char> {
        match self {
            Kind::Unknown => "unknown"@,
            Kind::Land => "land"@,
            Kind::Ocean => "ocean"@,
            Kind::Lake => "lake"@,
        }
    }

    pub fn text(self) -> (r: &'static str)
        ensures
            r@ == self.text_spec(),
    {
        match self {
            Kind::Unknown => "unknown",
            Kind::Land => "land",
            Kind::Ocean => "ocean",
            Kind::Lake => "lake",
        }
    }
}

/// The ghost image of a `Province`: the same fields with mathematical types.
pub ghost struct ProvData {
    pub id: int,
    pub rgb: Rgb,
    pub kind: Kind,
    pub coastal: bool,
    pub terrain: Seq<char>,
    pub continent: int,
}

/// One province definition record.
#[derive(Debug, Clone, PartialEq, Eq)]
pub struct Province {
    /// Identity, unique within a valid definition set; 0 is the placeholder's.
    pub id: usize,
    /// The province's color, unique within a valid definition set.
    pub rgb: Rgb,
    pub kind: Kind,
    pub coastal: bool,
    /// Free-form terrain identifier.
    pub terrain: String,
    pub continent: usize,
}

impl View for Province {
    type V = ProvData;

    open spec fn view(&self) -> ProvData {
        ProvData {
            id: self.id as int,
            rgb: self.rgb,
            kind: self.kind,
            coastal: self.coastal,
            terrain: self.terrain@,
            continent: self.continent as int,
        }
    }
}

/// The ghost image of a definition list.
pub open spec fn views_of(defs: Seq<Province>) -> Seq<ProvData> {
    defs.map_values(|p: Province| p@)
}

/// A terrain identifier that the record format can carry: it holds no field
/// separator and no whitespace.
pub open spec fn wf_terrain(t: Seq<char>) -> bool {
    no_sep(t, ';') && no_ws(t)
}

/// Structural validity of one record: field values within the documented
/// ranges, and a terrain the format can carry.
pub open spec fn wf_data(d: ProvData) -> bool {
    &&& 0 <= d.id <= usize::MAX
    &&& 0 <= d.continent <= usize::MAX
    &&& wf_terrain(d.terrain)
}

/// The distinguished placeholder record: id 0, black, always first in output.
pub open spec fn initial_data() -> ProvData {
    ProvData {
        id: 0,
        rgb: Rgb::black_spec(),
        kind: Kind::Land,
        coastal: false,
        terrain: "unknown"@,
        continent: 0,
    }
}

impl Province {
    /// The placeholder province that heads every output set.
    pub fn initial() -> (p: Province)
        ensures
            p@ == initial_data(),
    {
        Province {
            id: 0,
            rgb: Rgb::black(),
            kind: Kind::Land,
            coastal: false,
            terrain: "unknown".to_owned(),
            continent: 0,
        }
    }
}

/// The serialized boolean field.
pub open spec fn bool_chars(b: bool) -> Seq<char> {
    if b {
        "true"@
    } else {
        "false"@
    }
}

/// The serialized record, without its line terminator.
pub open spec fn record_chars(d: ProvData) -> Seq<char> {
    dec_chars(d.id as nat) + seq![';']
        + dec_chars(d.rgb.r as nat) + seq![';']
        + dec_chars(d.rgb.g as nat) + seq![';']
        + dec_chars(d.rgb.b as nat) + seq![';']
        + d.kind.text_spec() + seq![';']
        + bool_chars(d.coastal) + seq![';']
        + d.terrain + seq![';']
        + dec_chars(d.continent as nat)
}

/// The serialized record as one line.
pub open spec fn line_chars(d: ProvData) -> Seq<char> {
    record_chars(d) + seq!['\n']
}

/// What parsing one 8-field record yields.
pub open spec fn parse_record_spec(s: Seq<char>) -> Option<ProvData> {
    let fs = split_on(s, ';');
    if fs.len() == 8 {
        let id = parse_uint_spec(fs[0]);
        let r = parse_byte_spec(fs[1]);
        let g = parse_byte_spec(fs[2]);
        let b = parse_byte_spec(fs[3]);
        let kind = parse_kind_spec(fs[4]);
        let coastal = parse_bool_spec(fs[5]);
        let continent = parse_uint_spec(fs[7]);
        if id is Some && r is Some && g is Some && b is Some && kind is Some
            && coastal is Some && continent is Some {
            Some(ProvData {
                id: id->0 as int,
                rgb: Rgb { r: r->0, g: g->0, b: b->0 },
                kind: kind->0,
                coastal: coastal->0,
                terrain: fs[6],
                continent: continent->0 as int,
            })
        } else {
            None
        }
    } else {
        None
    }
}

/// A color byte: a decimal field whose value fits in one byte.
pub open spec fn parse_byte_spec(s: Seq<char>) -> Option<u8> {
    if s.len() > 0 && all_digits(s) && digits_val(s) <= 255 {
        Some(digits_val(s) as u8)
    } else {
        None
    }
}

pub open spec fn parse_kind_spec(s: Seq<char>) -> Option<Kind> {
    if s == "unknown"@ {
        Some(Kind::Unknown)
    } else if s == "land"@ {
        Some(Kind::Land)
    } else if s == "ocean"@ {
        Some(Kind::Ocean)
    } else if s == "lake"@ {
        Some(Kind::Lake)
    } else {
        None
    }
}

pub open spec fn parse_bool_spec(s: Seq<char>) -> Option<bool> {
    if s == "true"@ {
        Some(true)
    } else if s == "false"@ {
        Some(false)
    } else {
        None
    }
}

/// Whether `f` holds exactly the characters of `s`.
pub fn chars_eq(f: &[char], s: &str) -> (r: bool)
    ensures
        r == (f@ == s@),
{
    let n = s.unicode_len();
    if f.len() != n {
        return false;
    }
    let mut i: usize = 0;
    while i < n
        invariant
            f@.len() == n,
            s@.len() == n,
            i <= n,
            forall|k: int| 0 <= k < i ==> f@[k] == s@[k],
        decreases n - i,
    {
        if f[i] != s.get_char(i) {
            return false;
        }
        i = i + 1;
    }
    proof {
        assert(f@ =~= s@);
    }
    true
}

pub fn parse_kind(f: &[char]) -> (r: Option<Kind>)
    ensures
        r == parse_kind_spec(f@),
{
    if chars_eq(f, "unknown") {
        Some(Kind::Unknown)
    } else if chars_eq(f, "land") {
        Some(Kind::Land)
    } else if chars_eq(f, "ocean") {
        Some(Kind::Ocean)
    } else if chars_eq(f, "lake") {
        Some(Kind::Lake)
    } else {
        None
    }
}

pub fn parse_bool(f: &[char]) -> (r: Option<bool>)
    ensures
        r == parse_bool_spec(f@),
{
    if chars_eq(f, "true") {
        Some(true)
    } else if chars_eq(f, "false") {
        Some(false)
    } else {
        None
    }
}

pub fn parse_byte(f: &[char]) -> (r: Option<u8>)
    ensures
        r == parse_byte_spec(f@),
{
    match parse_uint(f) {
        None => None,
        Some(v) => {
            if v <= 255 {
                Some(v as u8)
            } else {
                None
            }
        },
    }
}

/// Relies on `Iterator::collect` for `String`: the string of exactly the
/// characters of `v`, in order.
#[verifier::external_body]
fn chars_to_string(v: &Vec<char>) -> (s: String)
    ensures
        s@ == v@,
{
    v.iter().collect()
}

/// Parses one record token. Fails exactly when the token does not split on
/// `;` into eight fields, or a field fails its conversion.
pub fn parse_record(rec: &[char]) -> (r: Option<Province>)
    ensures
        r is Some <==> parse_record_spec(rec@) is Some,
        r is Some ==> r->0@ == parse_record_spec(rec@)->0,
{
    let fields = split_fields(rec, ';');
    let ghost fs = split_on(rec@, ';');
    proof {
        assert(fields@.map_values(|f: Vec<char>| f@).len() == fs.len());
    }
    if fields.len() != 8 {
        return None;
    }
    proof {
        assert forall|k: int| 0 <= k < 8 implies #[trigger] fields@[k]@ == fs[k] by {
            assert(fields@.map_values(|f: Vec<char>| f@)[k] == fs[k]);
        }
    }
    let id = match parse_uint(fields[0].as_slice()) {
        Some(v) => v,
        None => { return None; },
    };
    let r = match parse_byte(fields[1].as_slice()) {
        Some(v) => v,
        None => { return None; },
    };
    let g = match parse_byte(fields[2].as_slice()) {
        Some(v) => v,
        None => { return None; },
    };
    let b = match parse_byte(fields[3].as_slice()) {
        Some(v) => v,
        None => { return None; },
    };
    let kind = match parse_kind(fields[4].as_slice()) {
        Some(v) => v,
        None => { return None; },
    };
    let coastal = match parse_bool(fields[5].as_slice()) {
        Some(v) => v,
        None => { return None; },
    };
    let continent = match parse_uint(fields[7].as_slice()) {
        Some(v) => v,
        None => { return None; },
    };
    let terrain = chars_to_string(&fields[6]);
    Some(Province { id, rgb: Rgb { r, g, b }, kind, coastal, terrain, continent })
}

/// Serializes one record as one line, its fields separated by `;` and the
/// line closed by a newline.
pub fn serialize_province(p: &Province) -> (out: String)
    ensures
        out@ == line_chars(p@),
{
    let mut s = render_uint(p.id);
    s.append(";");
    s.append(render_uint(p.rgb.r as usize).as_str());
    s.append(";");
    s.append(render_uint(p.rgb.g as usize).as_str());
    s.append(";");
    s.append(render_uint(p.rgb.b as usize).as_str());
    s.append(";");
    s.append(p.kind.text());
    s.append(";");
    if p.coastal {
        s.append("true");
    } else {
        s.append("false");
    }
    s.append(";");
    s.append(p.terrain.as_str());
    s.append(";");
    s.append(render_uint(p.continent).as_str());
    s.append("\n");
    proof {
        reveal_strlit(";");
        reveal_strlit("\n");
        assert(";"@ =~= seq![';']);
        assert("\n"@ =~= seq!['\n']);
    }
    s
}

/// The whole serialized definition set: each record's line, in order.
pub open spec fn defs_chars(ds: Seq<ProvData>) -> Seq<char>
    decreases ds.len(),
{
    if ds.len() == 0 {
        Seq::<char>::empty()
    } else {
        line_chars(ds[0]) + defs_chars(ds.skip(1))
    }
}

/// Serializes a whole definition set, one line per record.
pub fn serialize_defs(defs: &Vec<Province>) -> (out: String)
    ensures
        out@ == defs_chars(defs@.map_values(|p: Province| p@)),
{
    let ghost ds = defs@.map_values(|p: Province| p@);
    let mut out = String::new();
    let mut i: usize = 0;
    proof {
        assert(ds.take(0) =~= Seq::<ProvData>::empty());
        assert(out@ =~= defs_chars(ds.take(0)));
    }
    while i < defs.len()
        invariant
            i <= defs@.len(),
            ds == defs@.map_values(|p: Province| p@),
            out@ == defs_chars(ds.take(i as int)),
        decreases defs.len() - i,
    {
        let line = serialize_province(&defs[i]);
        out.append(line.as_str());
        proof {
            lemma_defs_chars_snoc(ds.take(i as int), ds[i as int]);
            assert(ds.take(i + 1) =~= ds.take(i as int).push(ds[i as int]));
        }
        i = i + 1;
    }
    proof {
        assert(ds.take(ds.len() as int) =~= ds);
    }
    out
}

/// Appending one record appends its line.
proof fn lemma_defs_chars_snoc(ds: Seq<ProvData>, d: ProvData)
    ensures
        defs_chars(ds.push(d)) == defs_chars(ds) + line_chars(d),
    decreases ds.len(),
{
    if ds.len() == 0 {
        assert(ds.push(d)[0] == d);
        assert(ds.push(d).skip(1) =~= Seq::<ProvData>::empty());
        assert(defs_chars(ds.push(d).skip(1)) == Seq::<char>::empty());
        assert(defs_chars(ds.push(d)) == line_chars(d) + Seq::<char>::empty());
        assert(line_chars(d) + Seq::<char>::empty()
            =~= defs_chars(ds) + line_chars(d));
    } else {
        assert(ds.push(d)[0] == ds[0]);
        assert(ds.push(d).skip(1) =~= ds.skip(1).push(d));
        lemma_defs_chars_snoc(ds.skip(1), d);
        assert(defs_chars(ds.push(d))
            == line_chars(ds[0]) + (defs_chars(ds.skip(1)) + line_chars(d)));
        assert(defs_chars(ds) == line_chars(ds[0]) + defs_chars(ds.skip(1)));
        assert(line_chars(ds[0]) + (defs_chars(ds.skip(1)) + line_chars(d))
            =~= (line_chars(ds[0]) + defs_chars(ds.skip(1))) + line_chars(d));
    }
}

/// What parsing a whole definition file yields: every whitespace-delimited
/// token parsed as a record, or nothing if any token fails.
pub open spec fn parse_defs_spec(s: Seq<char>) -> Option<Seq<ProvData>> {
    let ts = token_runs(s);
    if forall|i: int| 0 <= i < ts.len() ==> parse_record_spec(#[trigger] ts[i]) is Some {
        Some(Seq::new(ts.len(), |i: int| parse_record_spec(ts[i])->0))
    } else {
        None
    }
}

/// Parses a definition file: one record per whitespace-delimited token run.
/// A single malformed record aborts the whole read.
pub fn parse_csv(data: &str) -> (r: Option<Vec<Province>>)
    ensures
        r is Some <==> parse_defs_spec(data@) is Some,
        r is Some ==> r->0@.map_values(|p: Province| p@) == parse_defs_spec(data@)->0,
{
    let chars = str_to_chars(data);
    let toks = tokenize(chars.as_slice());
    let ghost ts = token_runs(data@);
    proof {
        assert(toks@.map_values(|t: Vec<char>| t@) == ts);
    }
    let mut out: Vec<Province> = Vec::new();
    let mut i: usize = 0;
    while i < toks.len()
        invariant
            i <= toks@.len(),
            ts == token_runs(data@),
            toks@.map_values(|t: Vec<char>| t@) == ts,
            out@.len() == i,
            forall|k: int| 0 <= k < i ==> parse_record_spec(#[trigger] ts[k]) is Some,
            forall|k: int| 0 <= k < i ==> #[trigger] out@[k]@ == parse_record_spec(ts[k])->0,
        decreases toks.len() - i,
    {
        proof {
            assert(toks@.map_values(|t: Vec<char>| t@)[i as int] == ts[i as int]);
        }
        match parse_record(toks[i].as_slice()) {
            None => {
                return None;
            },
            Some(p) => {
                out.push(p);
            },
        }
        i = i + 1;
    }
    proof {
        let parsed = Seq::new(ts.len(), |k: int| parse_record_spec(ts[k])->0);
        assert(out@.map_values(|p: Province| p@) =~= parsed);
    }
    Some(out)
}

/// Digit text never holds a separator or whitespace.
pub proof fn lemma_digits_clean(s: Seq<char>)
    requires
        all_digits(s),
    ensures
        no_sep(s, ';'),
        no_ws(s),
{
    assert forall|i: int| 0 <= i < s.len() implies #[trigger] s[i] != ';' && !is_ws(s[i]) by {
        assert(is_digit_char(s[i]));
    }
}

/// The four category tokens and the two boolean tokens hold no separator and
/// no whitespace, and differ from one another.
proof fn lemma_tokens_clean()
    ensures
        no_sep("unknown"@, ';'), no_ws("unknown"@),
        no_sep("land"@, ';'), no_ws("land"@),
        no_sep("ocean"@, ';'), no_ws("ocean"@),
        no_sep("lake"@, ';'), no_ws("lake"@),
        no_sep("true"@, ';'), no_ws("true"@),
        no_sep("false"@, ';'), no_ws("false"@),
        "unknown"@ != "land"@, "unknown"@ != "ocean"@, "unknown"@ != "lake"@,
        "land"@ != "ocean"@, "land"@ != "lake"@, "ocean"@ != "lake"@,
        "true"@ != "false"@,
{
    reveal_strlit("unknown");
    reveal_strlit("land");
    reveal_strlit("ocean");
    reveal_strlit("lake");
    reveal_strlit("true");
    reveal_strlit("false");
    assert("unknown"@.len() == 7);
    assert("land"@.len() == 4);
    assert("ocean"@.len() == 5);
    assert("lake"@.len() == 4);
    assert("true"@.len() == 4);
    assert("false"@.len() == 5);
    assert("land"@[2] == 'n');
    assert("lake"@[2] == 'k');
}

/// A serialized record splits on `;` into exactly its eight fields.
#[verifier::rlimit(100)]
proof fn lemma_record_fields(d: ProvData)
    requires
        wf_data(d),
    ensures
        split_on(record_chars(d), ';') == seq![
            dec_chars(d.id as nat),
            dec_chars(d.rgb.r as nat),
            dec_chars(d.rgb.g as nat),
            dec_chars(d.rgb.b as nat),
            d.kind.text_spec(),
            bool_chars(d.coastal),
            d.terrain,
            dec_chars(d.continent as nat),
        ],
{
    let f0 = dec_chars(d.id as nat);
    let f1 = dec_chars(d.rgb.r as nat);
    let f2 = dec_chars(d.rgb.g as nat);
    let f3 = dec_chars(d.rgb.b as nat);
    let f4 = d.kind.text_spec();
    let f5 = bool_chars(d.coastal);
    let f6 = d.terrain;
    let f7 = dec_chars(d.continent as nat);

    lemma_dec_chars_val(d.id as nat);
    lemma_dec_chars_val(d.rgb.r as nat);
    lemma_dec_chars_val(d.rgb.g as nat);
    lemma_dec_chars_val(d.rgb.b as nat);
    lemma_dec_chars_val(d.continent as nat);
    lemma_digits_clean(f0);
    lemma_digits_clean(f1);
    lemma_digits_clean(f2);
    lemma_digits_clean(f3);
    lemma_digits_clean(f7);
    lemma_tokens_clean();

    let s7 = f7;
    let s6 = f6 + seq![';'] + s7;
    let s5 = f5 + seq![';'] + s6;
    let s4 = f4 + seq![';'] + s5;
    let s3 = f3 + seq![';'] + s4;
    let s2 = f2 + seq![';'] + s3;
    let s1 = f1 + seq![';'] + s2;
    let s0 = f0 + seq![';'] + s1;
    assert(record_chars(d) =~= s0);

    lemma_split_on_no_sep(s7, ';');
    lemma_split_on_prefix(f6, s7, ';');
    lemma_split_on_prefix(f5, s6, ';');
    lemma_split_on_prefix(f4, s5, ';');
    lemma_split_on_prefix(f3, s4, ';');
    lemma_split_on_prefix(f2, s3, ';');
    lemma_split_on_prefix(f1, s2, ';');
    lemma_split_on_prefix(f0, s1, ';');

    assert(split_on(s0, ';')
        =~~= seq![f0, f1, f2, f3, f4, f5, f6, f7]);
}

/// Round trip: parsing a serialized record yields the record back, for every
/// structurally valid field combination.
pub proof fn lemma_record_round_trip(d: ProvData)
    requires
        wf_data(d),
    ensures
        parse_record_spec(record_chars(d)) == Some(d),
{
    let f0 = dec_chars(d.id as nat);
    let f1 = dec_chars(d.rgb.r as nat);
    let f2 = dec_chars(d.rgb.g as nat);
    let f3 = dec_chars(d.rgb.b as nat);
    let f4 = d.kind.text_spec();
    let f5 = bool_chars(d.coastal);
    let f6 = d.terrain;
    let f7 = dec_chars(d.continent as nat);

    lemma_record_fields(d);
    let fs = split_on(record_chars(d), ';');
    assert(fs.len() == 8);
    assert(fs[0] == f0 && fs[1] == f1 && fs[2] == f2 && fs[3] == f3);
    assert(fs[4] == f4 && fs[5] == f5 && fs[6] == f6 && fs[7] == f7);

    lemma_dec_chars_val(d.id as nat);
    lemma_dec_chars_val(d.rgb.r as nat);
    lemma_dec_chars_val(d.rgb.g as nat);
    lemma_dec_chars_val(d.rgb.b as nat);
    lemma_dec_chars_val(d.continent as nat);
    lemma_tokens_clean();

    assert(parse_uint_spec(f0) == Some(d.id as usize));
    assert(parse_byte_spec(f1) == Some(d.rgb.r));
    assert(parse_byte_spec(f2) == Some(d.rgb.g));
    assert(parse_byte_spec(f3) == Some(d.rgb.b));
    assert(parse_kind_spec(f4) == Some(d.kind));
    assert(parse_bool_spec(f5) == Some(d.coastal));
    assert(parse_uint_spec(f7) == Some(d.continent as usize));
}

/// Concatenation keeps text clean of whitespace.
proof fn lemma_no_ws_concat(a: Seq<char>, b: Seq<char>)
    requires
        no_ws(a),
        no_ws(b),
    ensures
        no_ws(a + b),
{
    assert forall|i: int| 0 <= i < (a + b).len() implies !is_ws(#[trigger] (a + b)[i]) by {
        if i < a.len() {
            assert((a + b)[i] == a[i]);
        } else {
            assert((a + b)[i] == b[i - a.len()]);
        }
    }
}

/// A well-formed record serializes to one non-empty token without
/// whitespace.
proof fn lemma_record_clean(d: ProvData)
    requires
        wf_data(d),
    ensures
        record_chars(d).len() > 0,
        no_ws(record_chars(d)),
{
    let semi = seq![';'];
    assert(no_ws(semi)) by {
        assert forall|i: int| 0 <= i < semi.len() implies !is_ws(#[trigger] semi[i]) by {
            assert(semi[i] == ';');
        }
    }
    lemma_dec_chars_val(d.id as nat);
    lemma_dec_chars_val(d.rgb.r as nat);
    lemma_dec_chars_val(d.rgb.g as nat);
    lemma_dec_chars_val(d.rgb.b as nat);
    lemma_dec_chars_val(d.continent as nat);
    lemma_digits_clean(dec_chars(d.id as nat));
    lemma_digits_clean(dec_chars(d.rgb.r as nat));
    lemma_digits_clean(dec_chars(d.rgb.g as nat));
    lemma_digits_clean(dec_chars(d.rgb.b as nat));
    lemma_digits_clean(dec_chars(d.continent as nat));
    lemma_tokens_clean();
    let t1 = dec_chars(d.id as nat) + semi;
    lemma_no_ws_concat(dec_chars(d.id as nat), semi);
    let t2 = t1 + dec_chars(d.rgb.r as nat);
    lemma_no_ws_concat(t1, dec_chars(d.rgb.r as nat));
    let t3 = t2 + semi;
    lemma_no_ws_concat(t2, semi);
    let t4 = t3 + dec_chars(d.rgb.g as nat);
    lemma_no_ws_concat(t3, dec_chars(d.rgb.g as nat));
    let t5 = t4 + semi;
    lemma_no_ws_concat(t4, semi);
    let t6 = t5 + dec_chars(d.rgb.b as nat);
    lemma_no_ws_concat(t5, dec_chars(d.rgb.b as nat));
    let t7 = t6 + semi;
    lemma_no_ws_concat(t6, semi);
    let t8 = t7 + d.kind.text_spec();
    lemma_no_ws_concat(t7, d.kind.text_spec());
    let t9 = t8 + semi;
    lemma_no_ws_concat(t8, semi);
    let t10 = t9 + bool_chars(d.coastal);
    lemma_no_ws_concat(t9, bool_chars(d.coastal));
    let t11 = t10 + semi;
    lemma_no_ws_concat(t10, semi);
    let t12 = t11 + d.terrain;
    lemma_no_ws_concat(t11, d.terrain);
    let t13 = t12 + semi;
    lemma_no_ws_concat(t12, semi);
    let t14 = t13 + dec_chars(d.continent as nat);
    lemma_no_ws_concat(t13, dec_chars(d.continent as nat));
    assert(record_chars(d) == t14);
}

/// The serialized file cuts back into exactly its record tokens, one per
/// line.
proof fn lemma_file_tokens(ds: Seq<ProvData>)
    requires
        forall|i: int| 0 <= i < ds.len() ==> wf_data(#[trigger] ds[i]),
    ensures
        token_runs(defs_chars(ds)) == Seq::new(ds.len(), |i: int| record_chars(ds[i])),
    decreases ds.len(),
{
    if ds.len() == 0 {
        assert(token_runs(defs_chars(ds)) =~= Seq::new(ds.len(), |i: int| record_chars(ds[i])));
    } else {
        let d0 = ds[0];
        let rest = defs_chars(ds.skip(1));
        lemma_record_clean(d0);
        assert forall|i: int| 0 <= i < ds.skip(1).len()
            implies wf_data(#[trigger] ds.skip(1)[i]) by {
            assert(ds.skip(1)[i] == ds[i + 1]);
        }
        lemma_file_tokens(ds.skip(1));
        let nl = seq!['\n'];
        assert(defs_chars(ds) == line_chars(d0) + rest);
        assert(line_chars(d0) + rest =~= record_chars(d0) + (nl + rest));
        assert((nl + rest)[0] == '\n');
        lemma_token_runs_prefix(record_chars(d0), nl + rest);
        lemma_token_runs_ws(nl + rest);
        assert((nl + rest).skip(1) =~= rest);
        assert(token_runs(defs_chars(ds))
            =~= Seq::new(ds.len(), |i: int| record_chars(ds[i])));
    }
}

/// Round trip for a whole definition set: parsing the serialized file
/// yields the same records, for every structurally valid set.
pub proof fn lemma_file_round_trip(ds: Seq<ProvData>)
    requires
        forall|i: int| 0 <= i < ds.len() ==> wf_data(#[trigger] ds[i]),
    ensures
        parse_defs_spec(defs_chars(ds)) == Some(ds),
{
    lemma_file_tokens(ds);
    let ts = token_runs(defs_chars(ds));
    assert forall|i: int| 0 <= i < ts.len()
        implies parse_record_spec(#[trigger] ts[i]) is Some
            && parse_record_spec(ts[i])->0 == ds[i] by {
        assert(ts[i] == record_chars(ds[i]));
        lemma_record_round_trip(ds[i]);
    }
    assert(Seq::new(ts.len(), |i: int| parse_record_spec(ts[i])->0) =~= ds);
}

} // verus!
