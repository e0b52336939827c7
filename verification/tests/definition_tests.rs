use provinces::color::Rgb;
use provinces::definition::Kind;
use provinces::definition::Province;
use provinces::definition::parse_csv;
use provinces::definition::parse_record;
use provinces::definition::serialize_defs;
use provinces::definition::serialize_province;
use provinces::numtext::parse_uint;
use provinces::numtext::render_uint;

fn prov(id: usize, r: u8, g: u8, b: u8, kind: Kind, coastal: bool, terrain: &str, continent: usize) -> Province {
    Province {
        id,
        rgb: Rgb { r, g, b },
        kind,
        coastal,
        terrain: terrain.to_string(),
        continent,
    }
}

fn chars(s: &str) -> Vec<char> {
    s.chars().collect()
}

#[test]
fn render_and_parse_numbers() {
    assert_eq!(render_uint(0), "0");
    assert_eq!(render_uint(7), "7");
    assert_eq!(render_uint(12345), "12345");
    assert_eq!(parse_uint(&chars("12345")), Some(12345));
    assert_eq!(parse_uint(&chars("0")), Some(0));
    assert_eq!(parse_uint(&chars("007")), Some(7));
    assert_eq!(parse_uint(&chars("")), None);
    assert_eq!(parse_uint(&chars("12a")), None);
    assert_eq!(parse_uint(&chars("99999999999999999999999999")), None);
}

#[test]
fn serialize_exact_line() {
    let p = prov(12, 34, 56, 78, Kind::Ocean, true, "shallow_sea", 3);
    assert_eq!(serialize_province(&p), "12;34;56;78;ocean;true;shallow_sea;3\n");
    let q = prov(0, 0, 0, 0, Kind::Land, false, "unknown", 0);
    assert_eq!(serialize_province(&q), "0;0;0;0;land;false;unknown;0\n");
}

#[test]
fn parse_record_round_trip_all_kinds() {
    let cases = vec![
        prov(1, 10, 20, 30, Kind::Unknown, false, "hills", 2),
        prov(2, 0, 0, 0, Kind::Land, true, "plains", 0),
        prov(65535, 255, 255, 255, Kind::Ocean, false, "deep_ocean", 9),
        prov(3, 7, 8, 9, Kind::Lake, true, "lake", 1),
    ];
    for p in cases {
        let line = serialize_province(&p);
        let token: Vec<char> = line.trim_end().chars().collect();
        let parsed = parse_record(&token).expect("round trip must parse");
        assert_eq!(parsed, p);
    }
}

#[test]
fn parse_record_rejects_malformed() {
    // wrong field count
    assert!(parse_record(&chars("1;2;3;4;land;true;x")).is_none());
    assert!(parse_record(&chars("1;2;3;4;land;true;x;0;extra")).is_none());
    // bad integer
    assert!(parse_record(&chars("a;2;3;4;land;true;x;0")).is_none());
    // color byte out of range
    assert!(parse_record(&chars("1;256;3;4;land;true;x;0")).is_none());
    // unknown kind token
    assert!(parse_record(&chars("1;2;3;4;swamp;true;x;0")).is_none());
    // kind tokens are lowercase
    assert!(parse_record(&chars("1;2;3;4;Land;true;x;0")).is_none());
    // bad boolean
    assert!(parse_record(&chars("1;2;3;4;land;yes;x;0")).is_none());
    // empty record
    assert!(parse_record(&chars("")).is_none());
}

#[test]
fn parse_csv_whole_file() {
    let text = "1;10;20;30;land;false;hills;2\n2;40;50;60;ocean;true;sea;0\n";
    let defs = parse_csv(text).expect("well-formed file must parse");
    assert_eq!(defs.len(), 2);
    assert_eq!(defs[0], prov(1, 10, 20, 30, Kind::Land, false, "hills", 2));
    assert_eq!(defs[1], prov(2, 40, 50, 60, Kind::Ocean, true, "sea", 0));
}

#[test]
fn parse_csv_tolerates_extra_whitespace() {
    let text = "  1;10;20;30;land;false;hills;2\r\n\n   2;40;50;60;lake;true;lake;0  ";
    let defs = parse_csv(text).expect("whitespace-separated records parse");
    assert_eq!(defs.len(), 2);
    assert_eq!(defs[1].kind, Kind::Lake);
}

#[test]
fn parse_csv_aborts_on_one_bad_record() {
    let text = "1;10;20;30;land;false;hills;2\n2;40;50;60;bogus;true;sea;0\n";
    assert!(parse_csv(text).is_none());
}

#[test]
fn serialize_whole_set_and_read_back() {
    let defs = vec![
        prov(0, 0, 0, 0, Kind::Land, false, "unknown", 0),
        prov(1, 10, 20, 30, Kind::Land, false, "hills", 2),
        prov(2, 40, 50, 60, Kind::Ocean, true, "sea", 0),
    ];
    let text = serialize_defs(&defs);
    assert_eq!(
        text,
        "0;0;0;0;land;false;unknown;0\n1;10;20;30;land;false;hills;2\n2;40;50;60;ocean;true;sea;0\n"
    );
    let back = parse_csv(&text).expect("serialized set parses");
    assert_eq!(back, defs);
}

#[test]
fn initial_province_is_the_placeholder() {
    let p = Province::initial();
    assert_eq!(p, prov(0, 0, 0, 0, Kind::Land, false, "unknown", 0));
}
