use provinces::color::Rgb;
use provinces::definition::Kind;
use provinces::definition::Province;
use provinces::filter::Criteria;
use provinces::filter::Rule;
use provinces::filter::create_definitions;
use provinces::paths::Paths;
use provinces::validate::render_blob;

fn prov(id: usize, c: u8, kind: Kind) -> Province {
    Province {
        id,
        rgb: Rgb { r: c, g: c, b: c },
        kind,
        coastal: false,
        terrain: "plains".to_string(),
        continent: 1,
    }
}

#[test]
fn criteria_select_by_id_or_color() {
    let by_id = Criteria::Ids(vec![3, 5], "provinces.txt");
    assert!(by_id.contains(&prov(3, 1, Kind::Land)));
    assert!(!by_id.contains(&prov(4, 1, Kind::Land)));

    let by_color = Criteria::Colors(vec![Rgb { r: 9, g: 9, b: 9 }], "colors.txt");
    assert!(by_color.contains(&prov(1, 9, Kind::Land)));
    assert!(!by_color.contains(&prov(1, 8, Kind::Land)));
}

#[test]
fn rules_whitelist_blacklist_always() {
    let cr = Criteria::Ids(vec![3], "provinces.txt");
    let white = Rule::Whitelist(cr);
    assert!(white.apply(&prov(3, 1, Kind::Land)));
    assert!(!white.apply(&prov(4, 1, Kind::Land)));

    let cr = Criteria::Ids(vec![3], "provinces.txt");
    let blackl = Rule::Blacklist(cr);
    assert!(!blackl.apply(&prov(3, 1, Kind::Land)));
    assert!(blackl.apply(&prov(4, 1, Kind::Land)));

    assert!(Rule::Always.apply(&prov(3, 1, Kind::Land)));
}

#[test]
fn whitelist_filter_reindexes_output() {
    let defs = vec![
        prov(1, 1, Kind::Ocean),
        prov(2, 2, Kind::Land),
        prov(3, 3, Kind::Unknown),
        prov(4, 4, Kind::Land),
    ];
    let rule = Rule::Whitelist(Criteria::Ids(vec![1, 2, 3], "provinces.txt"));
    let (out, removed) = create_definitions(defs, &rule, false);
    // the Unknown record is dropped silently, id 4 is removed by the rule
    assert_eq!(removed, 1);
    assert_eq!(out.len(), 3);
    assert_eq!(out[0], Province::initial());
    assert_eq!(out[1].rgb, Rgb { r: 2, g: 2, b: 2 });
    assert_eq!(out[1].kind, Kind::Land);
    assert_eq!(out[2].rgb, Rgb { r: 1, g: 1, b: 1 });
    assert_eq!(out[2].kind, Kind::Ocean);
    for (i, d) in out.iter().enumerate() {
        assert_eq!(d.id, i);
    }
}

#[test]
fn collapse_rule_keeps_everything_real() {
    let defs = vec![prov(9, 1, Kind::Lake), prov(8, 2, Kind::Land)];
    let (out, removed) = create_definitions(defs, &Rule::Always, false);
    assert_eq!(removed, 0);
    assert_eq!(out.len(), 3);
    // ordered by kind: placeholder (Land), Land, Lake; renumbered from zero
    assert_eq!(out[0], Province::initial());
    assert_eq!(out[1].kind, Kind::Land);
    assert_eq!(out[2].kind, Kind::Lake);
    assert_eq!(out[2].id, 2);
}

#[test]
fn lake_keeping_flag_saves_non_lakes_from_the_rule() {
    let defs = vec![prov(1, 1, Kind::Land), prov(2, 2, Kind::Lake)];
    // the blacklist would drop both, but the flag saves every non-lake
    let rule = Rule::Blacklist(Criteria::Ids(vec![1, 2], "provinces.txt"));
    let (out, removed) = create_definitions(defs, &rule, true);
    assert_eq!(removed, 1);
    assert_eq!(out.len(), 2);
    assert_eq!(out[1].kind, Kind::Land);
}

#[test]
fn ordering_holds_on_every_filtered_output() {
    let defs = vec![
        prov(5, 5, Kind::Lake),
        prov(6, 6, Kind::Ocean),
        prov(7, 7, Kind::Land),
        prov(8, 8, Kind::Ocean),
    ];
    let (out, _) = create_definitions(defs, &Rule::Always, false);
    assert_eq!(out[0], Province::initial());
    let ranks: Vec<u8> = out.iter().map(|d| d.kind.rank()).collect();
    for w in ranks.windows(2) {
        assert!(w[0] <= w[1]);
    }
    for (i, d) in out.iter().enumerate() {
        assert_eq!(d.id, i);
    }
}

#[test]
fn paths_resolve_assembles_all_locations() {
    let p = Paths::resolve("/home/u/hoi4".to_string(), "mymod".to_string());
    assert_eq!(p.hoi4, "/home/u/hoi4");
    assert_eq!(p.mod_id, "mymod");
    assert_eq!(p.state_src, "/home/u/hoi4/history/states");
    assert_eq!(p.state_dest, "/home/u/hoi4/mod/mymod/history/states");
    assert_eq!(p.loc_src, "/home/u/hoi4/localisation/state_names_l_english.yml");
    assert_eq!(p.loc_dest, "/home/u/hoi4/mod/mymod/localisation/state_names_l_english.yml");
}

#[test]
fn color_blob_renders_space_separated_triples() {
    let cs = vec![Rgb { r: 1, g: 2, b: 3 }, Rgb { r: 10, g: 20, b: 30 }];
    assert_eq!(render_blob(&cs), "[1,2,3] [10,20,30]");
    let none: Vec<Rgb> = Vec::new();
    assert_eq!(render_blob(&none), "");
}
