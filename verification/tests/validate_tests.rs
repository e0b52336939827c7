use provinces::color::Rgb;
use provinces::definition::Kind;
use provinces::definition::Province;
use provinces::validate::validate_defs;

fn prov(id: usize, r: u8, g: u8, b: u8) -> Province {
    Province {
        id,
        rgb: Rgb { r, g, b },
        kind: Kind::Land,
        coastal: false,
        terrain: "plains".to_string(),
        continent: 1,
    }
}

#[test]
fn valid_set_passes() {
    let defs = vec![prov(1, 1, 1, 1), prov(2, 2, 2, 2), prov(3, 3, 3, 3)];
    assert!(validate_defs(&defs, false).is_ok());
    assert!(validate_defs(&defs, true).is_ok());
}

#[test]
fn empty_set_passes() {
    let defs: Vec<Province> = Vec::new();
    assert!(validate_defs(&defs, false).is_ok());
}

#[test]
fn duplicate_id_gives_exactly_one_entry() {
    let defs = vec![prov(7, 1, 1, 1), prov(7, 2, 2, 2)];
    let err = validate_defs(&defs, false).unwrap_err();
    assert_eq!(err.invalid_items.len(), 1);
    assert_eq!(
        err.invalid_items[0],
        "duplicate ids exist: 7=[1, 1, 1], 7=[2, 2, 2]"
    );
    assert!(err.dump.is_none());
}

#[test]
fn duplicate_color_gives_exactly_one_entry() {
    let defs = vec![prov(1, 9, 9, 9), prov(2, 9, 9, 9)];
    let err = validate_defs(&defs, false).unwrap_err();
    assert_eq!(err.invalid_items.len(), 1);
    assert_eq!(
        err.invalid_items[0],
        "duplicate colors exist: 1=[9, 9, 9], 2=[9, 9, 9]"
    );
}

#[test]
fn duplicate_id_and_color_gives_two_entries() {
    let defs = vec![prov(7, 9, 9, 9), prov(7, 9, 9, 9)];
    let err = validate_defs(&defs, false).unwrap_err();
    assert_eq!(err.invalid_items.len(), 2);
    assert_eq!(
        err.invalid_items[0],
        "duplicate ids exist: 7=[9, 9, 9], 7=[9, 9, 9]"
    );
    assert_eq!(
        err.invalid_items[1],
        "duplicate colors exist: 7=[9, 9, 9], 7=[9, 9, 9]"
    );
}

#[test]
fn three_records_sharing_an_id_give_two_entries() {
    let defs = vec![prov(5, 1, 1, 1), prov(5, 2, 2, 2), prov(5, 3, 3, 3)];
    let err = validate_defs(&defs, false).unwrap_err();
    // one entry per repeat of the first-seen id, not one per record
    assert_eq!(err.invalid_items.len(), 2);
}

#[test]
fn conflicts_reference_the_first_seen_record() {
    let defs = vec![prov(1, 1, 1, 1), prov(2, 2, 2, 2), prov(1, 3, 3, 3)];
    let err = validate_defs(&defs, false).unwrap_err();
    assert_eq!(
        err.invalid_items,
        vec!["duplicate ids exist: 1=[1, 1, 1], 1=[3, 3, 3]".to_string()]
    );
}

#[test]
fn dump_partitions_conflicting_from_regular_colors() {
    let defs = vec![
        prov(1, 9, 9, 9),
        prov(2, 5, 5, 5),
        prov(3, 9, 9, 9),
        prov(4, 6, 6, 6),
    ];
    let err = validate_defs(&defs, true).unwrap_err();
    let (conflicting, regular) = err.dump.expect("diagnostics were requested");
    assert_eq!(conflicting, "[9,9,9]");
    assert_eq!(regular, "[5,5,5] [6,6,6]");
}

#[test]
fn dump_not_computed_unless_requested() {
    let defs = vec![prov(1, 9, 9, 9), prov(2, 9, 9, 9)];
    let err = validate_defs(&defs, false).unwrap_err();
    assert!(err.dump.is_none());
}

#[test]
fn describe_joins_conflicts_with_line_breaks() {
    let defs = vec![prov(7, 9, 9, 9), prov(7, 9, 9, 9)];
    let err = validate_defs(&defs, false).unwrap_err();
    assert_eq!(
        err.describe(),
        "duplicate ids exist: 7=[9, 9, 9], 7=[9, 9, 9]\nduplicate colors exist: 7=[9, 9, 9], 7=[9, 9, 9]"
    );
}
