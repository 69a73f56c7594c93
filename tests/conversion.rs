use ogn_tracker::ddb::convert;

#[test]
fn converts_correctly() {
    let line = "'O','AB1234','ASK-21','D-6507','G1','Y','Y'";

    let result = convert(line);
    assert!(result.is_some());

    let aircraft = result.unwrap();
    assert_eq!(aircraft.id, "AB1234");
    assert!(aircraft.call_sign.is_some_and(|v| v == "G1"));
    assert!(aircraft.registration.is_some_and(|v| v == "D-6507"));
    assert!(aircraft.model.is_some_and(|v| v == "ASK-21"));
    assert!(aircraft.visible);
}

#[test]
fn handles_empty_values_correctly() {
    let line = "'O','AB1234','Unknown','','G1','Y','Y'";

    let result = convert(line);
    assert!(result.is_some());

    let aircraft = result.unwrap();
    assert_eq!(aircraft.id, "AB1234");
    assert!(aircraft.call_sign.is_some_and(|v| v == "G1"));
    assert!(aircraft.registration.is_none());
    assert!(aircraft.model.is_none());
    assert!(aircraft.visible);
}

#[test]
fn sets_visible_correctly() {
    assert!(convert("'O','AB1234','','','','Y','Y'").is_some_and(|a| a.visible));
    assert!(convert("'O','AB1234','','','','Y','N'").is_some_and(|a| !a.visible));
    assert!(convert("'O','AB1234','','','','N','Y'").is_some_and(|a| !a.visible));
    assert!(convert("'O','AB1234','','','','N','N'").is_some_and(|a| !a.visible));
}

#[test]
fn skips_comment_lines() {
    assert!(convert("#DEVICE_TYPE,DEVICE_ID,AIRCRAFT_MODEL,REGISTRATION,CN,TRACKED,IDENTIFIED").is_none());
}

#[test]
fn skips_short_records() {
    assert!(convert("'O','AB1234','ASK-21','D-6507','G1','Y'").is_none());
    assert!(convert("").is_none());
}

#[test]
fn skips_records_without_id() {
    assert!(convert("'O','','ASK-21','D-6507','G1','Y','Y'").is_none());
}

#[test]
fn trims_white_space_around_fields() {
    let aircraft = convert("'O', ' AB1234 ' ,'ASK 21 ',\t'D-6507',' G1','Y' , 'Y'\r").unwrap();
    assert_eq!(aircraft.id, "AB1234");
    assert_eq!(aircraft.model.as_deref(), Some("ASK 21"));
    assert_eq!(aircraft.registration.as_deref(), Some("D-6507"));
    assert_eq!(aircraft.call_sign.as_deref(), Some("G1"));
    assert!(aircraft.visible);
}

#[test]
fn extra_fields_are_ignored() {
    let aircraft = convert("'F','DD1234','Discus','D-1234','XY','Y','N','extra'").unwrap();
    assert_eq!(aircraft.id, "DD1234");
    assert!(!aircraft.visible);
}

#[test]
fn lowercase_yes_is_not_affirmative() {
    assert!(convert("'O','AB1234','','','','y','Y'").is_some_and(|a| !a.visible));
}
