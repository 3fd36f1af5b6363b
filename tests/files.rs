use sfgmstenable::{
    add_defaults, append_commands, catalog_settings, ccr_commands, ccr_model_of, command_lines,
    command_settings, parse_commands, parse_gmsts, split_catalog_line, split_command_line,
    CCrEEventType, CcrEvent, CcrModel, EGmstValue, GmstMap, RawSetting,
};

fn lines(v: &[&str]) -> Vec<String> {
    v.iter().map(|s| s.to_string()).collect()
}

fn read_floats(settings: &mut Vec<RawSetting>) {
    for s in settings.iter_mut() {
        s.float_bits = s.text.parse::<f32>().ok().map(f32::to_bits);
    }
}

#[test]
fn catalog_line_is_split_and_trimmed() {
    let s = split_catalog_line("  iCount , 12 ", ',').unwrap();
    assert_eq!(s.name, "iCount");
    assert_eq!(s.text, "12");
    assert_eq!(s.float_bits, None);
    assert!(split_catalog_line("a,b,c", ',').is_none());
    assert!(split_catalog_line("abc", ',').is_none());
    let e = split_catalog_line("bFlag=true", '=').unwrap();
    assert_eq!(e.name, "bFlag");
    assert_eq!(e.text, "true");
}

#[test]
fn first_source_keeps_its_value() {
    let s1 = catalog_settings(&lines(&["iCount,1", "bad line", "bFlag,true"]), ',');
    let s2 = catalog_settings(&lines(&["iCount=5", "iOther=7"]), '=');
    let catalog = parse_gmsts(&vec![s1, s2]);
    assert_eq!(catalog.get("iCount"), Some(EGmstValue::Int(1)));
    assert_eq!(catalog.get("iOther"), Some(EGmstValue::Int(7)));
    assert_eq!(catalog.get("bFlag"), Some(EGmstValue::Bool(true)));
    assert_eq!(catalog.len(), 3);
}

#[test]
fn malformed_catalog_lines_are_skipped() {
    let mut map = GmstMap::new();
    let settings = catalog_settings(&lines(&["iCount,abc", "xName,1", "a,b,c", "uSize,3"]), ',');
    add_defaults(&mut map, &settings);
    assert_eq!(map.len(), 1);
    assert_eq!(map.get("uSize"), Some(EGmstValue::UInt(3)));
}

#[test]
fn catalog_floats_use_the_reading() {
    let mut settings = catalog_settings(&lines(&["fGamma, 1.5"]), ',');
    read_floats(&mut settings);
    let catalog = parse_gmsts(&vec![settings]);
    assert_eq!(catalog.get("fGamma"), Some(EGmstValue::Float(1.5f32.to_bits())));
}

#[test]
fn quoted_name_is_unquoted() {
    let s = split_command_line("setgs \"Foo:Bar\" true").unwrap();
    assert_eq!(s.name, "Foo:Bar");
    assert_eq!(s.text, "true");
    let map = parse_commands(&command_settings(&lines(&["setgs \"bFoo:Bar\" true"])));
    assert_eq!(map.get("bFoo:Bar"), Some(EGmstValue::Bool(true)));
}

#[test]
fn command_keyword_any_case() {
    let map = parse_commands(&command_settings(&lines(&[
        "SetGS iCount 3",
        "setgsiCount 4",
        "setgs iCount 5 6",
        "set iCount 7",
    ])));
    assert_eq!(map.get("iCount"), Some(EGmstValue::Int(3)));
    assert_eq!(map.len(), 1);
}

#[test]
fn last_command_wins() {
    let map = parse_commands(&command_settings(&lines(&[
        "setgs iCount 1",
        "setgs iCount 2",
        "setgs bFlag nope",
    ])));
    assert_eq!(map.get("iCount"), Some(EGmstValue::Int(2)));
    assert_eq!(map.get("bFlag"), None);
}

#[test]
fn append_puts_edited_over_file() {
    let existing = command_settings(&lines(&["setgs ix 1", "setgs iy 3"]));
    let mut edited = GmstMap::new();
    edited.insert("ix".to_string(), EGmstValue::Int(2));
    let merged = append_commands(&existing, &edited);
    assert_eq!(merged.get("ix"), Some(EGmstValue::Int(2)));
    assert_eq!(merged.get("iy"), Some(EGmstValue::Int(3)));
    assert_eq!(merged.len(), 2);
}

#[test]
fn commands_are_sorted_and_capitalized() {
    let mut edited = GmstMap::new();
    edited.insert("fGamma".to_string(), EGmstValue::Float(1.5f32.to_bits()));
    edited.insert("bAlpha".to_string(), EGmstValue::Bool(true));
    let texts: Vec<String> = edited
        .entries()
        .iter()
        .map(|g| match g.value {
            EGmstValue::Float(b) => f32::from_bits(b).to_string(),
            _ => String::new(),
        })
        .collect();
    let out = command_lines(&edited, &texts);
    assert_eq!(out, vec!["setgs bAlpha True".to_string(), "setgs fGamma 1.5".to_string()]);
}

#[test]
fn names_with_colon_are_quoted() {
    let mut edited = GmstMap::new();
    edited.insert("iA:B".to_string(), EGmstValue::Int(-3));
    edited.insert("uZ".to_string(), EGmstValue::UInt(9));
    let out = command_lines(&edited, &vec![]);
    assert_eq!(out, vec!["setgs \"iA:B\" -3".to_string(), "setgs uZ 9".to_string()]);
    let back = parse_commands(&command_settings(&out));
    assert_eq!(back.get("iA:B"), Some(EGmstValue::Int(-3)));
    assert_eq!(back.get("uZ"), Some(EGmstValue::UInt(9)));
}

#[test]
fn event_table_wraps_commands() {
    let model = ccr_model_of(lines(&["setgs iA 1", "setgs iB 2"]));
    assert_eq!(model.event.len(), 1);
    assert!(model.event[0].event_type == CCrEEventType::DataLoaded);
    assert_eq!(ccr_commands(&model), lines(&["setgs iA 1", "setgs iB 2"]));
}

#[test]
fn event_table_commands_flatten_in_order() {
    let model = CcrModel {
        event: vec![
            CcrEvent { event_type: CCrEEventType::DataLoaded, commands: lines(&["a", "b"]) },
            CcrEvent { event_type: CCrEEventType::DataLoaded, commands: vec![] },
            CcrEvent { event_type: CCrEEventType::DataLoaded, commands: lines(&["c"]) },
        ],
    };
    assert_eq!(ccr_commands(&model), lines(&["a", "b", "c"]));
    assert!(ccr_commands(&CcrModel::default()).is_empty());
}
