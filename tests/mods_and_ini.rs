use sfgmstenable::{
    add_command_to_ini, get_bat_order, get_command_line, get_mod_file_path, get_mods_folder,
    refresh_bat_mods, refresh_ccr_mods, refresh_mods, EModType,
};

fn lines(v: &[&str]) -> Vec<String> {
    v.iter().map(|s| s.to_string()).collect()
}

#[test]
fn load_order_first_then_the_rest() {
    let found = lines(&["a.txt", "b.txt", "c.txt"]);
    let mods = refresh_bat_mods(&found, &lines(&["b", "a"]));
    let names: Vec<&str> = mods.iter().map(|m| m.name.as_str()).collect();
    assert_eq!(names, vec!["b.txt", "a.txt", "c.txt"]);
    let enabled: Vec<bool> = mods.iter().map(|m| m.enabled).collect();
    assert_eq!(enabled, vec![true, true, false]);
    assert_eq!(mods[0].path, "./b.txt");
    assert!(mods.iter().all(|m| m.mod_type == EModType::BatMod && !m.overlay_enabled));
}

#[test]
fn missing_load_order_entry_is_dropped() {
    let found = lines(&["a.txt", "readme.md", "c.txt"]);
    let mods = refresh_bat_mods(&found, &lines(&["gone", "c", "c"]));
    let names: Vec<&str> = mods.iter().map(|m| m.name.as_str()).collect();
    assert_eq!(names, vec!["c.txt", "a.txt"]);
    assert!(mods[0].enabled);
    assert!(!mods[1].enabled);
}

#[test]
fn no_load_order_keeps_discovery_order() {
    let found = lines(&["z.txt", ".txt", "m.txt", "x.toml"]);
    let mods = refresh_mods(false, &found, &vec![]);
    let names: Vec<&str> = mods.iter().map(|m| m.name.as_str()).collect();
    assert_eq!(names, vec!["z.txt", "m.txt"]);
    assert!(mods.iter().all(|m| !m.enabled));
}

#[test]
fn event_table_mods_sorted_by_name() {
    let found = lines(&["b.toml", "a.toml", "c.txt", "B.toml"]);
    let mods = refresh_ccr_mods(&found);
    let names: Vec<&str> = mods.iter().map(|m| m.name.as_str()).collect();
    assert_eq!(names, vec!["B.toml", "a.toml", "b.toml"]);
    assert_eq!(mods[1].path, "./Data/SFSE/Plugins/ConsoleCommandRunner/a.toml");
    assert!(mods.iter().all(|m| m.mod_type == EModType::CcrMod && !m.enabled));
    assert_eq!(refresh_mods(true, &found, &vec![]).len(), 3);
}

#[test]
fn mod_paths() {
    assert_eq!(get_mods_folder(false), "./");
    assert_eq!(get_mods_folder(true), "./Data/SFSE/Plugins/ConsoleCommandRunner");
    assert_eq!(get_mod_file_path(false, "my_gmsts"), "./my_gmsts.txt");
    assert_eq!(
        get_mod_file_path(true, "my_gmsts"),
        "./Data/SFSE/Plugins/ConsoleCommandRunner/my_gmsts.toml"
    );
}

#[test]
fn rooted_file_name_replaces_the_folder() {
    assert_eq!(get_mod_file_path(false, "/x"), "/x.txt");
    assert_eq!(get_mod_file_path(true, "/tmp/y"), "/tmp/y.toml");
}

#[test]
fn command_line_strips_txt() {
    assert_eq!(
        get_command_line(&lines(&["foo.txt", "bar"])),
        "sStartingConsoleCommand=bat foo;bat bar;"
    );
    assert_eq!(get_command_line(&vec![]), "sStartingConsoleCommand=");
    assert_eq!(get_command_line(&lines(&["a.txt.txt"])), "sStartingConsoleCommand=bat a.txt;");
}

#[test]
fn load_order_read_from_ini() {
    let ini = lines(&[
        "[General]",
        "sStartingConsoleCommand=bat foo; bat bar ;notbat;bat;",
        "sOther=bat x;",
    ]);
    assert_eq!(get_bat_order(&ini), lines(&["foo", "bar"]));
    assert!(get_bat_order(&lines(&["[General]"])).is_empty());
}

#[test]
fn directive_replaced_in_place() {
    let ini = lines(&["; top", "[General]", "sStartingConsoleCommand=bat old;", "bFoo=1", "[Display]"]);
    let r = add_command_to_ini(&ini, &lines(&["foo.txt", "bar"]));
    assert_eq!(
        r.lines,
        lines(&["; top", "[General]", "sStartingConsoleCommand=bat foo;bat bar;", "bFoo=1", "[Display]"])
    );
    assert!(!r.malformed);
}

#[test]
fn general_section_added_when_missing() {
    let ini = lines(&["[Display]", "iSize=3"]);
    let r = add_command_to_ini(&ini, &lines(&["foo"]));
    assert_eq!(
        r.lines,
        lines(&["[Display]", "iSize=3", "", "[General]", "sStartingConsoleCommand=bat foo;"])
    );
    assert!(!r.malformed);
}

#[test]
fn directive_goes_after_general_header() {
    let ini = lines(&["[General]", "bFoo=1"]);
    let r = add_command_to_ini(&ini, &lines(&["foo"]));
    assert_eq!(r.lines, lines(&["[General]", "sStartingConsoleCommand=bat foo;", "bFoo=1"]));
}

#[test]
fn directive_outside_general_is_malformed() {
    let ini = lines(&["sStartingConsoleCommand=bat old;", "[Display]"]);
    let r = add_command_to_ini(&ini, &lines(&["new"]));
    assert_eq!(r.lines, lines(&["sStartingConsoleCommand=bat new;", "[Display]"]));
    assert!(r.malformed);
}
