//! Reading settings out of catalog sources and command files: the default
//! catalog, where the first value of a name stays, and command maps, where
//! the last one does.
use vstd::prelude::*;

use crate::gmst_map::GmstMap;
use crate::setting_line::{catalog_line, command_line, split_catalog_line, split_command_line, RawSetting};
use crate::value::{parse_gmst, parse_spec, EGmstValue};

verus! {

/// A setting as written: name, value text, and the caller's float reading.
pub type SettingView = (Seq<char>, Seq<char>, Option<u32>);

pub type Settings = Map<Seq<char>, EGmstValue>;

pub open spec fn texts_of(lines: Seq<String>) -> Seq<Seq<char>> {
    lines.map_values(|l: String| l@)
}

pub open spec fn settings_of(s: Seq<RawSetting>) -> Seq<SettingView> {
    s.map_values(|x: RawSetting| x@)
}

/// The settings that the catalog lines hold, in order; other lines are
/// passed over.
pub open spec fn catalog_settings_spec(lines: Seq<Seq<char>>, sep: char) -> Seq<SettingView>
    decreases lines.len(),
{
    if lines.len() == 0 {
        Seq::empty()
    } else {
        let prev = catalog_settings_spec(lines.drop_last(), sep);
        match catalog_line(lines.last(), sep) {
            Some((n, t)) => prev.push((n, t, None)),
            None => prev,
        }
    }
}

/// The settings that the command lines hold, in order; other lines are
/// passed over.
pub open spec fn command_settings_spec(lines: Seq<Seq<char>>) -> Seq<SettingView>
    decreases lines.len(),
{
    if lines.len() == 0 {
        Seq::empty()
    } else {
        let prev = command_settings_spec(lines.drop_last());
        match command_line(lines.last()) {
            Some((n, t)) => prev.push((n, t, None)),
            None => prev,
        }
    }
}

/// The settings of the lines of a catalog source whose fields are parted by `sep`.
pub fn catalog_settings(lines: &Vec<String>, sep: char) -> (r: Vec<RawSetting>)
    ensures
        settings_of(r@) == catalog_settings_spec(texts_of(lines@), sep),
{
    let mut r: Vec<RawSetting> = Vec::new();
    let mut i: usize = 0;
    while i < lines.len()
        invariant
            i <= lines@.len(),
            settings_of(r@) == catalog_settings_spec(texts_of(lines@.take(i as int)), sep),
        decreases lines@.len() - i,
    {
        proof {
            assert(texts_of(lines@.take(i + 1)).drop_last() =~= texts_of(lines@.take(i as int)));
        }
        match split_catalog_line(lines[i].as_str(), sep) {
            Some(x) => {
                r.push(x);
                assert(settings_of(r@) =~= catalog_settings_spec(texts_of(lines@.take(i + 1)), sep));
            },
            None => {},
        }
        i = i + 1;
    }
    assert(lines@.take(i as int) =~= lines@);
    r
}

/// The settings of the lines of a command file.
pub fn command_settings(lines: &Vec<String>) -> (r: Vec<RawSetting>)
    ensures
        settings_of(r@) == command_settings_spec(texts_of(lines@)),
{
    let mut r: Vec<RawSetting> = Vec::new();
    let mut i: usize = 0;
    while i < lines.len()
        invariant
            i <= lines@.len(),
            settings_of(r@) == command_settings_spec(texts_of(lines@.take(i as int))),
        decreases lines@.len() - i,
    {
        proof {
            assert(texts_of(lines@.take(i + 1)).drop_last() =~= texts_of(lines@.take(i as int)));
        }
        match split_command_line(lines[i].as_str()) {
            Some(x) => {
                r.push(x);
                assert(settings_of(r@) =~= command_settings_spec(texts_of(lines@.take(i + 1))));
            },
            None => {},
        }
        i = i + 1;
    }
    assert(lines@.take(i as int) =~= lines@);
    r
}

/// `m` with the readable settings of `s` added, each only where its name is
/// not there yet.
pub open spec fn defaults_added(m: Settings, s: Seq<SettingView>) -> Settings
    decreases s.len(),
{
    if s.len() == 0 {
        m
    } else {
        let prev = defaults_added(m, s.drop_last());
        let x = s.last();
        match parse_spec(x.0, x.1, x.2) {
            Ok(v) => if prev.contains_key(x.0) {
                prev
            } else {
                prev.insert(x.0, v)
            },
            Err(_) => prev,
        }
    }
}

/// `m` with the readable settings of `s` stored in turn, a later value of a
/// name replacing an earlier one.
pub open spec fn commands_applied(m: Settings, s: Seq<SettingView>) -> Settings
    decreases s.len(),
{
    if s.len() == 0 {
        m
    } else {
        let prev = commands_applied(m, s.drop_last());
        let x = s.last();
        match parse_spec(x.0, x.1, x.2) {
            Ok(v) => prev.insert(x.0, v),
            Err(_) => prev,
        }
    }
}

/// The default catalog built from the sources in order.
pub open spec fn catalog_of(sources: Seq<Seq<SettingView>>) -> Settings
    decreases sources.len(),
{
    if sources.len() == 0 {
        Map::empty()
    } else {
        defaults_added(catalog_of(sources.drop_last()), sources.last())
    }
}

/// Adds the readable settings of one catalog source to `map`; a name that
/// is there already keeps its value.
pub fn add_defaults(map: &mut GmstMap, settings: &Vec<RawSetting>)
    requires
        old(map).wf(),
    ensures
        final(map).wf(),
        final(map)@ == defaults_added(old(map)@, settings_of(settings@)),
{
    let mut i: usize = 0;
    while i < settings.len()
        invariant
            i <= settings@.len(),
            map.wf(),
            map@ == defaults_added(old(map)@, settings_of(settings@.take(i as int))),
        decreases settings@.len() - i,
    {
        let x = &settings[i];
        proof {
            assert(settings_of(settings@.take(i + 1)).drop_last() =~= settings_of(settings@.take(i as int)));
        }
        match parse_gmst(x.name.as_str(), x.text.as_str(), x.float_bits) {
            Ok(v) => {
                map.insert_if_absent(x.name.clone(), v);
            },
            Err(_) => {},
        }
        i = i + 1;
    }
    assert(settings@.take(i as int) =~= settings@);
}

/// The default catalog: the sources' settings, the first value of a name winning.
pub fn parse_gmsts(sources: &Vec<Vec<RawSetting>>) -> (r: GmstMap)
    ensures
        r.wf(),
        r@ == catalog_of(sources@.map_values(|s: Vec<RawSetting>| settings_of(s@))),
{
    let ghost all = sources@.map_values(|s: Vec<RawSetting>| settings_of(s@));
    let mut map = GmstMap::new();
    let mut i: usize = 0;
    while i < sources.len()
        invariant
            i <= sources@.len(),
            all == sources@.map_values(|s: Vec<RawSetting>| settings_of(s@)),
            map.wf(),
            map@ == catalog_of(all.take(i as int)),
        decreases sources@.len() - i,
    {
        proof {
            assert(all.take(i + 1).drop_last() =~= all.take(i as int));
        }
        add_defaults(&mut map, &sources[i]);
        i = i + 1;
    }
    assert(all.take(i as int) =~= all);
    map
}

/// The map that a command file's settings give: a later value of a name
/// replaces an earlier one.
pub fn parse_commands(settings: &Vec<RawSetting>) -> (r: GmstMap)
    ensures
        r.wf(),
        r@ == commands_applied(Map::empty(), settings_of(settings@)),
{
    let mut map = GmstMap::new();
    let mut i: usize = 0;
    while i < settings.len()
        invariant
            i <= settings@.len(),
            map.wf(),
            map@ == commands_applied(Map::empty(), settings_of(settings@.take(i as int))),
        decreases settings@.len() - i,
    {
        let x = &settings[i];
        proof {
            assert(settings_of(settings@.take(i + 1)).drop_last() =~= settings_of(settings@.take(i as int)));
        }
        match parse_gmst(x.name.as_str(), x.text.as_str(), x.float_bits) {
            Ok(v) => {
                map.insert(x.name.clone(), v);
            },
            Err(_) => {},
        }
        i = i + 1;
    }
    assert(settings@.take(i as int) =~= settings@);
    map
}

/// The settings of a command file with the edited ones put over them.
pub fn append_commands(existing: &Vec<RawSetting>, edited: &GmstMap) -> (r: GmstMap)
    requires
        edited.wf(),
    ensures
        r.wf(),
        r@ == commands_applied(Map::empty(), settings_of(existing@)).union_prefer_right(edited@),
{
    let mut map = parse_commands(existing);
    map.overlay(edited);
    map
}

proof fn lemma_defaults_keep(m: Settings, s: Seq<SettingView>, k: Seq<char>)
    requires
        m.contains_key(k),
    ensures
        defaults_added(m, s).contains_key(k),
        defaults_added(m, s)[k] == m[k],
    decreases s.len(),
{
    if s.len() > 0 {
        lemma_defaults_keep(m, s.drop_last(), k);
    }
}

/// A name that the first source gives keeps that value in a catalog built
/// from two sources, whatever the second one says of it.
pub proof fn lemma_first_source_wins(s1: Seq<SettingView>, s2: Seq<SettingView>, k: Seq<char>)
    requires
        catalog_of(seq![s1]).contains_key(k),
    ensures
        catalog_of(seq![s1, s2]).contains_key(k),
        catalog_of(seq![s1, s2])[k] == catalog_of(seq![s1])[k],
{
    assert(seq![s1, s2].drop_last() =~= seq![s1]);
    lemma_defaults_keep(catalog_of(seq![s1]), s2, k);
}

/// Appending edited settings to a command file: an edited name takes its
/// edited value, every other name of the file keeps its own, and no name is
/// lost.
pub proof fn lemma_append_keeps_others(existing: Seq<SettingView>, edited: Settings, k: Seq<char>)
    ensures
        ({
            let before = commands_applied(Map::empty(), existing);
            let after = before.union_prefer_right(edited);
            &&& after.contains_key(k) <==> (before.contains_key(k) || edited.contains_key(k))
            &&& edited.contains_key(k) ==> after[k] == edited[k]
            &&& !edited.contains_key(k) && before.contains_key(k) ==> after[k] == before[k]
        }),
{
}

} // verus!
