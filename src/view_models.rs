//! The editable settings list: built from the defaults, its edited state
//! derived from them, and mod values shown over it and taken back.
use vstd::prelude::*;

use crate::catalog::{texts_of, Settings};
use crate::gmst_map::{Gmst, GmstMap};
use crate::mods::{contains_text, ModViewModel};
use crate::value::{is_edited, value_eq, EGmstValue};

verus! {

/// A setting in the list, and whether it differs from its default.
#[derive(Clone, Debug)]
pub struct GmstViewModel {
    pub gmst: Gmst,
    pub is_edited: bool,
}

/// The list of the defaults in order of name, none of them edited.
pub fn rebuild_vms(defaults: &GmstMap) -> (r: Vec<GmstViewModel>)
    requires
        defaults.wf(),
    ensures
        r@.len() == defaults.items().len(),
        forall|i: int|
            0 <= i < r@.len() ==> {
                &&& (#[trigger] r@[i]).gmst.name@ == defaults.items()[i].name@
                &&& r@[i].gmst.value == defaults.items()[i].value
                &&& !r@[i].is_edited
            },
{
    let entries = defaults.entries();
    let mut r: Vec<GmstViewModel> = Vec::new();
    let mut i: usize = 0;
    while i < entries.len()
        invariant
            i <= entries@.len(),
            entries@ == defaults.items(),
            r@.len() == i,
            forall|j: int|
                0 <= j < i ==> {
                    &&& (#[trigger] r@[j]).gmst.name@ == entries@[j].name@
                    &&& r@[j].gmst.value == entries@[j].value
                    &&& !r@[j].is_edited
                },
        decreases entries@.len() - i,
    {
        let g = Gmst { name: entries[i].name.clone(), value: entries[i].value };
        r.push(GmstViewModel { gmst: g, is_edited: false });
        i = i + 1;
    }
    r
}

/// A setting is edited when it has a default and differs from it.
pub open spec fn edited_against(defaults: Settings, g: Gmst) -> bool {
    defaults.contains_key(g.name@) && !value_eq(defaults[g.name@], g.value)
}

/// Sets the edited flag of every entry from the defaults; nothing else changes.
pub fn update_edited(vms: &mut Vec<GmstViewModel>, defaults: &GmstMap)
    requires
        defaults.wf(),
    ensures
        final(vms)@.len() == old(vms)@.len(),
        forall|i: int|
            0 <= i < final(vms)@.len() ==> {
                &&& (#[trigger] final(vms)@[i]).gmst == old(vms)@[i].gmst
                &&& final(vms)@[i].is_edited == edited_against(defaults@, old(vms)@[i].gmst)
            },
{
    let ghost start = vms@;
    let mut i: usize = 0;
    while i < vms.len()
        invariant
            i <= vms@.len(),
            defaults.wf(),
            vms@.len() == start.len(),
            forall|j: int|
                0 <= j < vms@.len() ==> (#[trigger] vms@[j]).gmst == start[j].gmst,
            forall|j: int|
                0 <= j < i ==> (#[trigger] vms@[j]).is_edited == edited_against(
                    defaults@,
                    start[j].gmst,
                ),
        decreases vms@.len() - i,
    {
        let edited = match defaults.get(vms[i].gmst.name.as_str()) {
            Some(d) => is_edited(&d, &vms[i].gmst.value),
            None => false,
        };
        vms[i].is_edited = edited;
        i = i + 1;
    }
}

/// The edited entries as a map, a later entry of a name winning.
pub open spec fn edited_map(vms: Seq<GmstViewModel>) -> Settings
    decreases vms.len(),
{
    if vms.len() == 0 {
        Map::empty()
    } else {
        let prev = edited_map(vms.drop_last());
        let v = vms.last();
        if v.is_edited {
            prev.insert(v.gmst.name@, v.gmst.value)
        } else {
            prev
        }
    }
}

/// The edited entries, by name; see `edited_map`.
pub fn edited_gmsts(vms: &Vec<GmstViewModel>) -> (r: GmstMap)
    ensures
        r.wf(),
        r@ == edited_map(vms@),
{
    let mut r = GmstMap::new();
    let mut i: usize = 0;
    while i < vms.len()
        invariant
            i <= vms@.len(),
            r.wf(),
            r@ == edited_map(vms@.take(i as int)),
        decreases vms@.len() - i,
    {
        proof {
            assert(vms@.take(i + 1).drop_last() =~= vms@.take(i as int));
        }
        if vms[i].is_edited {
            r.insert(vms[i].gmst.name.clone(), vms[i].gmst.value);
        }
        i = i + 1;
    }
    assert(vms@.take(i as int) =~= vms@);
    r
}

/// The value an entry shows once a mod's values are shown over the list.
pub open spec fn shown_value(parsed: Settings, g: Gmst) -> EGmstValue {
    if parsed.contains_key(g.name@) {
        parsed[g.name@]
    } else {
        g.value
    }
}

/// The value an entry shows once a mod's values are taken back: its default,
/// where the mod touched it and a default is there.
pub open spec fn reverted_value(touched: Seq<Seq<char>>, defaults: Settings, g: Gmst) -> EGmstValue {
    if touched.contains(g.name@) && defaults.contains_key(g.name@) {
        defaults[g.name@]
    } else {
        g.value
    }
}

/// Shows a mod's values over the list, or takes them back, as the mod's
/// overlay flag says. `parsed` is what the mod's file sets; it is read only
/// when the values are shown, and its names are then recorded on the mod.
/// Taking the values back restores the defaults of the recorded names.
pub fn toggle_mod_values(
    mod_vm: &mut ModViewModel,
    vms: &mut Vec<GmstViewModel>,
    defaults: &GmstMap,
    parsed: &GmstMap,
)
    requires
        defaults.wf(),
        parsed.wf(),
    ensures
        final(vms)@.len() == old(vms)@.len(),
        final(mod_vm).mod_type == old(mod_vm).mod_type,
        final(mod_vm).path == old(mod_vm).path,
        final(mod_vm).name == old(mod_vm).name,
        final(mod_vm).enabled == old(mod_vm).enabled,
        final(mod_vm).overlay_enabled == old(mod_vm).overlay_enabled,
        final(mod_vm).txt == old(mod_vm).txt,
        old(mod_vm).overlay_enabled ==> texts_of(final(mod_vm).gmsts@) == parsed.items().map_values(
            |g: Gmst| g.name@,
        ),
        !old(mod_vm).overlay_enabled ==> final(mod_vm).gmsts == old(mod_vm).gmsts,
        forall|i: int|
            0 <= i < final(vms)@.len() ==> {
                &&& (#[trigger] final(vms)@[i]).gmst.name == old(vms)@[i].gmst.name
                &&& final(vms)@[i].is_edited == old(vms)@[i].is_edited
                &&& final(vms)@[i].gmst.value == if old(mod_vm).overlay_enabled {
                    shown_value(parsed@, old(vms)@[i].gmst)
                } else {
                    reverted_value(texts_of(old(mod_vm).gmsts@), defaults@, old(vms)@[i].gmst)
                }
            },
{
    let ghost start = vms@;
    let ghost touched = texts_of(mod_vm.gmsts@);
    let showing = mod_vm.overlay_enabled;
    if showing {
        let entries = parsed.entries();
        let mut names: Vec<String> = Vec::new();
        let mut k: usize = 0;
        while k < entries.len()
            invariant
                k <= entries@.len(),
                entries@ == parsed.items(),
                texts_of(names@) == entries@.take(k as int).map_values(|g: Gmst| g.name@),
            decreases entries@.len() - k,
        {
            let ghost before = texts_of(names@);
            let n = entries[k].name.clone();
            assert(n@ == entries@[k as int].name@);
            names.push(n);
            assert(texts_of(names@) =~= before.push(n@));
            assert(entries@.take(k + 1).map_values(|g: Gmst| g.name@) =~= entries@.take(
                k as int,
            ).map_values(|g: Gmst| g.name@).push(n@));
            k = k + 1;
        }
        assert(entries@.take(k as int) =~= entries@);
        mod_vm.gmsts = names;
    }
    let mut i: usize = 0;
    while i < vms.len()
        invariant
            i <= vms@.len(),
            defaults.wf(),
            parsed.wf(),
            vms@.len() == start.len(),
            touched == texts_of(mod_vm.gmsts@) || showing,
            forall|j: int|
                0 <= j < vms@.len() ==> {
                    &&& (#[trigger] vms@[j]).gmst.name == start[j].gmst.name
                    &&& vms@[j].is_edited == start[j].is_edited
                },
            forall|j: int| i <= j < vms@.len() ==> (#[trigger] vms@[j]).gmst.value == start[j].gmst.value,
            forall|j: int|
                0 <= j < i ==> (#[trigger] vms@[j]).gmst.value == if showing {
                    shown_value(parsed@, start[j].gmst)
                } else {
                    reverted_value(touched, defaults@, start[j].gmst)
                },
        decreases vms@.len() - i,
    {
        if showing {
            match parsed.get(vms[i].gmst.name.as_str()) {
                Some(v) => {
                    vms[i].gmst.value = v;
                },
                None => {},
            }
        } else if contains_text(&mod_vm.gmsts, vms[i].gmst.name.as_str()) {
            match defaults.get(vms[i].gmst.name.as_str()) {
                Some(d) => {
                    vms[i].gmst.value = d;
                },
                None => {},
            }
        }
        i = i + 1;
    }
}

} // verus!
