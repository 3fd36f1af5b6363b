//! Mod files: which files of a folder are mods, and in which order and with
//! which enabled state they are listed.
use vstd::prelude::*;

use crate::catalog::texts_of;
use crate::text::{lemma_lex_asymmetric, lemma_lex_total, lemma_lex_transitive, less_than, chars_of, push_text, same_text, lex_lt};

verus! {

/// The two kinds of mod: a command script run through `bat`, and a
/// Console Command Runner event table.
#[derive(Clone, Copy, Debug, PartialEq, Eq, Hash, Structural)]
pub enum EModType {
    BatMod,
    CcrMod,
}

/// A mod file as listed.
#[derive(Clone, Debug, PartialEq, Hash)]
pub struct ModViewModel {
    pub mod_type: EModType,
    pub path: String,
    pub name: String,
    pub enabled: bool,
    /// Show mod values in the settings list.
    pub overlay_enabled: bool,
    pub gmsts: Vec<String>,
    pub txt: Option<String>,
}

pub open spec fn txt_ext() -> Seq<char> {
    seq!['t', 'x', 't']
}

pub open spec fn toml_ext() -> Seq<char> {
    seq!['t', 'o', 'm', 'l']
}

/// `name` has the extension `ext` (itself without dots): it ends in a dot
/// and `ext`, and something stands before that dot, as `Path::extension`
/// reads a file name.
pub open spec fn has_extension(name: Seq<char>, ext: Seq<char>) -> bool {
    name.len() > ext.len() + 1 && name.skip(name.len() - ext.len() - 1) == seq!['.'] + ext
}

/// The folder that holds the mods of a kind.
pub fn get_mods_folder(is_ccr: bool) -> (r: String)
    ensures
        r@ == (if is_ccr {
            "./Data/SFSE/Plugins/ConsoleCommandRunner"@
        } else {
            "./"@
        }),
{
    let mut r = String::new();
    if is_ccr {
        push_text(&mut r, "./Data/SFSE/Plugins/ConsoleCommandRunner");
    } else {
        push_text(&mut r, "./");
    }
    r
}

/// `name` placed in the folder `dir`, as `Path::join` places it: a name
/// that starts at the root `/` stands alone.
pub open spec fn join_path(dir: Seq<char>, name: Seq<char>) -> Seq<char> {
    if name.len() > 0 && name[0] == '/' {
        name
    } else if dir.len() > 0 && dir.last() == '/' {
        dir + name
    } else {
        dir + seq!['/'] + name
    }
}

/// `name` placed in the folder `dir`; see `join_path`.
fn join(dir: &str, name: &str) -> (r: String)
    ensures
        r@ == join_path(dir@, name@),
{
    let ns = chars_of(name);
    let mut r = String::new();
    if ns.len() > 0 && ns[0] == '/' {
        push_text(&mut r, name);
        return r;
    }
    let cs = chars_of(dir);
    push_text(&mut r, dir);
    if !(cs.len() > 0 && cs[cs.len() - 1] == '/') {
        push_text(&mut r, "/");
        proof {
            reveal_strlit("/");
        }
    }
    push_text(&mut r, name);
    r
}

/// The path of the mod file `file_name` of a kind, its extension added.
pub fn get_mod_file_path(is_ccr: bool, file_name: &str) -> (r: String)
    ensures
        r@ == join_path(
            if is_ccr {
                "./Data/SFSE/Plugins/ConsoleCommandRunner"@
            } else {
                "./"@
            },
            file_name@ + if is_ccr {
                ".toml"@
            } else {
                ".txt"@
            },
        ),
{
    let folder = get_mods_folder(is_ccr);
    let mut name = String::new();
    push_text(&mut name, file_name);
    if is_ccr {
        push_text(&mut name, ".toml");
    } else {
        push_text(&mut name, ".txt");
    }
    join(folder.as_str(), name.as_str())
}

/// Whether `name` has the extension `ext`; see `has_extension`.
fn has_ext(name: &str, ext: &str) -> (r: bool)
    ensures
        r == has_extension(name@, ext@),
{
    let cs = chars_of(name);
    let es = chars_of(ext);
    if cs.len() <= es.len() || cs.len() - es.len() <= 1 {
        return false;
    }
    let d = cs.len() - es.len() - 1;
    if cs[d] != '.' {
        assert((seq!['.'] + es@)[0] == '.');
        assert(cs@.skip(d as int)[0] != '.');
        return false;
    }
    let mut i: usize = 0;
    while i < es.len()
        invariant
            i <= es@.len(),
            es@ == ext@,
            cs@ == name@,
            d == cs@.len() - es@.len() - 1,
            cs@.len() == d + 1 + es@.len(),
            cs@.len() <= usize::MAX,
            cs@[d as int] == '.',
            forall|j: int| 0 <= j < i ==> cs@[d + 1 + j] == es@[j],
        decreases es@.len() - i,
    {
        if cs[d + 1 + i] != es[i] {
            assert(cs@.skip(d as int)[i + 1] != (seq!['.'] + es@)[i + 1]);
            return false;
        }
        i = i + 1;
    }
    assert(cs@.skip(d as int) =~= seq!['.'] + es@);
    true
}

/// The names among `names` that have the extension `ext`, in order.
pub open spec fn with_extension(names: Seq<Seq<char>>, ext: Seq<char>) -> Seq<Seq<char>>
    decreases names.len(),
{
    if names.len() == 0 {
        Seq::empty()
    } else {
        let prev = with_extension(names.drop_last(), ext);
        if has_extension(names.last(), ext) {
            prev.push(names.last())
        } else {
            prev
        }
    }
}

/// The names with the extension `ext`; see `with_extension`.
fn filter_extension(names: &Vec<String>, ext: &str) -> (r: Vec<String>)
    ensures
        texts_of(r@) == with_extension(texts_of(names@), ext@),
{
    let mut r: Vec<String> = Vec::new();
    let mut i: usize = 0;
    while i < names.len()
        invariant
            i <= names@.len(),
            texts_of(r@) == with_extension(texts_of(names@.take(i as int)), ext@),
        decreases names@.len() - i,
    {
        proof {
            assert(texts_of(names@.take(i + 1)).drop_last() =~= texts_of(names@.take(i as int)));
        }
        if has_ext(names[i].as_str(), ext) {
            r.push(names[i].clone());
            assert(texts_of(r@) =~= with_extension(texts_of(names@.take(i + 1)), ext@));
        }
        i = i + 1;
    }
    assert(names@.take(i as int) =~= names@);
    r
}

/// Whether one of the texts of `v` equals `t`.
pub(crate) fn contains_text(v: &Vec<String>, t: &str) -> (r: bool)
    ensures
        r == texts_of(v@).contains(t@),
{
    let mut i: usize = 0;
    while i < v.len()
        invariant
            i <= v@.len(),
            forall|j: int| 0 <= j < i ==> v@[j]@ != t@,
        decreases v@.len() - i,
    {
        if same_text(v[i].as_str(), t) {
            assert(texts_of(v@)[i as int] == t@);
            return true;
        }
        i = i + 1;
    }
    proof {
        if texts_of(v@).contains(t@) {
            let j = choose|j: int| 0 <= j < texts_of(v@).len() && texts_of(v@)[j] == t@;
            assert(v@[j]@ == t@);
        }
    }
    false
}

/// The script mods that the load order names, in its order: each name in
/// it with `.txt` added, where such a file was found and was not placed
/// already.
pub open spec fn load_ordered(found: Seq<Seq<char>>, order: Seq<Seq<char>>) -> Seq<Seq<char>>
    decreases order.len(),
{
    if order.len() == 0 {
        Seq::empty()
    } else {
        let prev = load_ordered(found, order.drop_last());
        let w = order.last() + seq!['.'] + txt_ext();
        if found.contains(w) && !prev.contains(w) {
            prev.push(w)
        } else {
            prev
        }
    }
}

/// The names of `found` that `placed` does not hold, in order.
pub open spec fn leftovers(found: Seq<Seq<char>>, placed: Seq<Seq<char>>) -> Seq<Seq<char>>
    decreases found.len(),
{
    if found.len() == 0 {
        Seq::empty()
    } else {
        let prev = leftovers(found.drop_last(), placed);
        if placed.contains(found.last()) {
            prev
        } else {
            prev.push(found.last())
        }
    }
}

/// What listing the script mods gives, from the file names found in the
/// folder in the order found and the load order of the ini: the mods of the
/// load order first, enabled, in its order; then the other script files,
/// disabled, in the order found.
pub open spec fn bat_listing(found: Seq<Seq<char>>, order: Seq<Seq<char>>, r: Seq<ModViewModel>) -> bool {
    let files = with_extension(found, txt_ext());
    let enabled = load_ordered(files, order);
    let names = enabled + leftovers(files, enabled);
    &&& r.len() == names.len()
    &&& forall|i: int|
        0 <= i < r.len() ==> {
            &&& (#[trigger] r[i]).name@ == names[i]
            &&& r[i].path@ == join_path("./"@, names[i])
            &&& r[i].enabled == (i < enabled.len())
            &&& r[i].mod_type == EModType::BatMod
            &&& !r[i].overlay_enabled
            &&& r[i].gmsts@.len() == 0
            &&& r[i].txt is None
        }
}

/// A freshly listed mod: overlay off, nothing read from its file yet.
fn new_mod(mod_type: EModType, folder: &str, name: &String, enabled: bool) -> (r: ModViewModel)
    ensures
        r.name@ == name@,
        r.path@ == join_path(folder@, name@),
        r.enabled == enabled,
        r.mod_type == mod_type,
        !r.overlay_enabled,
        r.gmsts@.len() == 0,
        r.txt is None,
{
    ModViewModel {
        mod_type,
        path: join(folder, name.as_str()),
        name: name.clone(),
        enabled,
        overlay_enabled: false,
        gmsts: Vec::new(),
        txt: None,
    }
}

/// Lists the script mods; see `bat_listing`. `found` holds the names of the
/// regular files of the folder, `order` the names of the ini's load order.
pub fn refresh_bat_mods(found: &Vec<String>, order: &Vec<String>) -> (r: Vec<ModViewModel>)
    ensures
        bat_listing(texts_of(found@), texts_of(order@), r@),
{
    let ghost files_spec = with_extension(texts_of(found@), txt_ext());
    proof {
        reveal_strlit("txt");
        reveal_strlit(".txt");
        reveal_strlit("./");
        assert("txt"@ =~= txt_ext());
        assert(".txt"@ =~= seq!['.'] + txt_ext());
    }
    let files = filter_extension(found, "txt");
    let mut enabled: Vec<String> = Vec::new();
    let mut i: usize = 0;
    while i < order.len()
        invariant
            i <= order@.len(),
            texts_of(files@) == files_spec,
            texts_of(enabled@) == load_ordered(files_spec, texts_of(order@.take(i as int))),
        decreases order@.len() - i,
    {
        proof {
            assert(texts_of(order@.take(i + 1)).drop_last() =~= texts_of(order@.take(i as int)));
        }
        let mut w = String::new();
        push_text(&mut w, order[i].as_str());
        push_text(&mut w, ".txt");
        proof {
            reveal_strlit(".txt");
            assert(".txt"@ =~= seq!['.'] + txt_ext());
        }
        assert(w@ =~= order@[i as int]@ + seq!['.'] + txt_ext());
        if contains_text(&files, w.as_str()) && !contains_text(&enabled, w.as_str()) {
            enabled.push(w);
            assert(texts_of(enabled@) =~= load_ordered(files_spec, texts_of(order@.take(i + 1))));
        }
        i = i + 1;
    }
    assert(order@.take(i as int) =~= order@);
    let ghost enabled_spec = texts_of(enabled@);
    let mut r: Vec<ModViewModel> = Vec::new();
    let mut j: usize = 0;
    while j < enabled.len()
        invariant
            j <= enabled@.len(),
            enabled_spec == texts_of(enabled@),
            r@.len() == j,
            forall|k: int|
                0 <= k < j ==> {
                    &&& (#[trigger] r@[k]).name@ == enabled_spec[k]
                    &&& r@[k].path@ == join_path("./"@, enabled_spec[k])
                    &&& r@[k].enabled
                    &&& r@[k].mod_type == EModType::BatMod
                    &&& !r@[k].overlay_enabled
                    &&& r@[k].gmsts@.len() == 0
                    &&& r@[k].txt is None
                },
        decreases enabled@.len() - j,
    {
        let m = new_mod(EModType::BatMod, "./", &enabled[j], true);
        r.push(m);
        j = j + 1;
    }
    let mut t: usize = 0;
    let ghost n0 = enabled@.len();
    while t < files.len()
        invariant
            t <= files@.len(),
            enabled_spec == texts_of(enabled@),
            n0 == enabled_spec.len(),
            texts_of(files@) == files_spec,
            ({
                let names = enabled_spec + leftovers(files_spec.take(t as int), enabled_spec);
                &&& r@.len() == names.len()
                &&& forall|k: int|
                    0 <= k < r@.len() ==> {
                        &&& (#[trigger] r@[k]).name@ == names[k]
                        &&& r@[k].path@ == join_path("./"@, names[k])
                        &&& r@[k].enabled == (k < n0)
                        &&& r@[k].mod_type == EModType::BatMod
                        &&& !r@[k].overlay_enabled
                        &&& r@[k].gmsts@.len() == 0
                        &&& r@[k].txt is None
                    }
            }),
        decreases files@.len() - t,
    {
        proof {
            assert(files_spec.take(t + 1).drop_last() =~= files_spec.take(t as int));
            assert(files_spec.take(t + 1).last() == files@[t as int]@);
        }
        if !contains_text(&enabled, files[t].as_str()) {
            let m = new_mod(EModType::BatMod, "./", &files[t], false);
            r.push(m);
        }
        proof {
            let names = enabled_spec + leftovers(files_spec.take(t + 1), enabled_spec);
            let before = enabled_spec + leftovers(files_spec.take(t as int), enabled_spec);
            if enabled_spec.contains(files@[t as int]@) {
                assert(names =~= before);
            } else {
                assert(names =~= before.push(files@[t as int]@));
            }
        }
        t = t + 1;
    }
    assert(files_spec.take(t as int) =~= files_spec);
    r
}

pub open spec fn names_of(r: Seq<ModViewModel>) -> Seq<Seq<char>> {
    r.map_values(|m: ModViewModel| m.name@)
}

/// No name is smaller than one before it.
pub open spec fn ordered_by_name(s: Seq<Seq<char>>) -> bool {
    forall|i: int, j: int| 0 <= i < j < s.len() ==> !lex_lt(#[trigger] s[j], #[trigger] s[i])
}

/// What listing the event-table mods gives, from the file names found in
/// their folder: every `.toml` file once, disabled, sorted by name.
pub open spec fn ccr_listing(found: Seq<Seq<char>>, r: Seq<ModViewModel>) -> bool {
    &&& ordered_by_name(names_of(r))
    &&& names_of(r).to_multiset() == with_extension(found, toml_ext()).to_multiset()
    &&& forall|i: int|
        0 <= i < r.len() ==> {
            &&& (#[trigger] r[i]).path@ == join_path(
                "./Data/SFSE/Plugins/ConsoleCommandRunner"@,
                r[i].name@,
            )
            &&& !r[i].enabled
            &&& r[i].mod_type == EModType::CcrMod
            &&& !r[i].overlay_enabled
            &&& r[i].gmsts@.len() == 0
            &&& r[i].txt is None
        }
}

/// Lists the event-table mods; see `ccr_listing`. `found` holds the names of
/// the regular files of their folder.
pub fn refresh_ccr_mods(found: &Vec<String>) -> (r: Vec<ModViewModel>)
    ensures
        ccr_listing(texts_of(found@), r@),
{
    let ghost files_spec = with_extension(texts_of(found@), toml_ext());
    proof {
        reveal_strlit("toml");
        assert("toml"@ =~= toml_ext());
    }
    let files = filter_extension(found, "toml");
    let folder = get_mods_folder(true);
    let mut r: Vec<ModViewModel> = Vec::new();
    let mut t: usize = 0;
    assert(names_of(r@) =~= files_spec.take(0));
    while t < files.len()
        invariant
            t <= files@.len(),
            texts_of(files@) == files_spec,
            folder@ == "./Data/SFSE/Plugins/ConsoleCommandRunner"@,
            ordered_by_name(names_of(r@)),
            names_of(r@).to_multiset() == files_spec.take(t as int).to_multiset(),
            forall|i: int|
                0 <= i < r@.len() ==> {
                    &&& (#[trigger] r@[i]).path@ == join_path(folder@, r@[i].name@)
                    &&& !r@[i].enabled
                    &&& r@[i].mod_type == EModType::CcrMod
                    &&& !r@[i].overlay_enabled
                    &&& r@[i].gmsts@.len() == 0
                    &&& r@[i].txt is None
                },
        decreases files@.len() - t,
    {
        let m = new_mod(EModType::CcrMod, folder.as_str(), &files[t], false);
        let ghost c = m.name@;
        let ghost ns = names_of(r@);
        let mut p: usize = 0;
        while p < r.len() && !less_than(m.name.as_str(), r[p].name.as_str())
            invariant
                p <= r@.len(),
                ns == names_of(r@),
                c == m.name@,
                forall|k: int| 0 <= k < p ==> !lex_lt(c, #[trigger] ns[k]),
            decreases r@.len() - p,
        {
            p = p + 1;
        }
        proof {
            assert forall|k: int| p <= k < ns.len() implies lex_lt(c, #[trigger] ns[k]) by {
                if k > p {
                    assert(!lex_lt(ns[k], ns[p as int]));
                    lemma_lex_total(ns[k], ns[p as int]);
                    if ns[k] != ns[p as int] {
                        lemma_lex_transitive(c, ns[p as int], ns[k]);
                    }
                }
            }
            let ns2 = ns.insert(p as int, c);
            assert forall|i: int, j: int| 0 <= i < j < ns2.len() implies !lex_lt(#[trigger] ns2[j], #[trigger] ns2[i]) by {
                if j < p {
                } else if j == p {
                } else if i == p {
                    assert(ns2[j] == ns[j - 1]);
                    lemma_lex_asymmetric(c, ns[j - 1]);
                } else if i < p {
                    assert(ns2[j] == ns[j - 1]);
                } else {
                    assert(ns2[i] == ns[i - 1]);
                    assert(ns2[j] == ns[j - 1]);
                }
            }
            assert(files_spec.take(t + 1) =~= files_spec.take(t as int).push(c));
            vstd::seq_lib::to_multiset_build(files_spec.take(t as int), c);
            vstd::seq_lib::to_multiset_insert(ns, p as int, c);
        }
        r.insert(p, m);
        proof {
            assert(names_of(r@) =~= ns.insert(p as int, c));
        }
        t = t + 1;
    }
    assert(files_spec.take(t as int) =~= files_spec);
    r
}

/// Lists the mods of a kind; see `bat_listing` and `ccr_listing`. `found`
/// holds the names of the regular files of the kind's folder, `order` the
/// load order that the ini gives (empty where it gives none).
pub fn refresh_mods(is_ccr: bool, found: &Vec<String>, order: &Vec<String>) -> (r: Vec<
    ModViewModel,
>)
    ensures
        is_ccr ==> ccr_listing(texts_of(found@), r@),
        !is_ccr ==> bat_listing(texts_of(found@), texts_of(order@), r@),
{
    if is_ccr {
        refresh_ccr_mods(found)
    } else {
        refresh_bat_mods(found, order)
    }
}

proof fn lemma_load_ordered_found(found: Seq<Seq<char>>, order: Seq<Seq<char>>, n: Seq<char>)
    requires
        load_ordered(found, order).contains(n),
    ensures
        found.contains(n),
    decreases order.len(),
{
    if order.len() > 0 {
        let prev = load_ordered(found, order.drop_last());
        if prev.contains(n) {
            lemma_load_ordered_found(found, order.drop_last(), n);
        }
    }
}

proof fn lemma_leftovers_found(found: Seq<Seq<char>>, placed: Seq<Seq<char>>, n: Seq<char>)
    requires
        leftovers(found, placed).contains(n),
    ensures
        found.contains(n),
    decreases found.len(),
{
    if found.len() > 0 {
        let prev = leftovers(found.drop_last(), placed);
        if prev.contains(n) {
            lemma_leftovers_found(found.drop_last(), placed, n);
            let j = choose|j: int| 0 <= j < found.drop_last().len() && found.drop_last()[j] == n;
            assert(found[j] == n);
        } else {
            assert(found[found.len() - 1] == n);
        }
    }
}

/// Every listed script mod is a `.txt` file that was found: a load-order
/// name whose file is gone is dropped.
pub proof fn lemma_listed_mods_exist(
    found: Seq<Seq<char>>,
    order: Seq<Seq<char>>,
    r: Seq<ModViewModel>,
    i: int,
)
    requires
        bat_listing(found, order, r),
        0 <= i < r.len(),
    ensures
        with_extension(found, txt_ext()).contains(r[i].name@),
{
    let files = with_extension(found, txt_ext());
    let enabled = load_ordered(files, order);
    let names = enabled + leftovers(files, enabled);
    let n = r[i].name@;
    assert(names[i] == n);
    if i < enabled.len() {
        assert(enabled[i] == n);
        lemma_load_ordered_found(files, order, n);
    } else {
        assert(leftovers(files, enabled)[i - enabled.len()] == n);
        lemma_leftovers_found(files, enabled, n);
    }
}

proof fn lemma_with_extension_from(names: Seq<Seq<char>>, ext: Seq<char>, n: Seq<char>)
    requires
        with_extension(names, ext).contains(n),
    ensures
        names.contains(n),
    decreases names.len(),
{
    if names.len() > 0 {
        let prev = with_extension(names.drop_last(), ext);
        if prev.contains(n) {
            lemma_with_extension_from(names.drop_last(), ext, n);
            let j = choose|j: int| 0 <= j < names.drop_last().len() && names.drop_last()[j] == n;
            assert(names[j] == n);
        } else {
            assert(names[names.len() - 1] == n);
        }
    }
}

proof fn lemma_with_extension_unique(names: Seq<Seq<char>>, ext: Seq<char>)
    requires
        names.no_duplicates(),
    ensures
        with_extension(names, ext).no_duplicates(),
    decreases names.len(),
{
    if names.len() > 0 {
        let init = names.drop_last();
        assert(init.no_duplicates()) by {
            assert forall|i: int, j: int| 0 <= i < init.len() && 0 <= j < init.len() && i != j implies init[i] != init[j] by {
                assert(init[i] == names[i] && init[j] == names[j]);
            }
        }
        lemma_with_extension_unique(init, ext);
        let prev = with_extension(init, ext);
        if prev.contains(names.last()) {
            lemma_with_extension_from(init, ext, names.last());
            let j = choose|j: int| 0 <= j < init.len() && init[j] == names.last();
            assert(names[j] == names[names.len() - 1]);
        }
    }
}

proof fn lemma_load_ordered_unique(found: Seq<Seq<char>>, order: Seq<Seq<char>>)
    ensures
        load_ordered(found, order).no_duplicates(),
    decreases order.len(),
{
    if order.len() > 0 {
        lemma_load_ordered_unique(found, order.drop_last());
    }
}

proof fn lemma_leftovers_members(found: Seq<Seq<char>>, placed: Seq<Seq<char>>)
    requires
        found.no_duplicates(),
    ensures
        leftovers(found, placed).no_duplicates(),
        forall|n: Seq<char>| #[trigger] leftovers(found, placed).contains(n) <==> (found.contains(n) && !placed.contains(n)),
    decreases found.len(),
{
    if found.len() > 0 {
        let init = found.drop_last();
        assert(init.no_duplicates()) by {
            assert forall|i: int, j: int| 0 <= i < init.len() && 0 <= j < init.len() && i != j implies init[i] != init[j] by {
                assert(init[i] == found[i] && init[j] == found[j]);
            }
        }
        lemma_leftovers_members(init, placed);
        let prev = leftovers(init, placed);
        let last = found.last();
        assert forall|n: Seq<char>| #[trigger] leftovers(found, placed).contains(n) <==> (found.contains(n) && !placed.contains(n)) by {
            if found.contains(n) {
                let j = choose|j: int| 0 <= j < found.len() && found[j] == n;
                if j < found.len() - 1 {
                    assert(init[j] == n);
                }
            }
            if init.contains(n) {
                let j = choose|j: int| 0 <= j < init.len() && init[j] == n;
                assert(found[j] == n);
            }
            if !placed.contains(last) {
                assert(leftovers(found, placed) == prev.push(last));
                assert(prev.push(last)[prev.len() as int] == last);
                if prev.push(last).contains(n) && n != last {
                    let j = choose|j: int| 0 <= j < prev.push(last).len() && prev.push(last)[j] == n;
                    assert(prev[j] == n);
                }
                if prev.contains(n) {
                    let j = choose|j: int| 0 <= j < prev.len() && prev[j] == n;
                    assert(prev.push(last)[j] == n);
                }
            }
        }
        if !placed.contains(last) && prev.contains(last) {
            let j = choose|j: int| 0 <= j < init.len() && init[j] == last;
            assert(found[j] == found[found.len() - 1]);
        }
    }
}

/// Every script file found is listed exactly once, where the folder holds
/// each name once; nothing else is listed.
pub proof fn lemma_each_file_listed_once(
    found: Seq<Seq<char>>,
    order: Seq<Seq<char>>,
    r: Seq<ModViewModel>,
)
    requires
        bat_listing(found, order, r),
        found.no_duplicates(),
    ensures
        names_of(r).no_duplicates(),
        forall|n: Seq<char>| #[trigger] names_of(r).contains(n) <==> with_extension(found, txt_ext()).contains(n),
{
    let files = with_extension(found, txt_ext());
    let enabled = load_ordered(files, order);
    let left = leftovers(files, enabled);
    let names = enabled + left;
    assert(names_of(r) =~= names);
    lemma_with_extension_unique(found, txt_ext());
    lemma_load_ordered_unique(files, order);
    lemma_leftovers_members(files, enabled);
    assert forall|i: int, j: int| 0 <= i < names.len() && 0 <= j < names.len() && i != j implies names[i] != names[j] by {
        if i < enabled.len() && j >= enabled.len() {
            assert(left.contains(names[j]));
            assert(enabled.contains(names[i]));
        } else if j < enabled.len() && i >= enabled.len() {
            assert(left.contains(names[i]));
            assert(enabled.contains(names[j]));
        } else if i >= enabled.len() {
            assert(left[i - enabled.len()] != left[j - enabled.len()]);
        }
    }
    assert forall|n: Seq<char>| #[trigger] names.contains(n) <==> files.contains(n) by {
        if names.contains(n) {
            let i = choose|i: int| 0 <= i < names.len() && names[i] == n;
            if i < enabled.len() {
                assert(enabled[i] == n);
                lemma_load_ordered_found(files, order, n);
            } else {
                assert(left[i - enabled.len()] == n);
                assert(leftovers(files, enabled).contains(n));
            }
        }
        if files.contains(n) {
            if enabled.contains(n) {
                let i = choose|i: int| 0 <= i < enabled.len() && enabled[i] == n;
                assert(names[i] == n);
            } else {
                assert(leftovers(files, enabled).contains(n));
                let i = choose|i: int| 0 <= i < left.len() && left[i] == n;
                assert(names[i + enabled.len()] == n);
            }
        }
    }
}

} // verus!
