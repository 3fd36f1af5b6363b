//! Writing edited settings out: `setgs` command lines, and the event table
//! of the Console Command Runner that wraps them.
use vstd::prelude::*;

use crate::catalog::texts_of;
use crate::gmst_map::{sorted_by_name, Gmst, GmstMap};
use crate::text::{chars_of, push_char, push_text};
use crate::value::{value_text, value_text_spec};

verus! {

/// A name as written in a command: in quotes where it holds a `:`.
pub open spec fn written_name(name: Seq<char>) -> Seq<char> {
    if name.contains(':') {
        seq!['"'] + name + seq!['"']
    } else {
        name
    }
}

/// The command that sets `name` to the value written as `value`.
pub open spec fn command_text(name: Seq<char>, value: Seq<char>) -> Seq<char> {
    "setgs "@ + written_name(name) + seq![' '] + value
}

/// The rendering given for the `i`-th entry, empty where none is given.
pub open spec fn float_text_at(texts: Seq<Seq<char>>, i: int) -> Seq<char> {
    if 0 <= i < texts.len() {
        texts[i]
    } else {
        Seq::empty()
    }
}

/// Whether `s` holds a `:`.
fn contains_colon(s: &str) -> (r: bool)
    ensures
        r == s@.contains(':'),
{
    let cs = chars_of(s);
    let mut i: usize = 0;
    while i < cs.len()
        invariant
            i <= cs@.len(),
            cs@ == s@,
            forall|j: int| 0 <= j < i ==> cs@[j] != ':',
        decreases cs@.len() - i,
    {
        if cs[i] == ':' {
            return true;
        }
        i = i + 1;
    }
    false
}

/// The command that sets one setting; a float is written as `float_text`.
pub fn command_of(g: &Gmst, float_text: &str) -> (r: String)
    ensures
        r@ == command_text(g.name@, value_text_spec(g.value, float_text@)),
{
    let mut r = String::new();
    push_text(&mut r, "setgs ");
    let quoted = contains_colon(g.name.as_str());
    if quoted {
        push_char(&mut r, '"');
    }
    push_text(&mut r, g.name.as_str());
    if quoted {
        push_char(&mut r, '"');
    }
    push_char(&mut r, ' ');
    let v = value_text(&g.value, float_text);
    push_text(&mut r, v.as_str());
    assert(r@ =~= command_text(g.name@, value_text_spec(g.value, float_text@)));
    r
}

/// The commands that set the edited settings, one per setting in order of
/// name. `float_texts[i]` is the caller's rendering of the `i`-th setting's
/// float value, in that order; it is not read for other values.
pub fn command_lines(edited: &GmstMap, float_texts: &Vec<String>) -> (r: Vec<String>)
    requires
        edited.wf(),
    ensures
        r@.len() == edited.items().len(),
        sorted_by_name(edited.items()),
        forall|i: int|
            0 <= i < r@.len() ==> (#[trigger] r@[i])@ == command_text(
                edited.items()[i].name@,
                value_text_spec(edited.items()[i].value, float_text_at(texts_of(float_texts@), i)),
            ),
{
    let entries = edited.entries();
    let mut r: Vec<String> = Vec::new();
    let mut i: usize = 0;
    while i < entries.len()
        invariant
            i <= entries@.len(),
            entries@ == edited.items(),
            r@.len() == i,
            forall|j: int|
                0 <= j < i ==> (#[trigger] r@[j])@ == command_text(
                    entries@[j].name@,
                    value_text_spec(entries@[j].value, float_text_at(texts_of(float_texts@), j)),
                ),
        decreases entries@.len() - i,
    {
        let line = if i < float_texts.len() {
            command_of(&entries[i], float_texts[i].as_str())
        } else {
            let empty = String::new();
            command_of(&entries[i], empty.as_str())
        };
        r.push(line);
        i = i + 1;
    }
    r
}

/// The one kind of event of the event table: the game's data has loaded.
#[derive(Clone, Copy, Debug, PartialEq, Eq, Structural, Default)]
pub enum CCrEEventType {
    #[default]
    DataLoaded,
}

/// An event and the commands that run on it.
#[derive(Clone, Debug, Default)]
pub struct CcrEvent {
    pub event_type: CCrEEventType,
    pub commands: Vec<String>,
}

/// An event table.
#[derive(Clone, Debug, Default)]
pub struct CcrModel {
    pub event: Vec<CcrEvent>,
}

/// The table that runs `commands` once the data has loaded.
pub fn ccr_model_of(commands: Vec<String>) -> (r: CcrModel)
    ensures
        r.event@.len() == 1,
        r.event@[0].event_type == CCrEEventType::DataLoaded,
        r.event@[0].commands@ == commands@,
{
    let mut event: Vec<CcrEvent> = Vec::new();
    event.push(CcrEvent { event_type: CCrEEventType::DataLoaded, commands });
    CcrModel { event }
}

/// The commands of all events, in order of event and of command.
pub open spec fn all_commands(events: Seq<CcrEvent>) -> Seq<Seq<char>>
    decreases events.len(),
{
    if events.len() == 0 {
        Seq::empty()
    } else {
        all_commands(events.drop_last()) + texts_of(events.last().commands@)
    }
}

/// The commands of a table; see `all_commands`.
pub fn ccr_commands(model: &CcrModel) -> (r: Vec<String>)
    ensures
        texts_of(r@) == all_commands(model.event@),
{
    let mut r: Vec<String> = Vec::new();
    let mut e: usize = 0;
    while e < model.event.len()
        invariant
            e <= model.event@.len(),
            texts_of(r@) == all_commands(model.event@.take(e as int)),
        decreases model.event@.len() - e,
    {
        let cmds = &model.event[e].commands;
        let ghost base = texts_of(r@);
        let mut k: usize = 0;
        while k < cmds.len()
            invariant
                k <= cmds@.len(),
                texts_of(r@) == base + texts_of(cmds@.take(k as int)),
            decreases cmds@.len() - k,
        {
            let ghost before = texts_of(r@);
            let c = cmds[k].clone();
            assert(c@ == cmds@[k as int]@);
            r.push(c);
            assert(texts_of(r@) =~= before.push(c@));
            assert(texts_of(cmds@.take(k + 1)) =~= texts_of(cmds@.take(k as int)).push(c@));
            assert(texts_of(r@) =~= base + texts_of(cmds@.take(k + 1)));
            k = k + 1;
        }
        proof {
            assert(cmds@.take(k as int) =~= cmds@);
            assert(model.event@.take(e + 1).drop_last() =~= model.event@.take(e as int));
        }
        e = e + 1;
    }
    assert(model.event@.take(e as int) =~= model.event@);
    r
}

} // verus!
