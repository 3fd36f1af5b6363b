//! The start-up directive of the game's custom ini: reading the load order
//! from it, building it from the enabled mods, and merging it into the file.
use vstd::prelude::*;

use crate::catalog::texts_of;
use crate::text::{chars_of, push_text, string_of, trim, trim_bounds};

verus! {

/// `s` begins with `p`.
pub open spec fn starts_with(s: Seq<char>, p: Seq<char>) -> bool {
    s.len() >= p.len() && s.take(p.len() as int) == p
}

/// Whether `cs[lo..hi]` begins with `p`.
fn starts_with_at(cs: &Vec<char>, lo: usize, hi: usize, p: &str) -> (r: bool)
    requires
        lo <= hi <= cs@.len(),
    ensures
        r == starts_with(cs@.subrange(lo as int, hi as int), p@),
{
    let ps = chars_of(p);
    let ghost s = cs@.subrange(lo as int, hi as int);
    if hi - lo < ps.len() {
        return false;
    }
    let mut i: usize = 0;
    while i < ps.len()
        invariant
            i <= ps@.len() <= hi - lo,
            lo <= hi <= cs@.len(),
            ps@ == p@,
            s == cs@.subrange(lo as int, hi as int),
            forall|j: int| 0 <= j < i ==> s[j] == ps@[j],
        decreases ps@.len() - i,
    {
        if cs[lo + i] != ps[i] {
            assert(s.take(p@.len() as int)[i as int] != p@[i as int]);
            return false;
        }
        i = i + 1;
    }
    assert(s.take(p@.len() as int) =~= p@);
    true
}

pub open spec fn directive_prefix() -> Seq<char> {
    "sStartingConsoleCommand="@
}

pub open spec fn txt_suffix() -> Seq<char> {
    seq!['.', 't', 'x', 't']
}

/// A mod name without a trailing `.txt`.
pub open spec fn strip_txt(c: Seq<char>) -> Seq<char> {
    if c.len() >= 4 && c.skip(c.len() - 4) == txt_suffix() {
        c.take(c.len() - 4)
    } else {
        c
    }
}

/// `bat <name>;` for each mod, in order.
pub open spec fn bat_calls(mods: Seq<Seq<char>>) -> Seq<char>
    decreases mods.len(),
{
    if mods.len() == 0 {
        Seq::empty()
    } else {
        bat_calls(mods.drop_last()) + seq!['b', 'a', 't', ' '] + strip_txt(mods.last()) + seq![';']
    }
}

/// The directive line that runs the mods in order.
pub open spec fn command_line_of(mods: Seq<Seq<char>>) -> Seq<char> {
    directive_prefix() + bat_calls(mods)
}

/// Builds the start-up directive that runs `commands` in order; see
/// `command_line_of`.
pub fn get_command_line(commands: &Vec<String>) -> (r: String)
    ensures
        r@ == command_line_of(texts_of(commands@)),
{
    let mut r = String::new();
    push_text(&mut r, "sStartingConsoleCommand=");
    let mut i: usize = 0;
    while i < commands.len()
        invariant
            i <= commands@.len(),
            r@ == directive_prefix() + bat_calls(texts_of(commands@.take(i as int))),
        decreases commands@.len() - i,
    {
        proof {
            reveal_strlit("bat ");
            reveal_strlit(";");
            assert(texts_of(commands@.take(i + 1)).drop_last() =~= texts_of(commands@.take(i as int)));
        }
        let cs = chars_of(commands[i].as_str());
        push_text(&mut r, "bat ");
        let n = cs.len();
        let ends_txt = n >= 4 && cs[n - 4] == '.' && cs[n - 3] == 't' && cs[n - 2] == 'x' && cs[n - 1] == 't';
        proof {
            if n >= 4 {
                assert(ends_txt == (cs@.skip(n - 4) =~= txt_suffix()));
            }
        }
        let name = if ends_txt {
            string_of(&cs, 0, n - 4)
        } else {
            string_of(&cs, 0, n)
        };
        proof {
            assert(cs@.subrange(0, n as int) =~= cs@);
            assert(cs@.subrange(0, n - 4) =~= cs@.take(n - 4));
        }
        push_text(&mut r, name.as_str());
        push_text(&mut r, ";");
        assert(r@ =~= directive_prefix() + bat_calls(texts_of(commands@.take(i + 1))));
        i = i + 1;
    }
    assert(commands@.take(i as int) =~= commands@);
    r
}

/// `s` cut at every `c`: one more field than there are `c`s.
pub open spec fn split_all(s: Seq<char>, c: char) -> Seq<Seq<char>>
    decreases s.len(),
{
    if s.len() == 0 {
        seq![Seq::empty()]
    } else {
        let f = split_all(s.drop_last(), c);
        if s.last() == c {
            f.push(Seq::empty())
        } else {
            f.update(f.len() - 1, f.last().push(s.last()))
        }
    }
}

proof fn lemma_split_all_len(s: Seq<char>, c: char)
    ensures
        split_all(s, c).len() >= 1,
    decreases s.len(),
{
    if s.len() > 0 {
        lemma_split_all_len(s.drop_last(), c);
    }
}

pub open spec fn bat_word() -> Seq<char> {
    seq!['b', 'a', 't', ' ']
}

/// The mod names of the `bat <name>` fields, each field trimmed first.
pub open spec fn bat_names(fields: Seq<Seq<char>>) -> Seq<Seq<char>>
    decreases fields.len(),
{
    if fields.len() == 0 {
        Seq::empty()
    } else {
        let prev = bat_names(fields.drop_last());
        let t = trim(fields.last());
        if starts_with(t, bat_word()) {
            prev.push(t.skip(4))
        } else {
            prev
        }
    }
}

/// The load order that the ini lines give: for every directive line, the
/// names that its `;`-separated fields run with `bat`.
pub open spec fn load_order_spec(lines: Seq<Seq<char>>) -> Seq<Seq<char>>
    decreases lines.len(),
{
    if lines.len() == 0 {
        Seq::empty()
    } else {
        let prev = load_order_spec(lines.drop_last());
        let l = lines.last();
        if starts_with(l, directive_prefix()) {
            prev + bat_names(split_all(l.skip(directive_prefix().len() as int), ';'))
        } else {
            prev
        }
    }
}

proof fn lemma_bat_names_push(done: Seq<Seq<char>>, seg: Seq<char>)
    ensures
        bat_names(done.push(seg)) == (if starts_with(trim(seg), bat_word()) {
            bat_names(done).push(trim(seg).skip(4))
        } else {
            bat_names(done)
        }),
{
    assert(done.push(seg).drop_last() =~= done);
}

fn bat_names_of(cs: &Vec<char>, lo: usize, out: &mut Vec<String>)
    requires
        lo <= cs@.len(),
    ensures
        texts_of(final(out)@) == texts_of(old(out)@) + bat_names(split_all(cs@.skip(lo as int), ';')),
{
    let ghost args = cs@.skip(lo as int);
    let ghost base = texts_of(out@);
    let ghost mut done: Seq<Seq<char>> = Seq::empty();
    let mut start = lo;
    let mut i = lo;
    proof {
        assert(args.take(0) =~= Seq::<char>::empty());
        assert(cs@.subrange(start as int, i as int) =~= Seq::<char>::empty());
        assert(split_all(args.take(0), ';') =~= done.push(cs@.subrange(start as int, i as int)));
    }
    while i < cs.len()
        invariant
            lo <= start <= i <= cs@.len(),
            args == cs@.skip(lo as int),
            split_all(args.take(i - lo), ';') == done.push(cs@.subrange(start as int, i as int)),
            texts_of(out@) == base + bat_names(done),
        decreases cs@.len() - i,
    {
        proof {
            assert(args.take(i + 1 - lo).drop_last() =~= args.take(i - lo));
            assert(args.take(i + 1 - lo).last() == cs@[i as int]);
        }
        if cs[i] == ';' {
            let ghost seg = cs@.subrange(start as int, i as int);
            let ghost before = texts_of(out@);
            let (a, b) = trim_bounds(cs, start, i);
            proof {
                lemma_bat_names_push(done, seg);
                reveal_strlit("bat ");
                assert("bat "@ =~= bat_word());
            }
            if starts_with_at(cs, a, b, "bat ") {
                proof {
                    assert(cs@.subrange(a + 4, b as int) =~= cs@.subrange(a as int, b as int).skip(4));
                }
                out.push(string_of(cs, a + 4, b));
                assert(texts_of(out@) =~= before.push(trim(seg).skip(4)));
            } else {
                assert(texts_of(out@) =~= before);
            }
            proof {
                let f = split_all(args.take(i - lo), ';');
                assert(split_all(args.take(i + 1 - lo), ';') == f.push(Seq::empty()));
                done = done.push(seg);
                assert(texts_of(out@) =~= base + bat_names(done));
                assert(cs@.subrange(i + 1, i + 1) =~= Seq::<char>::empty());
                assert(split_all(args.take(i + 1 - lo), ';') =~= done.push(cs@.subrange(i + 1, i + 1)));
            }
            start = i + 1;
        } else {
            proof {
                let f = split_all(args.take(i - lo), ';');
                assert(f.last() == cs@.subrange(start as int, i as int));
                assert(cs@.subrange(start as int, i + 1) =~= f.last().push(cs@[i as int]));
                assert(split_all(args.take(i + 1 - lo), ';') =~= done.push(cs@.subrange(start as int, i + 1)));
            }
        }
        i = i + 1;
    }
    proof {
        assert(args.take(i - lo) =~= args);
    }
    let ghost seg = cs@.subrange(start as int, i as int);
    let ghost before = texts_of(out@);
    let (a, b) = trim_bounds(cs, start, i);
    proof {
        lemma_bat_names_push(done, seg);
        reveal_strlit("bat ");
        assert("bat "@ =~= bat_word());
    }
    if starts_with_at(cs, a, b, "bat ") {
        proof {
            assert(cs@.subrange(a + 4, b as int) =~= cs@.subrange(a as int, b as int).skip(4));
        }
        out.push(string_of(cs, a + 4, b));
        assert(texts_of(out@) =~= before.push(trim(seg).skip(4)));
    } else {
        assert(texts_of(out@) =~= before);
    }
    proof {
        assert(texts_of(out@) =~= base + bat_names(done.push(seg)));
    }
}

/// The load order that the ini lines give; see `load_order_spec`.
pub fn get_bat_order(lines: &Vec<String>) -> (r: Vec<String>)
    ensures
        texts_of(r@) == load_order_spec(texts_of(lines@)),
{
    let mut r: Vec<String> = Vec::new();
    let mut i: usize = 0;
    while i < lines.len()
        invariant
            i <= lines@.len(),
            texts_of(r@) == load_order_spec(texts_of(lines@.take(i as int))),
        decreases lines@.len() - i,
    {
        proof {
            assert(texts_of(lines@.take(i + 1)).drop_last() =~= texts_of(lines@.take(i as int)));
        }
        let cs = chars_of(lines[i].as_str());
        if starts_with_at(&cs, 0, cs.len(), "sStartingConsoleCommand=") {
            proof {
                reveal_strlit("sStartingConsoleCommand=");
                assert(cs@.subrange(0, cs@.len() as int) =~= cs@);
            }
            bat_names_of(&cs, 24, &mut r);
        } else {
            proof {
                assert(cs@.subrange(0, cs@.len() as int) =~= cs@);
            }
        }
        i = i + 1;
    }
    assert(lines@.take(i as int) =~= lines@);
    r
}

pub open spec fn general_header() -> Seq<char> {
    "[General]"@
}

pub open spec fn has_general(lines: Seq<Seq<char>>) -> bool {
    exists|i: int| 0 <= i < lines.len() && starts_with(#[trigger] lines[i], general_header())
}

pub open spec fn has_directive(lines: Seq<Seq<char>>) -> bool {
    exists|i: int| 0 <= i < lines.len() && starts_with(#[trigger] lines[i], directive_prefix())
}

/// The lines with every directive line replaced by `cmd`, and, where
/// `after_header`, `cmd` put after every line that is exactly `[General]`.
pub open spec fn rewritten(lines: Seq<Seq<char>>, cmd: Seq<char>, after_header: bool) -> Seq<Seq<char>>
    decreases lines.len(),
{
    if lines.len() == 0 {
        Seq::empty()
    } else {
        let prev = rewritten(lines.drop_last(), cmd, after_header);
        let l = lines.last();
        if starts_with(l, directive_prefix()) {
            prev.push(cmd)
        } else if after_header && l == general_header() {
            prev.push(l).push(cmd)
        } else {
            prev.push(l)
        }
    }
}

/// The ini lines once the directive `cmd` is merged in: a directive line is
/// replaced where it stands; with none, `cmd` goes after the `[General]`
/// header, or, with no such section either, a blank line, the header and
/// `cmd` are added at the end.
pub open spec fn merged_lines(lines: Seq<Seq<char>>, cmd: Seq<char>) -> Seq<Seq<char>> {
    let g = has_general(lines);
    let d = has_directive(lines);
    let body = rewritten(lines, cmd, g && !d);
    if !g && !d {
        body + seq![Seq::empty(), general_header(), cmd]
    } else {
        body
    }
}

/// The ini lines with the directive merged in, and whether the ini is
/// malformed: a directive with no `[General]` section to hold it.
pub struct IniMerge {
    pub lines: Vec<String>,
    pub malformed: bool,
}

/// Merges the directive that runs `commands` into the ini `lines`; see
/// `merged_lines`.
pub fn add_command_to_ini(lines: &Vec<String>, commands: &Vec<String>) -> (r: IniMerge)
    ensures
        texts_of(r.lines@) == merged_lines(texts_of(lines@), command_line_of(texts_of(commands@))),
        r.malformed == (!has_general(texts_of(lines@)) && has_directive(texts_of(lines@))),
{
    let ghost ls = texts_of(lines@);
    let start_command = get_command_line(commands);
    let ghost cmd = start_command@;
    proof {
        reveal_strlit("[General]");
        reveal_strlit("sStartingConsoleCommand=");
    }
    let mut needs_general = true;
    let mut needs_start = true;
    let mut i: usize = 0;
    while i < lines.len()
        invariant
            i <= lines@.len(),
            ls == texts_of(lines@),
            needs_general == !has_general(ls.take(i as int)),
            needs_start == !has_directive(ls.take(i as int)),
        decreases lines@.len() - i,
    {
        let cs = chars_of(lines[i].as_str());
        proof {
            assert(cs@.subrange(0, cs@.len() as int) =~= cs@);
            let t = ls.take(i + 1);
            assert(t[i as int] == cs@);
            assert forall|j: int| 0 <= j < i implies t[j] == ls.take(i as int)[j] by {}
        }
        if starts_with_at(&cs, 0, cs.len(), "[General]") {
            needs_general = false;
            assert(starts_with(ls.take(i + 1)[i as int], general_header()));
        }
        if starts_with_at(&cs, 0, cs.len(), "sStartingConsoleCommand=") {
            needs_start = false;
            assert(starts_with(ls.take(i + 1)[i as int], directive_prefix()));
        }
        proof {
            let t = ls.take(i + 1);
            if has_general(t) {
                let j = choose|j: int| 0 <= j < t.len() && starts_with(#[trigger] t[j], general_header());
                if j < i {
                    assert(ls.take(i as int)[j] == t[j]);
                }
            }
            if has_directive(t) {
                let j = choose|j: int| 0 <= j < t.len() && starts_with(#[trigger] t[j], directive_prefix());
                if j < i {
                    assert(ls.take(i as int)[j] == t[j]);
                }
            }
            if has_general(ls.take(i as int)) {
                let j = choose|j: int| 0 <= j < i && starts_with(#[trigger] ls.take(i as int)[j], general_header());
                assert(t[j] == ls.take(i as int)[j]);
            }
            if has_directive(ls.take(i as int)) {
                let j = choose|j: int| 0 <= j < i && starts_with(#[trigger] ls.take(i as int)[j], directive_prefix());
                assert(t[j] == ls.take(i as int)[j]);
            }
        }
        i = i + 1;
    }
    assert(ls.take(i as int) =~= ls);
    let after_header = !needs_general && needs_start;
    let mut out: Vec<String> = Vec::new();
    let mut k: usize = 0;
    while k < lines.len()
        invariant
            k <= lines@.len(),
            ls == texts_of(lines@),
            cmd == start_command@,
            texts_of(out@) == rewritten(ls.take(k as int), cmd, after_header),
        decreases lines@.len() - k,
    {
        proof {
            reveal_strlit("[General]");
            reveal_strlit("sStartingConsoleCommand=");
            assert(ls.take(k + 1).drop_last() =~= ls.take(k as int));
            assert(ls.take(k + 1).last() == lines@[k as int]@);
        }
        let cs = chars_of(lines[k].as_str());
        proof {
            assert(cs@.subrange(0, cs@.len() as int) =~= cs@);
        }
        if starts_with_at(&cs, 0, cs.len(), "sStartingConsoleCommand=") {
            out.push(start_command.clone());
        } else if after_header && cs.len() == 9 && starts_with_at(&cs, 0, 9, "[General]") {
            proof {
                assert(cs@.subrange(0, 9) =~= cs@);
                assert(cs@.take(9) =~= cs@);
            }
            out.push(lines[k].clone());
            out.push(start_command.clone());
        } else {
            proof {
                if after_header && cs@ == general_header() {
                    assert(cs@.subrange(0, 9) =~= cs@);
                    assert(cs@.take(9) =~= cs@);
                }
            }
            out.push(lines[k].clone());
        }
        proof {
            assert(texts_of(out@) =~= rewritten(ls.take(k + 1), cmd, after_header));
        }
        k = k + 1;
    }
    assert(ls.take(k as int) =~= ls);
    if needs_general && needs_start {
        let ghost before = texts_of(out@);
        out.push(String::new());
        let mut header = String::new();
        push_text(&mut header, "[General]");
        out.push(header);
        out.push(start_command);
        assert(texts_of(out@) =~= before + seq![Seq::empty(), general_header(), cmd]);
    }
    IniMerge { lines: out, malformed: needs_general && !needs_start }
}

proof fn lemma_rewritten_in_place(lines: Seq<Seq<char>>, cmd: Seq<char>)
    ensures
        rewritten(lines, cmd, false).len() == lines.len(),
        forall|i: int|
            0 <= i < lines.len() ==> #[trigger] rewritten(lines, cmd, false)[i] == if starts_with(
                lines[i],
                directive_prefix(),
            ) {
                cmd
            } else {
                lines[i]
            },
    decreases lines.len(),
{
    if lines.len() > 0 {
        lemma_rewritten_in_place(lines.drop_last(), cmd);
        assert forall|i: int| 0 <= i < lines.len() - 1 implies lines.drop_last()[i] == lines[i] by {}
    }
}

/// Merging into an ini that holds a directive replaces each directive line
/// where it stands and leaves every other line as it was, in its place.
pub proof fn lemma_directive_replaced_in_place(lines: Seq<Seq<char>>, cmd: Seq<char>)
    requires
        has_directive(lines),
    ensures
        merged_lines(lines, cmd).len() == lines.len(),
        forall|i: int|
            0 <= i < lines.len() ==> #[trigger] merged_lines(lines, cmd)[i] == if starts_with(
                lines[i],
                directive_prefix(),
            ) {
                cmd
            } else {
                lines[i]
            },
{
    lemma_rewritten_in_place(lines, cmd);
}

/// Merging into an ini with neither a `[General]` section nor a directive
/// keeps its lines and adds a blank line, the header and the directive.
pub proof fn lemma_general_section_appended(lines: Seq<Seq<char>>, cmd: Seq<char>)
    requires
        !has_general(lines),
        !has_directive(lines),
    ensures
        merged_lines(lines, cmd) == lines + seq![Seq::empty(), general_header(), cmd],
{
    lemma_rewritten_in_place(lines, cmd);
    assert forall|i: int| 0 <= i < lines.len() implies !starts_with(#[trigger] lines[i], directive_prefix()) by {}
    assert(rewritten(lines, cmd, false) =~= lines);
}

} // verus!
