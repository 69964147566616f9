//! Two Bluetooth settings that can be put on a board and taken back off.
//!
//! Some boards cannot keep one make of controller bonded. Until that is understood,
//! they run with `Privacy = device` in BlueZ's configuration and with ERTM disabled
//! in the kernel module's. The end state is every board with neither, so both halves
//! are reversible.
//!
//! This module decides what the two files should hold; reading them, replacing them
//! and rebooting is the caller's. A file that is absent or cannot be read counts as
//! empty.

use vstd::prelude::*;
use crate::pad::{PadFallback as Fallback, PadFallbackResult};
use crate::text::{
    chars_of, eq_ignore_ascii_case, find_char, join_lines, part, same_chars, same_text, split_lines,
    split_words, text_of, trimmed, trimmed_start, trimmed_start_matches,
};
use crate::text::{
    ascii_lower, first_index, is_space, lemma_first_index, lemma_first_index_is, lemma_lines_are_single,
    lemma_lines_concat, lemma_lines_of_render, lemma_trim_of_stripped,
    lemma_words_of_stripped, lines, render, same_but_case, single_lines, strip_cr, texts, trim,
    trim_end, trim_start, trim_start_matches, words,
};

verus! {

/// BlueZ's own configuration. `Privacy` lives in its `[General]` section.
pub const MAIN_CONF: &'static str = "/etc/bluetooth/main.conf";

/// Where the ERTM option lives.
pub const MODPROBE_CONF: &'static str = "/etc/modprobe.d/bluetooth.conf";

/// The live knob, for the running kernel.
pub const ERTM_PARAM: &'static str = "/sys/module/bluetooth/parameters/disable_ertm";

/// The module option that disables ERTM.
pub const ERTM_OPTION: &'static str = "options bluetooth disable_ertm=1";

/// What is written above the option, line by line.
pub const ERTM_NOTE: &'static str =
    "# Temporary: some boards cannot keep an Xbox pad's LE bond. Set by";

pub const ERTM_NOTE_MORE: &'static str =
    "# `robotctl pad fallback on`, removed by `robotctl pad fallback off`.";

/// The lower-case form of a text that is not all ASCII.
pub uninterp spec fn lowercased(text: Seq<char>) -> Seq<char>;

pub open spec fn all_ascii(text: Seq<char>) -> bool {
    forall|i: int| 0 <= i < text.len() ==> (#[trigger] text[i]) as int <= 127
}

/// The lower-case form of a text.
pub open spec fn lowered(text: Seq<char>) -> Seq<char> {
    if all_ascii(text) {
        text.map_values(|c: char| ascii_lower(c))
    } else {
        lowercased(text)
    }
}

/// Calls `str::to_lowercase`. On ASCII text that lowers the letters A to Z and
/// nothing else; beyond ASCII it follows Unicode's tables, and the result only has a
/// name.
#[verifier::external_body]
fn to_lowercase(text: &str) -> (out: String)
    ensures
        out@ == if all_ascii(text@) {
            text@.map_values(|c: char| ascii_lower(c))
        } else {
            lowercased(text@)
        },
{
    text.to_lowercase()
}

// Privacy

pub open spec fn has_equals(line: Seq<char>) -> bool {
    first_index(line, '=') < line.len()
}

/// Is this the `Privacy` setting, commented out or not? What stands before the first
/// equals sign, comment marks aside, is the key.
pub open spec fn privacy_line(line: Seq<char>) -> bool {
    has_equals(line) && same_but_case(
        trim(trim_start_matches(trim_start(line.take(first_index(line, '='))), '#')),
        "Privacy"@,
    )
}

pub open spec fn commented(line: Seq<char>) -> bool {
    trim_start(line).len() > 0 && trim_start(line)[0] == '#'
}

/// An active `Privacy` line.
pub open spec fn privacy_set(line: Seq<char>) -> bool {
    privacy_line(line) && !commented(line)
}

/// What stands behind the first equals sign, in lower case.
pub open spec fn value_of(line: Seq<char>) -> Seq<char> {
    lowered(trim(line.skip(first_index(line, '=') + 1)))
}

/// The value of the first active `Privacy` line.
pub open spec fn privacy_setting(text: Seq<Seq<char>>) -> Option<Seq<char>>
    decreases text.len(),
{
    if text.len() == 0 {
        None
    } else if privacy_set(text[0]) {
        Some(value_of(text[0]))
    } else {
        privacy_setting(text.skip(1))
    }
}

/// Where the first `Privacy` line stands, or the number of lines where there is none.
pub open spec fn first_privacy(text: Seq<Seq<char>>) -> int
    decreases text.len(),
{
    if text.len() == 0 || privacy_line(text[0]) {
        0
    } else {
        1 + first_privacy(text.skip(1))
    }
}

pub open spec fn general_line(line: Seq<char>) -> bool {
    trim(line) == "[General]"@
}

pub open spec fn first_general(text: Seq<Seq<char>>) -> int
    decreases text.len(),
{
    if text.len() == 0 || general_line(text[0]) {
        0
    } else {
        1 + first_general(text.skip(1))
    }
}

pub open spec fn wanted_line(value: Seq<char>) -> Seq<char> {
    "Privacy = "@ + value
}

/// The lines with `Privacy` set: an existing line is replaced, commented out or not;
/// else one is inserted under `[General]`; else the section is appended, a blank line
/// before it where there is anything to separate it from.
pub open spec fn with_privacy(text: Seq<Seq<char>>, value: Seq<char>) -> Seq<Seq<char>> {
    if first_privacy(text) < text.len() {
        text.update(first_privacy(text), wanted_line(value))
    } else if first_general(text) < text.len() {
        text.insert(first_general(text) + 1, wanted_line(value))
    } else if text.len() > 0 {
        text.push(Seq::empty()).push("[General]"@).push(wanted_line(value))
    } else {
        seq!["[General]"@, wanted_line(value)]
    }
}

/// The lines to write for `Privacy` to be `value`, or `None` when it already is. An
/// unset `Privacy` already is off.
pub open spec fn privacy_edit(text: Seq<Seq<char>>, value: Seq<char>) -> Option<Seq<Seq<char>>> {
    if privacy_setting(text) == Some(value) || (value == "off"@ && privacy_setting(text) is None) {
        None
    } else {
        Some(with_privacy(text, value))
    }
}

/// Is this the `Privacy` setting, commented out or not?
pub fn is_privacy_line(line: &[char]) -> (r: bool)
    ensures
        r == privacy_line(line@),
{
    let at: usize = find_char(line, '=');
    if at >= line.len() {
        return false;
    }
    let key = part(line, 0, at);
    assert(key@ =~= line@.take(at as int));
    let bare = trimmed_start_matches(&trimmed_start(&key), '#');
    eq_ignore_ascii_case(&trimmed(&bare), &chars_of("Privacy"))
}

fn is_commented(line: &[char]) -> (r: bool)
    ensures
        r == commented(line@),
{
    let bare = trimmed_start(line);
    bare.len() > 0 && bare[0] == '#'
}

fn privacy_of(text: &Vec<Vec<char>>) -> (value: Option<String>)
    ensures
        match value {
            Some(v) => privacy_setting(texts(text@)) == Some(v@),
            None => privacy_setting(texts(text@)) is None,
        },
{
    let ghost all = texts(text@);
    let mut i: usize = 0;
    assert(all.skip(0) =~= all);
    while i < text.len()
        invariant
            i <= text.len(),
            all == texts(text@),
            privacy_setting(all) == privacy_setting(all.skip(i as int)),
        decreases text.len() - i,
    {
        let line = &text[i];
        assert(all.skip(i as int)[0] == line@);
        assert(all.skip(i as int).skip(1) =~= all.skip(i + 1));
        if is_privacy_line(line) && !is_commented(line) {
            let at: usize = find_char(line, '=');
            let rest = part(line, at + 1, line.len());
            assert(rest@ =~= line@.skip(at + 1));
            let value = text_of(&trimmed(&rest));
            return Some(to_lowercase(value.as_str()));
        }
        i = i + 1;
    }
    None
}

/// The value of the first active `Privacy` line, in lower case. A commented-out one is
/// not a setting.
pub fn privacy_value(conf: &str) -> (value: Option<String>)
    ensures
        match value {
            Some(v) => privacy_setting(lines(conf@)) == Some(v@),
            None => privacy_setting(lines(conf@)) is None,
        },
{
    privacy_of(&split_lines(&chars_of(conf)))
}

// ERTM

/// Is this an active line disabling ERTM? Whitespace varies; a commented one does not
/// count.
pub open spec fn ertm_line(line: Seq<char>) -> bool {
    !commented(line) && words(line) == words(ERTM_OPTION@)
}

pub open spec fn ertm_set(text: Seq<Seq<char>>) -> bool {
    exists|i: int| 0 <= i < text.len() && ertm_line(#[trigger] text[i])
}

/// The lines but for those that disable ERTM.
pub open spec fn without_ertm(text: Seq<Seq<char>>) -> Seq<Seq<char>> {
    text.filter(|line: Seq<char>| !ertm_line(line))
}

/// Some line is neither blank nor a comment.
pub open spec fn says_anything(text: Seq<Seq<char>>) -> bool {
    exists|i: int| 0 <= i < text.len() && trim(#[trigger] text[i]).len() > 0 && !commented(text[i])
}

/// What is appended to disable ERTM.
pub open spec fn ertm_lines() -> Seq<Seq<char>> {
    seq![ERTM_NOTE@, ERTM_NOTE_MORE@, ERTM_OPTION@]
}

/// The text with its last line ended.
pub open spec fn ended(text: Seq<char>) -> Seq<char> {
    if text.len() > 0 && text.last() != '\n' {
        text.push('\n')
    } else {
        text
    }
}

/// What should become of a file.
pub enum FileEdit {
    Keep,
    Write(String),
    Remove,
}

impl FileEdit {
    /// What the file holds once the edit is made.
    pub open spec fn leaves(self, existing: Seq<char>) -> Seq<char> {
        match self {
            FileEdit::Keep => existing,
            FileEdit::Write(text) => text@,
            FileEdit::Remove => Seq::empty(),
        }
    }
}

/// The right edit for ERTM to be disabled, or not to be. Removing takes the line, not
/// the file; the file goes only once nothing but comments and blank lines is left.
pub open spec fn is_ertm_edit(existing: Seq<char>, enable: bool, edit: FileEdit) -> bool {
    let text = lines(existing);
    if ertm_set(text) == enable {
        edit is Keep
    } else if enable {
        edit matches FileEdit::Write(body) && body@ == ended(existing) + render(ertm_lines())
    } else if says_anything(without_ertm(text)) {
        edit matches FileEdit::Write(body) && body@ == render(without_ertm(text))
    } else {
        edit is Remove
    }
}

/// Is this an active line disabling ERTM?
pub fn is_ertm_option(line: &[char]) -> (r: bool)
    ensures
        r == ertm_line(line@),
{
    if is_commented(line) {
        return false;
    }
    let have = split_words(line);
    let want = split_words(&chars_of(ERTM_OPTION));
    if have.len() != want.len() {
        assert(texts(have@).len() != texts(want@).len());
        return false;
    }
    let mut i: usize = 0;
    while i < have.len()
        invariant
            i <= have.len(),
            have.len() == want.len(),
            texts(have@) == words(line@),
            texts(want@) == words(ERTM_OPTION@),
            forall|j: int| 0 <= j < i ==> (#[trigger] texts(have@)[j]) == texts(want@)[j],
        decreases have.len() - i,
    {
        if !same_chars(&have[i], &want[i]) {
            assert(texts(have@)[i as int] == have@[i as int]@);
            assert(texts(want@)[i as int] == want@[i as int]@);
            return false;
        }
        i = i + 1;
    }
    assert(texts(have@) =~= texts(want@));
    true
}

fn has_ertm(text: &Vec<Vec<char>>) -> (r: bool)
    ensures
        r == ertm_set(texts(text@)),
{
    let ghost all = texts(text@);
    let mut i: usize = 0;
    while i < text.len()
        invariant
            i <= text.len(),
            all == texts(text@),
            forall|j: int| 0 <= j < i ==> !ertm_line(#[trigger] all[j]),
        decreases text.len() - i,
    {
        assert(all[i as int] == text@[i as int]@);
        if is_ertm_option(&text[i]) {
            return true;
        }
        i = i + 1;
    }
    false
}

/// What a board carries whose files hold these texts.
pub open spec fn state_of(main_conf: Seq<char>, modprobe_conf: Seq<char>) -> Fallback {
    Fallback {
        privacy_device: privacy_setting(lines(main_conf)) == Some("device"@),
        ertm_disabled: ertm_set(lines(modprobe_conf)),
    }
}

/// The value that `Privacy` is to have.
pub open spec fn privacy_for(enable: bool) -> Seq<char> {
    if enable {
        "device"@
    } else {
        "off"@
    }
}

/// What to do to both files and to the live knob.
pub struct Edits {
    /// The new contents of the main configuration, or `None` to leave it alone.
    pub main_conf: Option<String>,
    pub modprobe_conf: FileEdit,
    /// What to write to the live knob, best effort.
    pub ertm_param: &'static str,
    /// Something moves, so a reboot is called for.
    pub changed: bool,
}

impl Edits {
    /// What the main configuration holds once the edit is made.
    pub open spec fn main_after(self, existing: Seq<char>) -> Seq<char> {
        match self.main_conf {
            Some(text) => text@,
            None => existing,
        }
    }
}

/// The edits that bring a board with these files into the state asked for.
pub open spec fn are_edits(
    main_conf: Seq<char>,
    modprobe_conf: Seq<char>,
    enable: bool,
    edits: Edits,
) -> bool {
    &&& match privacy_edit(lines(main_conf), privacy_for(enable)) {
        Some(text) => edits.main_conf matches Some(out) && out@ == render(text),
        None => edits.main_conf is None,
    }
    &&& is_ertm_edit(modprobe_conf, enable, edits.modprobe_conf)
    &&& edits.ertm_param@ == if enable {
        "Y\n"@
    } else {
        "N\n"@
    }
    &&& edits.changed == (edits.main_conf is Some || !(edits.modprobe_conf is Keep))
}

/// The files of a board.
#[derive(Debug, Clone, PartialEq, Eq)]
pub struct PadFallback {
    pub main_conf: String,
    pub modprobe_conf: String,
    pub ertm_param: String,
}

impl Default for PadFallback {
    fn default() -> (board: Self)
        ensures
            board.main_conf@ == MAIN_CONF@,
            board.modprobe_conf@ == MODPROBE_CONF@,
            board.ertm_param@ == ERTM_PARAM@,
    {
        PadFallback::new()
    }
}

impl PadFallback {
    /// The real board.
    pub fn new() -> (board: Self)
        ensures
            board.main_conf@ == MAIN_CONF@,
            board.modprobe_conf@ == MODPROBE_CONF@,
            board.ertm_param@ == ERTM_PARAM@,
    {
        PadFallback::at(MAIN_CONF, MODPROBE_CONF, ERTM_PARAM)
    }

    pub fn at(main_conf: &str, modprobe_conf: &str, ertm_param: &str) -> (board: Self)
        ensures
            board.main_conf@ == main_conf@,
            board.modprobe_conf@ == modprobe_conf@,
            board.ertm_param@ == ertm_param@,
    {
        PadFallback {
            main_conf: main_conf.to_owned(),
            modprobe_conf: modprobe_conf.to_owned(),
            ertm_param: ertm_param.to_owned(),
        }
    }

    /// What the board has right now, given what its two files hold.
    pub fn state(&self, main_conf: &str, modprobe_conf: &str) -> (state: Fallback)
        ensures
            state == state_of(main_conf@, modprobe_conf@),
    {
        let privacy_device = match privacy_value(main_conf) {
            Some(value) => same_text(value.as_str(), "device"),
            None => false,
        };
        let ertm_disabled = has_ertm(&split_lines(&chars_of(modprobe_conf)));
        Fallback { privacy_device, ertm_disabled }
    }

    /// What to do for both halves to be applied, or neither. Nothing, when the board
    /// already is in the state asked for.
    pub fn set(&self, enable: bool, main_conf: &str, modprobe_conf: &str) -> (edits: Edits)
        ensures
            are_edits(main_conf@, modprobe_conf@, enable, edits),
    {
        let privacy = self.set_privacy(
            main_conf,
            if enable {
                "device"
            } else {
                "off"
            },
        );
        let ertm = self.set_ertm(modprobe_conf, enable);
        let moved = match ertm {
            FileEdit::Keep => false,
            _ => true,
        };
        let changed = privacy.is_some() || moved;
        Edits {
            main_conf: privacy,
            modprobe_conf: ertm,
            ertm_param: if enable {
                "Y\n"
            } else {
                "N\n"
            },
            changed,
        }
    }

    /// The answer to a request, once its edits are made and the files read again. A
    /// reboot is only asked for when something moved.
    pub fn result(&self, edits: &Edits, main_conf: &str, modprobe_conf: &str) -> (result:
        PadFallbackResult)
        ensures
            result.fallback == state_of(main_conf@, modprobe_conf@),
            result.changed == edits.changed,
            result.reboot_required == edits.changed,
    {
        PadFallbackResult {
            fallback: self.state(main_conf, modprobe_conf),
            changed: edits.changed,
            reboot_required: edits.changed,
        }
    }

    /// The main configuration with `Privacy = value` in `[General]`, or `None` when
    /// nothing needs to change. Anything else in the file is left alone.
    pub fn set_privacy(&self, existing: &str, value: &str) -> (edit: Option<String>)
        ensures
            match privacy_edit(lines(existing@), value@) {
                Some(text) => edit matches Some(out) && out@ == render(text),
                None => edit is None,
            },
    {
        let mut text = split_lines(&chars_of(existing));
        let ghost all = texts(text@);
        match privacy_of(&text) {
            Some(current) => {
                if same_text(current.as_str(), value) {
                    return None;
                }
            },
            None => {
                if same_text(value, "off") {
                    return None;
                }
            },
        }
        let mut wanted = "Privacy = ".to_owned();
        wanted.append(value);
        let wanted = chars_of(wanted.as_str());
        let at: usize = position_of(&text, true);
        if at < text.len() {
            text.set(at, wanted);
            assert(texts(text@) =~= all.update(at as int, wanted@));
        } else {
            let general: usize = position_of(&text, false);
            if general < text.len() {
                text.insert(general + 1, wanted);
                assert(texts(text@) =~= all.insert(general + 1, wanted@));
            } else {
                let header = chars_of("[General]");
                if text.len() > 0 {
                    text.push(Vec::new());
                    text.push(header);
                    text.push(wanted);
                    assert(texts(text@) =~= all.push(Seq::empty()).push("[General]"@).push(
                        wanted@,
                    ));
                } else {
                    text.push(header);
                    text.push(wanted);
                    assert(texts(text@) =~= seq!["[General]"@, wanted@]);
                }
            }
        }
        Some(text_of(&join_lines(&text)))
    }

    /// What to do to the module options for ERTM to be disabled, or not to be.
    pub fn set_ertm(&self, existing: &str, enable: bool) -> (edit: FileEdit)
        ensures
            is_ertm_edit(existing@, enable, edit),
    {
        let text = split_lines(&chars_of(existing));
        let present = has_ertm(&text);
        if present == enable {
            return FileEdit::Keep;
        }
        if enable {
            let mut body = existing.to_owned();
            let chars = chars_of(existing);
            if chars.len() > 0 && chars[chars.len() - 1] != '\n' {
                body.push('\n');
            }
            assert(body@ == ended(existing@));
            body.append(ERTM_NOTE);
            body.push('\n');
            body.append(ERTM_NOTE_MORE);
            body.push('\n');
            body.append(ERTM_OPTION);
            body.push('\n');
            proof {
                let l = ertm_lines();
                assert(l.skip(1).skip(1).skip(1) =~= Seq::<Seq<char>>::empty());
                assert(render(Seq::<Seq<char>>::empty()) =~= Seq::<char>::empty());
                assert(render(l.skip(1).skip(1)) =~= ERTM_OPTION@.push('\n'));
                assert(render(l.skip(1)) =~= ERTM_NOTE_MORE@.push('\n') + ERTM_OPTION@.push('\n'));
                assert(body@ =~= ended(existing@) + render(l));
            }
            FileEdit::Write(body)
        } else {
            let mut kept: Vec<Vec<char>> = Vec::new();
            let mut anything_left = false;
            let ghost all = texts(text@);
            let ghost keeps = |line: Seq<char>| !ertm_line(line);
            let mut i: usize = 0;
            proof {
                assert(all.take(0).filter(keeps) =~= Seq::<Seq<char>>::empty()) by {
                    reveal(Seq::filter);
                }
                assert(texts(kept@) =~= Seq::<Seq<char>>::empty());
            }
            while i < text.len()
                invariant
                    i <= text.len(),
                    all == texts(text@),
                    keeps == (|line: Seq<char>| !ertm_line(line)),
                    texts(kept@) == all.take(i as int).filter(keeps),
                    anything_left == says_anything(texts(kept@)),
                decreases text.len() - i,
            {
                let line = &text[i];
                let ghost before = texts(kept@);
                assert(all[i as int] == line@);
                assert(all.take(i + 1).drop_last() =~= all.take(i as int));
                assert(all.take(i + 1).filter(keeps) == if keeps(line@) {
                    before.push(line@)
                } else {
                    before
                }) by {
                    reveal(Seq::filter);
                }
                if !is_ertm_option(line) {
                    let says = trimmed(line).len() > 0 && !is_commented(line);
                    let copy = part(line, 0, line.len());
                    assert(copy@ =~= line@);
                    kept.push(copy);
                    proof {
                        let after = texts(kept@);
                        assert(after =~= before.push(line@));
                        if says_anything(before) {
                            let j = choose|j: int|
                                0 <= j < before.len() && trim(#[trigger] before[j]).len() > 0
                                    && !commented(before[j]);
                            assert(after[j] == before[j]);
                        }
                        if says {
                            assert(after[after.len() - 1] == line@);
                        }
                        if says_anything(after) {
                            let j = choose|j: int|
                                0 <= j < after.len() && trim(#[trigger] after[j]).len() > 0
                                    && !commented(after[j]);
                            if j < before.len() {
                                assert(before[j] == after[j]);
                            }
                        }
                    }
                    anything_left = anything_left || says;
                }
                i = i + 1;
            }
            assert(all.take(text.len() as int) =~= all);
            if anything_left {
                FileEdit::Write(text_of(&join_lines(&kept)))
            } else {
                FileEdit::Remove
            }
        }
    }
}

// Where the first `Privacy` line stands, or the first `[General]` line.
fn position_of(text: &Vec<Vec<char>>, privacy: bool) -> (at: usize)
    ensures
        at <= text.len(),
        privacy ==> at == first_privacy(texts(text@)),
        !privacy ==> at == first_general(texts(text@)),
{
    let ghost all = texts(text@);
    let mut i: usize = 0;
    assert(all.skip(0) =~= all);
    while i < text.len()
        invariant
            i <= text.len(),
            all == texts(text@),
            privacy ==> first_privacy(all) == i + first_privacy(all.skip(i as int)),
            !privacy ==> first_general(all) == i + first_general(all.skip(i as int)),
        decreases text.len() - i,
    {
        let line = &text[i];
        assert(all.skip(i as int)[0] == line@);
        assert(all.skip(i as int).skip(1) =~= all.skip(i + 1));
        let hit = if privacy {
            is_privacy_line(line)
        } else {
            same_chars(&trimmed(line), &chars_of("[General]"))
        };
        if hit {
            return i;
        }
        i = i + 1;
    }
    assert(all.skip(i as int).len() == 0);
    i
}

// ---------------------------------------------------------------------------
// What setting and reading back gives
// ---------------------------------------------------------------------------

// A carriage return at the end of a line changes nothing that is read from it.
proof fn lemma_stripped_line(l: Seq<char>)
    ensures
        commented(strip_cr(l)) == commented(l),
        privacy_line(strip_cr(l)) == privacy_line(l),
        privacy_set(strip_cr(l)) == privacy_set(l),
        privacy_line(l) ==> value_of(strip_cr(l)) == value_of(l),
        ertm_line(strip_cr(l)) == ertm_line(l),
{
    lemma_trim_of_stripped(l);
    lemma_words_of_stripped(l);
    let t = strip_cr(l);
    if t != l {
        lemma_first_index(l, '=');
        let k = first_index(l, '=');
        if k < l.len() {
            assert(k < t.len());
            lemma_first_index_is(t, '=', k);
            assert(t.take(k) =~= l.take(k));
            let v = l.skip(k + 1);
            assert(t.skip(k + 1) =~= strip_cr(v));
            lemma_trim_of_stripped(v);
        } else {
            lemma_first_index_is(t, '=', t.len() as int);
        }
    }
}

spec fn stripped(text: Seq<Seq<char>>) -> Seq<Seq<char>> {
    text.map_values(|l: Seq<char>| strip_cr(l))
}

proof fn lemma_stripped_setting(text: Seq<Seq<char>>)
    ensures
        privacy_setting(stripped(text)) == privacy_setting(text),
    decreases text.len(),
{
    if text.len() > 0 {
        lemma_stripped_line(text[0]);
        assert(stripped(text).skip(1) =~= stripped(text.skip(1)));
        lemma_stripped_setting(text.skip(1));
    }
}

proof fn lemma_setting_at(text: Seq<Seq<char>>, n: int)
    requires
        0 <= n < text.len(),
        privacy_set(text[n]),
        forall|i: int| 0 <= i < n ==> !privacy_set(#[trigger] text[i]),
    ensures
        privacy_setting(text) == Some(value_of(text[n])),
    decreases n,
{
    if n > 0 {
        assert(!privacy_set(text[0]));
        assert forall|i: int| 0 <= i < n - 1 implies !privacy_set(
            #[trigger] text.skip(1)[i],
        ) by {
            assert(text.skip(1)[i] == text[i + 1]);
        }
        lemma_setting_at(text.skip(1), n - 1);
    }
}

proof fn lemma_first_privacy(text: Seq<Seq<char>>)
    ensures
        0 <= first_privacy(text) <= text.len(),
        first_privacy(text) < text.len() ==> privacy_line(text[first_privacy(text)]),
        forall|i: int| 0 <= i < first_privacy(text) ==> !privacy_line(#[trigger] text[i]),
    decreases text.len(),
{
    if text.len() > 0 && !privacy_line(text[0]) {
        lemma_first_privacy(text.skip(1));
        assert forall|i: int| 0 <= i < first_privacy(text) implies !privacy_line(
            #[trigger] text[i],
        ) by {
            if i > 0 {
                assert(text.skip(1)[i - 1] == text[i]);
            }
        }
    }
}

proof fn lemma_first_general(text: Seq<Seq<char>>)
    ensures
        0 <= first_general(text) <= text.len(),
    decreases text.len(),
{
    if text.len() > 0 && !general_line(text[0]) {
        lemma_first_general(text.skip(1));
    }
}

// Lower-case letters and at least one of them.
spec fn plain_word(value: Seq<char>) -> bool {
    value.len() > 0 && forall|i: int|
        0 <= i < value.len() ==> 'a' <= (#[trigger] value[i]) && value[i] <= 'z'
}

proof fn lemma_wanted_line(value: Seq<char>)
    requires
        plain_word(value),
    ensures
        privacy_set(wanted_line(value)),
        value_of(wanted_line(value)) == value,
        forall|i: int| 0 <= i < wanted_line(value).len() ==> wanted_line(value)[i] != '\n',
{
    reveal_strlit("Privacy = ");
    reveal_strlit("Privacy");
    let w = wanted_line(value);
    lemma_first_index_is(w, '=', 8);
    let key = w.take(8);
    assert(trim_start(key) == key);
    assert(trim_start_matches(key, '#') == key);
    assert(key.last() == ' ');
    assert(key.drop_last() =~= "Privacy"@);
    assert(!is_space("Privacy"@.last()));
    assert(trim_end("Privacy"@) == "Privacy"@);
    assert(trim(key) == "Privacy"@);
    assert(trim_start(w) == w);
    let v = w.skip(9);
    assert(v[0] == ' ');
    assert(v.skip(1) =~= value);
    assert(!is_space(value[0]));
    assert(!is_space(value[value.len() - 1]));
    assert(trim_start(value) == value);
    assert(trim_start(v) == value);
    assert(trim_end(value) == value);
    assert(trim(v) == value);
    assert forall|i: int| 0 <= i < value.len() implies (#[trigger] value[i]) as int <= 127 by {}
    assert(lowered(value) =~= value);
    assert forall|i: int| 0 <= i < w.len() implies w[i] != '\n' by {
        if i >= 10 {
            assert(w[i] == value[i - 10]);
        }
    }
}

proof fn lemma_header_line()
    ensures
        !privacy_line("[General]"@),
        !privacy_line(Seq::<char>::empty()),
        forall|i: int| 0 <= i < "[General]"@.len() ==> "[General]"@[i] != '\n',
{
    reveal_strlit("[General]");
    lemma_first_index_is("[General]"@, '=', 9);
}

// With the line in place, it is what is read.
proof fn lemma_setting_after(text: Seq<Seq<char>>, value: Seq<char>)
    requires
        plain_word(value),
    ensures
        privacy_setting(with_privacy(text, value)) == Some(value),
{
    let w = wanted_line(value);
    let after = with_privacy(text, value);
    lemma_wanted_line(value);
    lemma_header_line();
    lemma_first_privacy(text);
    lemma_first_general(text);
    let at = if first_privacy(text) < text.len() {
        first_privacy(text)
    } else if first_general(text) < text.len() {
        first_general(text) + 1
    } else if text.len() > 0 {
        text.len() as int + 2
    } else {
        1
    };
    assert(after[at] == w);
    assert forall|i: int| 0 <= i < at implies !privacy_set(#[trigger] after[i]) by {
        if i < text.len() {
            assert(after[i] == text[i]);
            assert(!privacy_line(text[i]));
        }
    }
    lemma_setting_at(after, at);
}

proof fn lemma_after_is_single(text: Seq<Seq<char>>, value: Seq<char>)
    requires
        plain_word(value),
        single_lines(text),
    ensures
        single_lines(with_privacy(text, value)),
{
    let after = with_privacy(text, value);
    lemma_wanted_line(value);
    lemma_header_line();
    lemma_first_privacy(text);
    lemma_first_general(text);
    assert forall|i: int, j: int|
        0 <= i < after.len() && 0 <= j < after[i].len() implies #[trigger] after[i][j] != '\n' by {
        if after[i] != wanted_line(value) && after[i] != "[General]"@ && after[i].len() > 0 {
            let k = if first_privacy(text) >= text.len() && first_general(text) < text.len() && i
                > first_general(text) {
                i - 1
            } else {
                i
            };
            assert(after[i] == text[k]);
            assert(text[k][j] != '\n');
        }
    }
}

/// Setting `Privacy` and reading the file back gives the value that was set.
pub proof fn law_privacy_reads_back(existing: Seq<char>, enable: bool)
    ensures
        privacy_edit(lines(existing), privacy_for(enable)) matches Some(text) ==> privacy_setting(
            lines(render(text)),
        ) == Some(privacy_for(enable)),
{
    let value = privacy_for(enable);
    reveal_strlit("device");
    reveal_strlit("off");
    assert(plain_word(value));
    let text = lines(existing);
    if let Some(after) = privacy_edit(text, value) {
        lemma_lines_are_single(existing);
        lemma_after_is_single(text, value);
        lemma_lines_of_render(after);
        lemma_stripped_setting(after);
        lemma_setting_after(text, value);
    }
}

/// Every line that is not a `Privacy` line is still there.
pub proof fn law_other_lines_are_kept(text: Seq<Seq<char>>, value: Seq<char>, i: int)
    requires
        0 <= i < text.len(),
        !privacy_line(text[i]),
    ensures
        with_privacy(text, value).contains(text[i]),
{
    lemma_first_privacy(text);
    lemma_first_general(text);
    let after = with_privacy(text, value);
    let k = if first_privacy(text) >= text.len() && first_general(text) < text.len() && i
        > first_general(text) {
        i + 1
    } else {
        i
    };
    assert(after[k] == text[i]);
}

/// An existing `Privacy` line is replaced rather than joined by a second one.
pub proof fn law_privacy_is_not_duplicated(text: Seq<Seq<char>>, value: Seq<char>, i: int)
    requires
        0 <= i < text.len(),
        privacy_line(text[i]),
    ensures
        with_privacy(text, value).len() == text.len(),
{
    lemma_first_privacy(text);
}

proof fn lemma_stripped_ertm(text: Seq<Seq<char>>)
    ensures
        ertm_set(stripped(text)) == ertm_set(text),
{
    assert forall|i: int| 0 <= i < text.len() implies ertm_line(#[trigger] stripped(text)[i])
        == ertm_line(text[i]) by {
        lemma_stripped_line(text[i]);
    }
    if ertm_set(text) {
        let i = choose|i: int| 0 <= i < text.len() && ertm_line(#[trigger] text[i]);
        assert(ertm_line(stripped(text)[i]));
    }
    if ertm_set(stripped(text)) {
        let i = choose|i: int|
            0 <= i < stripped(text).len() && ertm_line(#[trigger] stripped(text)[i]);
        assert(ertm_line(text[i]));
    }
}

proof fn lemma_option_line()
    ensures
        ertm_line(ERTM_OPTION@),
{
    reveal_strlit("options bluetooth disable_ertm=1");
    assert(trim_start(ERTM_OPTION@) == ERTM_OPTION@);
}

// What is appended ends in the option, on a line of its own.
proof fn lemma_appended_option(existing: Seq<char>)
    ensures
        ertm_set(lines(ended(existing) + render(ertm_lines()))),
{
    reveal_strlit("options bluetooth disable_ertm=1");
    let option = ERTM_OPTION@;
    let l = ertm_lines();
    let before = ended(existing) + (ERTM_NOTE@.push('\n') + ERTM_NOTE_MORE@.push('\n'));
    let last = option.push('\n');
    assert(l.skip(1).skip(1).skip(1) =~= Seq::<Seq<char>>::empty());
    assert(render(Seq::<Seq<char>>::empty()) =~= Seq::<char>::empty());
    assert(render(l.skip(1).skip(1)) =~= last);
    assert(render(l.skip(1)) =~= ERTM_NOTE_MORE@.push('\n') + last);
    assert(ended(existing) + render(l) =~= before + last);
    assert(before.last() == '\n');
    lemma_lines_concat(before, last);
    lemma_first_index(option, '\n');
    lemma_lines_of_option();
    let all = lines(before) + lines(last);
    assert(all[all.len() - 1] == option);
    lemma_option_line();
}

proof fn lemma_lines_of_option()
    ensures
        lines(ERTM_OPTION@.push('\n')) == seq![ERTM_OPTION@],
{
    reveal_strlit("options bluetooth disable_ertm=1");
    let option = ERTM_OPTION@;
    let s = option.push('\n');
    assert forall|i: int| 0 <= i < option.len() implies s[i] != '\n' by {
        assert(s[i] == option[i]);
    }
    lemma_first_index_is(s, '\n', option.len() as int);
    assert(s.take(option.len() as int) =~= option);
    assert(s.skip(option.len() as int + 1) =~= Seq::<char>::empty());
    assert(lines(Seq::<char>::empty()) =~= Seq::<Seq<char>>::empty());
    assert(lines(s) =~= seq![option]);
}

proof fn lemma_filtered(text: Seq<Seq<char>>)
    ensures
        !ertm_set(without_ertm(text)),
        single_lines(text) ==> single_lines(without_ertm(text)),
    decreases text.len(),
{
    reveal(Seq::filter);
    let keeps = |line: Seq<char>| !ertm_line(line);
    if text.len() > 0 {
        let rest = text.drop_last();
        lemma_filtered(rest);
        let kept = without_ertm(rest);
        let all = without_ertm(text);
        assert(all == if keeps(text.last()) {
            kept.push(text.last())
        } else {
            kept
        });
        assert forall|i: int| 0 <= i < all.len() implies !ertm_line(#[trigger] all[i]) by {
            if i < kept.len() {
                assert(all[i] == kept[i]);
            }
        }
        if single_lines(text) {
            assert(single_lines(rest)) by {
                assert forall|i: int, j: int|
                    0 <= i < rest.len() && 0 <= j < rest[i].len() implies #[trigger] rest[i][j]
                    != '\n' by {
                    assert(text[i][j] != '\n');
                }
            }
            assert forall|i: int, j: int|
                0 <= i < all.len() && 0 <= j < all[i].len() implies #[trigger] all[i][j]
                != '\n' by {
                if i < kept.len() {
                    assert(kept[i][j] != '\n');
                } else {
                    assert(text[text.len() - 1][j] != '\n');
                }
            }
        }
    }
}

/// Once the edit is made, ERTM is disabled exactly if that was asked for.
pub proof fn law_ertm_reads_back(existing: Seq<char>, enable: bool, edit: FileEdit)
    requires
        is_ertm_edit(existing, enable, edit),
    ensures
        ertm_set(lines(edit.leaves(existing))) == enable,
{
    let text = lines(existing);
    if ertm_set(text) != enable {
        if enable {
            lemma_appended_option(existing);
        } else {
            lemma_filtered(text);
            lemma_lines_are_single(existing);
            lemma_lines_of_render(without_ertm(text));
            lemma_stripped_ertm(without_ertm(text));
        }
    }
}

/// Once its edits are made, a board is in the state that was asked for: both halves
/// applied, or neither.
pub proof fn law_set_reaches_the_state(
    main_conf: Seq<char>,
    modprobe_conf: Seq<char>,
    enable: bool,
    edits: Edits,
)
    requires
        are_edits(main_conf, modprobe_conf, enable, edits),
    ensures
        state_of(edits.main_after(main_conf), edits.modprobe_conf.leaves(modprobe_conf)) == (
        Fallback { privacy_device: enable, ertm_disabled: enable }),
{
    reveal_strlit("device");
    reveal_strlit("off");
    law_privacy_reads_back(main_conf, enable);
    law_ertm_reads_back(modprobe_conf, enable, edits.modprobe_conf);
    assert("device"@.len() != "off"@.len());
}

/// Asking again for the state that a board was brought into changes nothing.
pub proof fn law_set_is_idempotent(
    main_conf: Seq<char>,
    modprobe_conf: Seq<char>,
    enable: bool,
    edits: Edits,
    again: Edits,
)
    requires
        are_edits(main_conf, modprobe_conf, enable, edits),
        are_edits(
            edits.main_after(main_conf),
            edits.modprobe_conf.leaves(modprobe_conf),
            enable,
            again,
        ),
    ensures
        again.main_conf is None,
        again.modprobe_conf is Keep,
        !again.changed,
{
    law_privacy_reads_back(main_conf, enable);
    law_ertm_reads_back(modprobe_conf, enable, edits.modprobe_conf);
}

proof fn lemma_note_lines()
    ensures
        single_lines(ertm_lines()),
        stripped(ertm_lines()) == ertm_lines(),
        commented(ERTM_NOTE@),
        commented(ERTM_NOTE_MORE@),
{
    reveal_strlit("# Temporary: some boards cannot keep an Xbox pad's LE bond. Set by");
    reveal_strlit("# `robotctl pad fallback on`, removed by `robotctl pad fallback off`.");
    reveal_strlit("options bluetooth disable_ertm=1");
    let l = ertm_lines();
    assert forall|j: int| 0 <= j < ERTM_NOTE@.len() implies #[trigger] ERTM_NOTE@[j] != '\n' by {}
    assert forall|j: int| 0 <= j < ERTM_NOTE_MORE@.len() implies #[trigger] ERTM_NOTE_MORE@[j]
        != '\n' by {}
    assert forall|j: int| 0 <= j < ERTM_OPTION@.len() implies #[trigger] ERTM_OPTION@[j]
        != '\n' by {}
    assert forall|i: int, j: int|
        0 <= i < l.len() && 0 <= j < l[i].len() implies #[trigger] l[i][j] != '\n' by {
        if i == 0 {
            assert(l[0] == ERTM_NOTE@);
        } else if i == 1 {
            assert(l[1] == ERTM_NOTE_MORE@);
        } else {
            assert(l[2] == ERTM_OPTION@);
        }
    }
    assert(stripped(l) =~= l);
    assert(trim_start(ERTM_NOTE@) == ERTM_NOTE@);
    assert(trim_start(ERTM_NOTE_MORE@) == ERTM_NOTE_MORE@);
}

/// A file that putting the option on created is gone once the option is taken off.
pub proof fn law_created_file_is_removed(on: FileEdit, off: FileEdit)
    requires
        is_ertm_edit(Seq::empty(), true, on),
        is_ertm_edit(on.leaves(Seq::empty()), false, off),
    ensures
        on is Write,
        off is Remove,
{
    let l = ertm_lines();
    let body = on.leaves(Seq::empty());
    assert(lines(Seq::<char>::empty()) =~= Seq::<Seq<char>>::empty());
    assert(Seq::<char>::empty() + render(l) =~= render(l));
    lemma_note_lines();
    lemma_option_line();
    lemma_lines_of_render(l);
    assert(lines(body) == l);
    assert(ertm_line(l[2]));
    assert(without_ertm(l) =~= seq![ERTM_NOTE@, ERTM_NOTE_MORE@]) by {
        reveal(Seq::filter);
        let keeps = |line: Seq<char>| !ertm_line(line);
        assert(l.drop_last() =~= seq![ERTM_NOTE@, ERTM_NOTE_MORE@]);
        assert(l.drop_last().drop_last() =~= seq![ERTM_NOTE@]);
        assert(l.drop_last().drop_last().drop_last() =~= Seq::<Seq<char>>::empty());
        assert(l.drop_last().drop_last().drop_last().filter(keeps) =~= Seq::<Seq<char>>::empty());
        assert(l.drop_last().drop_last().filter(keeps) =~= seq![ERTM_NOTE@]);
        assert(l.drop_last().filter(keeps) =~= seq![ERTM_NOTE@, ERTM_NOTE_MORE@]);
    }
}

// What counts as a setting

/// A line whose first mark is `#` sets nothing, whatever else it holds, and neither does
/// one without an equals sign.
pub proof fn law_comments_set_nothing(line: Seq<char>, k: int)
    requires
        0 <= k <= line.len(),
        forall|i: int| 0 <= i < k ==> is_space(#[trigger] line[i]),
    ensures
        k < line.len() && line[k] == '#' ==> !privacy_set(line) && !ertm_line(line),
        (forall|i: int| 0 <= i < line.len() ==> #[trigger] line[i] != '=') ==> !privacy_set(line)
            && !privacy_line(line),
{
    if k < line.len() && line[k] == '#' {
        lemma_indented(line, k);
    }
    if forall|i: int| 0 <= i < line.len() ==> #[trigger] line[i] != '=' {
        lemma_first_index_is(line, '=', line.len() as int);
    }
}

proof fn lemma_indented(line: Seq<char>, k: int)
    requires
        0 <= k < line.len(),
        forall|i: int| 0 <= i < k ==> is_space(#[trigger] line[i]),
        !is_space(line[k]),
    ensures
        trim_start(line) == line.skip(k),
    decreases k,
{
    if k > 0 {
        assert(is_space(line[0]));
        let rest = line.skip(1);
        assert forall|i: int| 0 <= i < k - 1 implies is_space(#[trigger] rest[i]) by {
            assert(rest[i] == line[i + 1]);
        }
        lemma_indented(rest, k - 1);
        assert(rest.skip(k - 1) =~= line.skip(k));
    } else {
        assert(line.skip(0) =~= line);
    }
}

/// The first active line decides: what stands before it sets nothing, and what comes
/// after it does not matter.
pub proof fn law_the_first_active_line_decides(
    before: Seq<Seq<char>>,
    line: Seq<char>,
    after: Seq<Seq<char>>,
    other: Seq<Seq<char>>,
)
    requires
        privacy_set(line),
        forall|i: int| 0 <= i < before.len() ==> !privacy_set(#[trigger] before[i]),
    ensures
        privacy_setting(before.push(line) + after) == Some(value_of(line)),
        privacy_setting(before.push(line) + after) == privacy_setting(before.push(line) + other),
        privacy_setting(before) is None,
{
    let (x, y) = (before.push(line) + after, before.push(line) + other);
    let n = before.len() as int;
    assert forall|i: int| 0 <= i < n implies !privacy_set(#[trigger] x[i]) by {
        assert(x[i] == before[i]);
    }
    assert forall|i: int| 0 <= i < n implies !privacy_set(#[trigger] y[i]) by {
        assert(y[i] == before[i]);
    }
    assert(x[n] == line && y[n] == line);
    lemma_setting_at(x, n);
    lemma_setting_at(y, n);
    lemma_no_setting(before);
}

proof fn lemma_no_setting(text: Seq<Seq<char>>)
    requires
        forall|i: int| 0 <= i < text.len() ==> !privacy_set(#[trigger] text[i]),
    ensures
        privacy_setting(text) is None,
    decreases text.len(),
{
    if text.len() > 0 {
        assert(!privacy_set(text[0]));
        assert forall|i: int| 0 <= i < text.skip(1).len() implies !privacy_set(
            #[trigger] text.skip(1)[i],
        ) by {
            assert(text.skip(1)[i] == text[i + 1]);
        }
        lemma_no_setting(text.skip(1));
    }
}

/// `Privacy = value`, written as the board writes it, is an active setting of that
/// value, for any value of lower-case letters.
pub proof fn law_what_is_written_is_a_setting(value: Seq<char>)
    requires
        value.len() > 0,
        forall|i: int| 0 <= i < value.len() ==> 'a' <= (#[trigger] value[i]) <= 'z',
    ensures
        privacy_setting(seq!["Privacy = "@ + value]) == Some(value),
{
    assert forall|i: int| 0 <= i < value.len() implies 'a' <= (#[trigger] value[i]) && value[i]
        <= 'z' by {}
    lemma_wanted_line(value);
    let text = seq!["Privacy = "@ + value];
    lemma_setting_at(text, 0);
}

/// A line is put under the section's header where the file has one and no line to
/// replace, and every other line keeps its place in the order.
pub proof fn law_the_line_goes_under_its_section(
    before: Seq<Seq<char>>,
    after: Seq<Seq<char>>,
    value: Seq<char>,
)
    requires
        forall|i: int|
            0 <= i < before.len() ==> !privacy_line(#[trigger] before[i]) && trim(before[i])
                != "[General]"@,
        forall|i: int| 0 <= i < after.len() ==> !privacy_line(#[trigger] after[i]),
    ensures
        with_privacy(before.push("[General]"@) + after, value) == before.push("[General]"@).push(
            "Privacy = "@ + value,
        ) + after,
{
    reveal_strlit("[General]");
    let head = "[General]"@;
    let text = before.push(head) + after;
    let n = before.len() as int;
    lemma_header_line();
    assert(trim(head) == head) by {
        assert(!is_space(head[0]));
        assert(!is_space(head.last()));
        assert(trim_start(head) == head);
        assert(trim_end(head) == head);
    }
    assert forall|i: int| 0 <= i < text.len() implies !privacy_line(#[trigger] text[i]) by {
        if i < n {
            assert(text[i] == before[i]);
        } else if i > n {
            assert(text[i] == after[i - n - 1]);
        } else {
            assert(text[i] == head);
        }
    }
    lemma_first_privacy(text);
    assert(first_privacy(text) == text.len());
    assert forall|i: int| 0 <= i < n implies !general_line(#[trigger] text[i]) by {
        assert(text[i] == before[i]);
    }
    assert(general_line(text[n]));
    lemma_first_general_is(text, n);
    assert(with_privacy(text, value) =~= before.push(head).push("Privacy = "@ + value) + after);
}

proof fn lemma_first_general_is(text: Seq<Seq<char>>, n: int)
    requires
        0 <= n < text.len(),
        general_line(text[n]),
        forall|i: int| 0 <= i < n ==> !general_line(#[trigger] text[i]),
    ensures
        first_general(text) == n,
    decreases n,
{
    if n > 0 {
        assert(!general_line(text[0]));
        assert forall|i: int| 0 <= i < n - 1 implies !general_line(#[trigger] text.skip(1)[i]) by {
            assert(text.skip(1)[i] == text[i + 1]);
        }
        lemma_first_general_is(text.skip(1), n - 1);
    }
}

/// A line to replace is replaced where it stands, the first if there are several, and
/// all others stay as they are.
pub proof fn law_the_first_privacy_line_is_replaced(
    before: Seq<Seq<char>>,
    line: Seq<char>,
    after: Seq<Seq<char>>,
    value: Seq<char>,
)
    requires
        privacy_line(line),
        forall|i: int| 0 <= i < before.len() ==> !privacy_line(#[trigger] before[i]),
    ensures
        with_privacy(before.push(line) + after, value) == before.push("Privacy = "@ + value)
            + after,
{
    let text = before.push(line) + after;
    let n = before.len() as int;
    lemma_first_privacy(text);
    assert(text[n] == line);
    let k = first_privacy(text);
    if k < n {
        assert(text[k] == before[k]);
    }
    if k > n {
        assert(!privacy_line(text[n]));
    }
    assert(with_privacy(text, value) =~= before.push("Privacy = "@ + value) + after);
}

/// With neither a line nor a section, both are written at the end, a blank line before
/// them where the file holds anything.
pub proof fn law_a_missing_section_is_added(text: Seq<Seq<char>>, value: Seq<char>)
    requires
        forall|i: int|
            0 <= i < text.len() ==> !privacy_line(#[trigger] text[i]) && trim(text[i])
                != "[General]"@,
    ensures
        text.len() > 0 ==> with_privacy(text, value) == text + seq![
            Seq::<char>::empty(),
            "[General]"@,
            "Privacy = "@ + value,
        ],
        text.len() == 0 ==> with_privacy(text, value) == seq!["[General]"@, "Privacy = "@ + value],
{
    lemma_first_privacy(text);
    if first_privacy(text) < text.len() {
        assert(privacy_line(text[first_privacy(text)]));
    }
    lemma_first_general(text);
    lemma_no_general(text);
    if text.len() > 0 {
        assert(with_privacy(text, value) =~= text + seq![
            Seq::<char>::empty(),
            "[General]"@,
            "Privacy = "@ + value,
        ]);
    }
}

proof fn lemma_no_general(text: Seq<Seq<char>>)
    requires
        forall|i: int| 0 <= i < text.len() ==> trim(#[trigger] text[i]) != "[General]"@,
    ensures
        first_general(text) == text.len(),
    decreases text.len(),
{
    if text.len() > 0 {
        assert(trim(text[0]) != "[General]"@);
        assert forall|i: int| 0 <= i < text.skip(1).len() implies trim(#[trigger] text.skip(1)[i])
            != "[General]"@ by {
            assert(text.skip(1)[i] == text[i + 1]);
        }
        lemma_no_general(text.skip(1));
    }
}

/// Putting the option on keeps all that the file held and adds to its end; taking it
/// off keeps every other line, in order, and removes the file only when no line is left
/// that is neither blank nor a comment.
pub proof fn law_the_option_file_is_otherwise_kept(existing: Seq<char>, edit: FileEdit, i: int)
    requires
        0 <= i < existing.len(),
    ensures
        is_ertm_edit(existing, true, edit) ==> i < edit.leaves(existing).len() && edit.leaves(
            existing,
        )[i] == existing[i],
        is_ertm_edit(existing, false, edit) && edit is Remove ==> forall|k: int|
            0 <= k < without_ertm(lines(existing)).len() ==> trim(
                #[trigger] without_ertm(lines(existing))[k],
            ).len() == 0 || commented(without_ertm(lines(existing))[k]),
        is_ertm_edit(existing, false, edit) && edit is Keep ==> !ertm_set(lines(existing)),
{
    if is_ertm_edit(existing, true, edit) && !(edit is Keep) {
        assert((ended(existing) + render(ertm_lines()))[i] == existing[i]);
    }
}

/// A line that disables ERTM goes when the option is taken off, and any other stays.
pub proof fn law_only_the_option_is_taken_out(text: Seq<Seq<char>>, line: Seq<char>)
    ensures
        ertm_line(line) ==> without_ertm(text.push(line)) == without_ertm(text),
        !ertm_line(line) ==> without_ertm(text.push(line)) == without_ertm(text).push(line),
{
    reveal(Seq::filter);
    assert(text.push(line).drop_last() =~= text);
}

/// White space aside, exactly one line disables ERTM, and it counts wherever it stands.
pub proof fn law_the_option_counts_wherever_it_stands(text: Seq<Seq<char>>, i: int)
    requires
        0 <= i < text.len(),
        text[i] == "options bluetooth disable_ertm=1"@,
    ensures
        ertm_set(text),
{
    lemma_option_line();
    assert(ertm_line(text[i]));
}

/// Nothing that is not set is read: a file without either setting is that of a board
/// which carries neither.
pub proof fn law_an_empty_board_carries_nothing()
    ensures
        state_of(Seq::empty(), Seq::empty()) == (Fallback {
            privacy_device: false,
            ertm_disabled: false,
        }),
{
    assert(lines(Seq::<char>::empty()) =~= Seq::<Seq<char>>::empty());
}

/// A reboot is called for exactly when one of the two files changes.
pub proof fn law_a_change_is_a_change_of_a_file(
    main_conf: Seq<char>,
    modprobe_conf: Seq<char>,
    enable: bool,
    edits: Edits,
)
    requires
        are_edits(main_conf, modprobe_conf, enable, edits),
    ensures
        !edits.changed ==> edits.main_after(main_conf) == main_conf && edits.modprobe_conf.leaves(
            modprobe_conf,
        ) == modprobe_conf,
        edits.changed <==> edits.main_conf is Some || edits.modprobe_conf is Write
            || edits.modprobe_conf is Remove,
        edits.ertm_param@.len() == 2,
        edits.ertm_param@[0] == if enable {
            'Y'
        } else {
            'N'
        },
{
    reveal_strlit("Y\n");
    reveal_strlit("N\n");
}

/// Taking the option off removes the file exactly when every other line is blank or a
/// comment; one line with anything else keeps it.
pub proof fn law_one_line_that_says_something_keeps_the_file(
    existing: Seq<char>,
    edit: FileEdit,
    i: int,
)
    requires
        is_ertm_edit(existing, false, edit),
        ertm_set(lines(existing)),
    ensures
        0 <= i < without_ertm(lines(existing)).len() && trim(
            without_ertm(lines(existing))[i],
        ).len() > 0 && !commented(without_ertm(lines(existing))[i]) ==> edit is Write,
        (forall|k: int|
            0 <= k < without_ertm(lines(existing)).len() ==> trim(
                #[trigger] without_ertm(lines(existing))[k],
            ).len() == 0 || commented(without_ertm(lines(existing))[k])) ==> edit is Remove,
{
}

} // verus!
