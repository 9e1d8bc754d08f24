//! The command line: editing and recalling commands, running them, and what they report.

use vstd::prelude::*;

use crate::analysis::slicer::{MAX_SLICES, SLICES_PER_BANK};
use crate::banks::{banks_of, Bank, BankEntry, Library};
use crate::config::{bare_config, BreakConfig, Config};
use crate::editor::{Editor, EditorState};
use crate::sequencer::{Sequencer, SequencerState};
use crate::text::{
    chars_of, decimal, decimal_of, is_space, lines_of, part_of, spells, starts_with, string_of,
    trim, trimmed, trimmed_start,
};
use crate::variables::{
    applied, in_bounds, lemma_commands_keep_bounds, lemma_saving_is_stable,
    lemma_settings_survive_saving, settings_of, try_variable_command, value_in, variable_command,
    variable_value, Answer, Reading, Settings, Variables,
};

verus! {

/// How long a status message stays, in nanoseconds.
pub const STATUS_SPAN: u128 = 3_000_000_000;

/// What the user wants to confirm with y/N.
#[derive(Debug, Clone, Copy, PartialEq, Eq, Structural)]
pub enum PendingAction {
    Quit,
    Reload,
}

/// The command line as it stands.
#[verifier::ext_equal]
pub struct Console {
    pub active: bool,
    pub buffer: Seq<char>,
    pub history: Seq<Seq<char>>,
    pub history_index: Option<int>,
    pub status_message: Seq<char>,
    pub status_time: Option<int>,
    pub confirm_prompt: Seq<char>,
    pub pending_action: Option<PendingAction>,
}

/// The command line: what is being typed, what was typed before, and what is shown.
pub struct CommandState {
    pub active: bool,
    pub buffer: String,
    pub history: Vec<String>,
    pub history_index: Option<usize>,
    pub status_message: String,
    /// When the status message was put up, in nanoseconds.
    pub status_time: Option<u128>,
    pub confirm_prompt: String,
    pub pending_action: Option<PendingAction>,
}

impl View for CommandState {
    type V = Console;

    open spec fn view(&self) -> Console {
        Console {
            active: self.active,
            buffer: self.buffer@,
            history: lines_of(self.history@),
            history_index: match self.history_index {
                Some(i) => Some(i as int),
                None => None,
            },
            status_message: self.status_message@,
            status_time: match self.status_time {
                Some(t) => Some(t as int),
                None => None,
            },
            confirm_prompt: self.confirm_prompt@,
            pending_action: self.pending_action,
        }
    }
}

impl Console {
    /// A command line that nothing was typed into yet.
    pub open spec fn blank() -> Console {
        Console {
            active: false,
            buffer: Seq::empty(),
            history: Seq::empty(),
            history_index: None,
            status_message: Seq::empty(),
            status_time: None,
            confirm_prompt: Seq::empty(),
            pending_action: None,
        }
    }

    /// A recalled command is one of the history.
    pub open spec fn recalls(self) -> bool {
        self.history_index matches Some(i) ==> 0 <= i < self.history.len()
    }

    /// The command line with a command begun.
    pub open spec fn entered(self) -> Console {
        Console { active: true, buffer: Seq::empty(), ..self }
    }

    /// The command line with its command dropped.
    pub open spec fn cancelled(self) -> Console {
        Console { active: false, buffer: Seq::empty(), history_index: None, ..self }
    }

    /// The command line with a status message put up at the time `now`.
    pub open spec fn showing(self, msg: Seq<char>, now: int) -> Console {
        Console { status_message: msg, status_time: Some(now), ..self }
    }

    /// The command line without its status message, where it shows one.
    pub open spec fn cleared(self) -> Console {
        if self.status_time is Some {
            Console { status_message: Seq::empty(), status_time: None, ..self }
        } else {
            self
        }
    }

    /// The command line without a status message that has been up for longer than it stays.
    pub open spec fn expired(self, now: int) -> Console {
        match self.status_time {
            Some(t) => if now - t > STATUS_SPAN {
                self.cleared()
            } else {
                self
            },
            None => self,
        }
    }

    /// The command before the recalled one, or the last one of the history.
    pub open spec fn up(self) -> Console {
        if self.history.len() == 0 {
            self
        } else {
            let i = match self.history_index {
                None => self.history.len() - 1,
                Some(i) => if i == 0 {
                    0
                } else {
                    i - 1
                },
            };
            Console { history_index: Some(i), buffer: self.history[i], ..self }
        }
    }

    /// The command after the recalled one; an empty one behind the last.
    pub open spec fn down(self) -> Console {
        match self.history_index {
            Some(i) => if i + 1 < self.history.len() {
                Console { history_index: Some(i + 1), buffer: self.history[i + 1], ..self }
            } else {
                Console { history_index: None, buffer: Seq::empty(), ..self }
            },
            None => self,
        }
    }

    /// The command line once its command was taken: the history has it as its last one, unless
    /// it is empty.
    pub open spec fn submitted(self) -> Console {
        Console {
            active: false,
            buffer: Seq::empty(),
            history_index: None,
            history: if self.buffer.len() == 0 || (self.history.len() > 0 && self.history.last()
                == self.buffer) {
                self.history
            } else {
                self.history.push(self.buffer)
            },
            ..self
        }
    }

    /// The command line with one more character typed.
    pub open spec fn with_char(self, c: char) -> Console {
        Console { buffer: self.buffer.push(c), history_index: None, ..self }
    }

    /// The command line without its last character.
    pub open spec fn without_last(self) -> Console {
        Console {
            buffer: if self.buffer.len() > 0 {
                self.buffer.drop_last()
            } else {
                self.buffer
            },
            history_index: None,
            ..self
        }
    }

    /// The command line that asks for a confirmation.
    pub open spec fn asking(self, prompt: Seq<char>, action: PendingAction) -> Console {
        Console { confirm_prompt: prompt, pending_action: Some(action), ..self }
    }

    /// The command line once its question was answered.
    pub open spec fn answered(self) -> Console {
        Console { confirm_prompt: Seq::empty(), pending_action: None, ..self }
    }
}

impl CommandState {
    /// A command line that nothing was typed into yet.
    pub fn new() -> (s: Self)
        ensures
            s@ == Console::blank(),
            s@.recalls(),
    {
        let s = CommandState {
            active: false,
            buffer: String::new(),
            history: Vec::new(),
            history_index: None,
            status_message: String::new(),
            status_time: None,
            confirm_prompt: String::new(),
            pending_action: None,
        };
        assert(lines_of(s.history@) =~= Seq::empty());
        s
    }

    /// Start typing a command.
    pub fn enter(&mut self)
        ensures
            final(self)@ == old(self)@.entered(),
    {
        self.active = true;
        self.buffer = String::new();
    }

    /// Stop typing, and run nothing.
    pub fn cancel(&mut self)
        ensures
            final(self)@ == old(self)@.cancelled(),
    {
        self.active = false;
        self.buffer = String::new();
        self.history_index = None;
    }

    /// Put up a status message.
    pub fn set_status(&mut self, msg: String, now: u128)
        ensures
            final(self)@ == old(self)@.showing(msg@, now as int),
    {
        self.status_message = msg;
        self.status_time = Some(now);
    }

    /// Expire status message after 3 seconds. Call each frame.
    pub fn expire_status(&mut self, now: u128)
        ensures
            final(self)@ == old(self)@.expired(now as int),
    {
        if let Some(t) = self.status_time {
            if now > t && now - t > STATUS_SPAN {
                self.status_message = String::new();
                self.status_time = None;
            }
        }
    }

    /// Clear status on keypress.
    pub fn clear_status(&mut self)
        ensures
            final(self)@ == old(self)@.cleared(),
    {
        if self.status_time.is_some() {
            self.status_message = String::new();
            self.status_time = None;
        }
    }

    /// Recall the command before.
    pub fn history_up(&mut self)
        requires
            old(self)@.history.len() > 0 ==> (old(self)@.history_index matches Some(i) ==> i
                <= old(self)@.history.len()),
        ensures
            final(self)@ == old(self)@.up(),
            old(self)@.recalls() || old(self)@.history.len() > 0 ==> final(self)@.recalls(),
    {
        let n = self.history.len();
        assert(self@.history.len() == n);
        if n > 0 {
            let i: usize = match self.history_index {
                None => n - 1,
                Some(i) => if i == 0 {
                    0
                } else {
                    i - 1
                },
            };
            assert(self@.history[i as int] == self.history@[i as int]@);
            self.buffer = self.history[i].clone();
            self.history_index = Some(i);
        }
    }

    /// Recall the command after.
    pub fn history_down(&mut self)
        ensures
            final(self)@ == old(self)@.down(),
            final(self)@.recalls(),
    {
        let n = self.history.len();
        assert(self@.history.len() == n);
        if let Some(i) = self.history_index {
            if i < n && i + 1 < n {
                assert(self@.history[i + 1] == self.history@[i + 1]@);
                self.buffer = self.history[i + 1].clone();
                self.history_index = Some(i + 1);
            } else {
                self.history_index = None;
                self.buffer = String::new();
            }
        }
    }

    /// Take the command that was typed, and remember it.
    pub fn submit(&mut self) -> (cmd: String)
        ensures
            cmd@ == old(self)@.buffer,
            final(self)@ == old(self)@.submitted(),
            final(self)@.recalls(),
    {
        let ghost before = self@;
        self.active = false;
        let cmd = self.buffer.clone();
        self.buffer = String::new();
        let chars = chars_of(cmd.as_str());
        let n = self.history.len();
        assert(lines_of(self.history@).len() == n);
        if chars.len() > 0 {
            let again = n > 0 && spells(&chars, self.history[n - 1].as_str());
            assert(n > 0 ==> before.history.last() == self.history@[n - 1]@);
            if !again {
                self.history.push(cmd.clone());
                assert(lines_of(self.history@) =~= before.history.push(before.buffer));
            }
        }
        self.history_index = None;
        cmd
    }

    /// Type a character.
    pub fn type_char(&mut self, c: char)
        ensures
            final(self)@ == old(self)@.with_char(c),
            final(self)@.recalls(),
    {
        self.buffer.push(c);
        self.history_index = None;
    }

    /// Take back the last character.
    pub fn erase_char(&mut self)
        ensures
            final(self)@ == old(self)@.without_last(),
            final(self)@.recalls(),
    {
        let chars = chars_of(self.buffer.as_str());
        if chars.len() > 0 {
            let kept = part_of(&chars, 0, chars.len() - 1);
            self.buffer = string_of(&kept);
            assert(self.buffer@ =~= chars@.drop_last());
        }
        self.history_index = None;
    }

    /// Ask for a confirmation.
    fn ask(&mut self, prompt: &str, action: PendingAction)
        ensures
            final(self)@ == old(self)@.asking(prompt@, action),
    {
        self.confirm_prompt = prompt.to_owned();
        self.pending_action = Some(action);
    }

    /// Put the question away.
    pub fn settle(&mut self)
        ensures
            final(self)@ == old(self)@.answered(),
    {
        self.pending_action = None;
        self.confirm_prompt = String::new();
    }
}

/// What a command asks for that is done outside: reading or writing a file, or listing files.
#[derive(Debug, Clone, Copy, PartialEq, Eq, Structural)]
pub enum Request {
    Nothing,
    /// Write the configuration, and report with `do_save`.
    Save,
    /// Read the configuration, and take it with `do_reload`.
    Reload,
    /// List the audio files, and report with `report_audio_files`.
    ListAudioFiles,
}

/// All that a command can change, and what it asks for.
#[verifier::ext_equal]
pub struct Ran {
    pub console: Console,
    pub vars: Settings,
    pub load_path: Option<Seq<char>>,
    pub quit: bool,
    pub request: Request,
}

impl Ran {
    /// The same with a status message.
    pub open spec fn saying(self, msg: Seq<char>, now: int) -> Ran {
        Ran { console: self.console.showing(msg, now), ..self }
    }
}

/// One behind the last slice of a bank.
pub open spec fn bank_end(b: Bank) -> int {
    b.start_slice + b.slice_count
}

/// One behind the last slice of all banks.
pub open spec fn banks_end(banks: Seq<Bank>) -> int
    decreases banks.len(),
{
    if banks.len() == 0 {
        0
    } else {
        let before = banks_end(banks.drop_last());
        if bank_end(banks.last()) > before {
            bank_end(banks.last())
        } else {
            before
        }
    }
}

/// What is said of one bank.
pub open spec fn bank_words(b: Bank) -> Seq<char> {
    " | Bank "@ + decimal((b.start_slice / SLICES_PER_BANK as int) as nat) + ": "@ + b.file_name
        + " ("@ + decimal(b.start_slice as nat) + "-"@ + decimal((bank_end(b) - 1) as nat) + ")"@
}

/// What is said of all banks, one after the other.
pub open spec fn all_bank_words(banks: Seq<Bank>) -> Seq<char>
    decreases banks.len(),
{
    if banks.len() == 0 {
        Seq::empty()
    } else {
        all_bank_words(banks.drop_last()) + bank_words(banks.last())
    }
}

/// What the command `bank` says.
pub open spec fn bank_list(banks: Seq<Bank>) -> Seq<char> {
    decimal(banks_end(banks) as nat) + " slices total"@ + all_bank_words(banks)
}

/// What the command `vars` says.
pub open spec fn vars_list(v: Settings) -> Seq<char> {
    "bpm="@ + v.bpm.text + " lp="@ + v.lp.text + " hp="@ + v.hp.text + " dist="@ + v.dist.text
        + " fade="@ + v.fade.text + " slow="@ + v.slow.text + " fast="@ + v.fast.text
        + " stutter="@ + decimal(v.stutter as nat)
}

/// What stands behind the first word of a command of `n` characters.
pub open spec fn behind(cmd: Seq<char>, n: int) -> Seq<char> {
    trimmed(cmd.skip(n))
}

/// Whether a command is `word`, or starts with it and a space.
pub open spec fn has_word(cmd: Seq<char>, word: Seq<char>, word_and_space: Seq<char>) -> bool {
    cmd == word || word_and_space.is_prefix_of(cmd)
}

/// What `bank load`, with `path` behind it, does.
pub open spec fn bank_loaded(path: Seq<char>, banks: Seq<Bank>, ran: Ran, now: int) -> Ran {
    if banks_end(banks) >= MAX_SLICES {
        ran.saying("No free banks available"@, now)
    } else if path.len() == 0 {
        Ran { request: Request::ListAudioFiles, ..ran }
    } else {
        Ran { load_path: Some(path), ..ran }.saying("Loading "@ + path + "..."@, now)
    }
}

/// What `bank`, with `args` behind it, does.
pub open spec fn bank_run(args: Seq<char>, banks: Seq<Bank>, ran: Ran, now: int) -> Ran {
    if args.len() == 0 {
        ran.saying(bank_list(banks), now)
    } else if has_word(args, "load"@, "load "@) {
        bank_loaded(behind(args, 4), banks, ran, now)
    } else {
        ran.saying("Unknown bank command: "@ + args, now)
    }
}

/// What a command that is none of the others does: it shows or sets a variable, or is unknown.
pub open spec fn variable_run(cmd: Seq<char>, reading: Reading, ran: Ran, now: int) -> Ran {
    let (vars, answer) = variable_command(cmd, reading, ran.vars);
    match answer {
        Some(a) => Ran { vars, ..ran }.saying(a.words(), now),
        None => ran.saying("Unknown command: "@ + cmd, now),
    }
}

/// What a command without white space around it does.
pub open spec fn command_run(
    cmd: Seq<char>,
    reading: Reading,
    dirty: bool,
    banks: Seq<Bank>,
    ran: Ran,
    now: int,
) -> Ran {
    if cmd == "w"@ {
        Ran { request: Request::Save, ..ran }
    } else if cmd == "wq"@ {
        Ran { request: Request::Save, quit: true, ..ran }
    } else if cmd == "q!"@ {
        Ran { quit: true, ..ran }
    } else if cmd == "q"@ {
        if dirty {
            Ran {
                console: ran.console.asking(
                    "Unsaved changes! Quit anyway? (y/N)"@,
                    PendingAction::Quit,
                ),
                ..ran
            }
        } else {
            Ran { quit: true, ..ran }
        }
    } else if cmd == "vars"@ {
        ran.saying(vars_list(ran.vars), now)
    } else if has_word(cmd, "bank"@, "bank "@) {
        bank_run(behind(cmd, 4), banks, ran, now)
    } else if cmd == "e!"@ {
        Ran { request: Request::Reload, ..ran }
    } else if cmd == "e"@ {
        if dirty {
            Ran {
                console: ran.console.asking(
                    "Unsaved changes will be lost! Reload? (y/N)"@,
                    PendingAction::Reload,
                ),
                ..ran
            }
        } else {
            Ran { request: Request::Reload, ..ran }
        }
    } else {
        variable_run(cmd, reading, ran, now)
    }
}

/// The bank numbers can be computed with, and a bank that is listed has a last slice.
pub open spec fn banks_ok(banks: Seq<Bank>, cmd: Seq<char>) -> bool {
    &&& forall|i: int| 0 <= i < banks.len() ==> bank_end(#[trigger] banks[i]) <= usize::MAX
    &&& has_word(cmd, "bank"@, "bank "@) && behind(cmd, 4).len() == 0 ==> forall|i: int|
        0 <= i < banks.len() ==> bank_end(#[trigger] banks[i]) >= 1
}

/// One behind the last slice of all banks.
fn end_of_banks(entries: &[BankEntry]) -> (end: usize)
    requires
        forall|i: int|
            0 <= i < banks_of(entries@).len() ==> bank_end(#[trigger] banks_of(entries@)[i])
                <= usize::MAX,
    ensures
        end == banks_end(banks_of(entries@)),
{
    let ghost banks = banks_of(entries@);
    let mut end: usize = 0;
    let n = entries.len();
    assert(banks.take(0) =~= Seq::empty());
    for i in 0..n
        invariant
            n == entries@.len(),
            banks == banks_of(entries@),
            forall|i: int| 0 <= i < banks.len() ==> bank_end(#[trigger] banks[i]) <= usize::MAX,
            end == banks_end(banks.take(i as int)),
    {
        assert(banks.take(i + 1).drop_last() =~= banks.take(i as int));
        assert(banks[i as int] == entries@[i as int]@);
        assert(bank_end(banks[i as int]) <= usize::MAX);
        let e = entries[i].start_slice + entries[i].slice_count;
        if e > end {
            end = e;
        }
    }
    assert(banks.take(n as int) =~= banks);
    end
}

/// What is said of one bank.
fn say_bank(msg: &mut String, entry: &BankEntry)
    requires
        1 <= bank_end(entry@) <= usize::MAX,
    ensures
        final(msg)@ == old(msg)@ + bank_words(entry@),
{
    let ghost before = msg@;
    let end_slice = entry.start_slice + entry.slice_count - 1;
    let bank_num = entry.start_slice / SLICES_PER_BANK;
    msg.append(" | Bank ");
    msg.append(decimal_of(bank_num as u128).as_str());
    msg.append(": ");
    msg.append(entry.file_name.as_str());
    msg.append(" (");
    msg.append(decimal_of(entry.start_slice as u128).as_str());
    msg.append("-");
    msg.append(decimal_of(end_slice as u128).as_str());
    msg.append(")");
    assert(msg@ =~= before + bank_words(entry@));
}

/// What the command `bank` says.
fn say_banks(entries: &[BankEntry]) -> (msg: String)
    requires
        forall|i: int|
            0 <= i < banks_of(entries@).len() ==> 1 <= bank_end(#[trigger] banks_of(entries@)[i])
                <= usize::MAX,
    ensures
        msg@ == bank_list(banks_of(entries@)),
{
    let ghost banks = banks_of(entries@);
    let mut msg = decimal_of(end_of_banks(entries) as u128);
    msg.append(" slices total");
    let ghost head = msg@;
    let n = entries.len();
    proof {
        assert(banks.take(0) =~= Seq::empty());
        assert(head + Seq::empty() =~= head);
    }
    for i in 0..n
        invariant
            n == entries@.len(),
            banks == banks_of(entries@),
            forall|i: int| 0 <= i < banks.len() ==> 1 <= bank_end(#[trigger] banks[i])
                <= usize::MAX,
            msg@ == head + all_bank_words(banks.take(i as int)),
    {
        assert(banks.take(i + 1).drop_last() =~= banks.take(i as int));
        assert(banks[i as int] == entries@[i as int]@);
        assert(1 <= bank_end(banks[i as int]));
        say_bank(&mut msg, &entries[i]);
        assert(msg@ =~= head + all_bank_words(banks.take(i + 1)));
    }
    assert(banks.take(n as int) =~= banks);
    msg
}

/// What the command `vars` says.
fn say_vars(vars: &Variables) -> (msg: String)
    ensures
        msg@ == vars_list(vars@),
{
    let mut msg = "bpm=".to_string();
    msg.append(vars.bpm.text.as_str());
    msg.append(" lp=");
    msg.append(vars.lp.text.as_str());
    msg.append(" hp=");
    msg.append(vars.hp.text.as_str());
    msg.append(" dist=");
    msg.append(vars.dist.text.as_str());
    msg.append(" fade=");
    msg.append(vars.fade.text.as_str());
    msg.append(" slow=");
    msg.append(vars.slow.text.as_str());
    msg.append(" fast=");
    msg.append(vars.fast.text.as_str());
    msg.append(" stutter=");
    msg.append(decimal_of(vars.stutter as u128).as_str());
    msg
}

/// `label` followed by `what`.
fn say_of(label: &str, what: &[char]) -> (msg: String)
    ensures
        msg@ == label@ + what@,
{
    let mut msg = label.to_owned();
    msg.append(string_of(what).as_str());
    msg
}

/// What stands behind the first `n` characters of a command.
fn rest_of(cmd: &[char], n: usize) -> (rest: Vec<char>)
    requires
        n <= cmd@.len(),
    ensures
        rest@ == behind(cmd@, n as int),
{
    let tail = part_of(cmd, n, cmd.len());
    assert(tail@ =~= cmd@.skip(n as int));
    trim(&tail)
}

/// The characters of an optional path.
pub open spec fn path_view(p: Option<String>) -> Option<Seq<char>> {
    match p {
        Some(s) => Some(s@),
        None => None,
    }
}

/// Run one command. What it asks for outside is returned; its question, its answer, and the path
/// of an audio file to load are put where the caller finds them. `reading` is how the value in
/// the command reads as a number.
pub fn execute_command(
    cmd: &str,
    reading: &Reading,
    vars: &mut Variables,
    dirty: bool,
    cmd_state: &mut CommandState,
    bank_entries: &[BankEntry],
    bank_load_path: &mut Option<String>,
    should_quit: &mut bool,
    now: u128,
) -> (request: Request)
    requires
        banks_ok(banks_of(bank_entries@), trimmed(cmd@)),
    ensures
        (Ran {
            console: final(cmd_state)@,
            vars: final(vars)@,
            load_path: path_view(*final(bank_load_path)),
            quit: *final(should_quit),
            request,
        }) == command_run(
            trimmed(cmd@),
            *reading,
            dirty,
            banks_of(bank_entries@),
            (Ran {
                console: old(cmd_state)@,
                vars: old(vars)@,
                load_path: path_view(*old(bank_load_path)),
                quit: *old(should_quit),
                request: Request::Nothing,
            }),
            now as int,
        ),
{
    let cmd = trim(&chars_of(cmd));
    if spells(&cmd, "w") {
        Request::Save
    } else if spells(&cmd, "wq") {
        *should_quit = true;
        Request::Save
    } else if spells(&cmd, "q!") {
        *should_quit = true;
        Request::Nothing
    } else if spells(&cmd, "q") {
        if dirty {
            cmd_state.ask("Unsaved changes! Quit anyway? (y/N)", PendingAction::Quit);
        } else {
            *should_quit = true;
        }
        Request::Nothing
    } else if spells(&cmd, "vars") {
        cmd_state.set_status(say_vars(vars), now);
        Request::Nothing
    } else if spells(&cmd, "bank") || starts_with(&cmd, "bank ") {
        proof {
            reveal_strlit("bank");
            reveal_strlit("bank ");
        }
        let args = rest_of(&cmd, 4);
        if args.len() == 0 {
            cmd_state.set_status(say_banks(bank_entries), now);
            Request::Nothing
        } else if spells(&args, "load") || starts_with(&args, "load ") {
            proof {
                reveal_strlit("load");
                reveal_strlit("load ");
            }
            if end_of_banks(bank_entries) >= MAX_SLICES {
                cmd_state.set_status("No free banks available".to_string(), now);
                return Request::Nothing;
            }
            let path = rest_of(&args, 4);
            if path.len() == 0 {
                return Request::ListAudioFiles;
            }
            *bank_load_path = Some(string_of(&path));
            let mut msg = say_of("Loading ", &path);
            msg.append("...");
            cmd_state.set_status(msg, now);
            Request::Nothing
        } else {
            cmd_state.set_status(say_of("Unknown bank command: ", &args), now);
            Request::Nothing
        }
    } else if spells(&cmd, "e!") {
        Request::Reload
    } else if spells(&cmd, "e") {
        if dirty {
            cmd_state.ask("Unsaved changes will be lost! Reload? (y/N)", PendingAction::Reload);
            Request::Nothing
        } else {
            Request::Reload
        }
    } else {
        match try_variable_command(&cmd, reading, vars) {
            Some(result) => cmd_state.set_status(result.into_message(), now),
            None => cmd_state.set_status(say_of("Unknown command: ", &cmd), now),
        }
        Request::Nothing
    }
}

/// The text of the value in a command, where it has one.
pub fn command_value(cmd: &str) -> (r: Option<String>)
    ensures
        match r {
            Some(t) => value_in(trimmed(cmd@)) == Some(t@),
            None => value_in(trimmed(cmd@)) is None,
        },
{
    match variable_value(&trim(&chars_of(cmd))) {
        Some(t) => Some(string_of(&t)),
        None => None,
    }
}

/// The texts one behind the other, with `separator` between them.
pub open spec fn listed(names: Seq<Seq<char>>, separator: Seq<char>) -> Seq<char>
    decreases names.len(),
{
    if names.len() == 0 {
        Seq::empty()
    } else if names.len() == 1 {
        names[0]
    } else {
        listed(names.drop_last(), separator) + separator + names.last()
    }
}

/// What is said of the audio files that there are.
pub open spec fn audio_files_words(files: Seq<Seq<char>>) -> Seq<char> {
    if files.len() == 0 {
        "No audio files found. Use :bank load <path>"@
    } else {
        "Files: "@ + listed(files, ", "@) + ". Use :bank load <file>"@
    }
}

/// Report the audio files that there are.
pub fn report_audio_files(files: &[String], cmd_state: &mut CommandState, now: u128)
    ensures
        final(cmd_state)@ == old(cmd_state)@.showing(
            audio_files_words(lines_of(files@)),
            now as int,
        ),
{
    let n = files.len();
    let ghost names = lines_of(files@);
    assert(names.len() == n);
    if n == 0 {
        cmd_state.set_status("No audio files found. Use :bank load <path>".to_string(), now);
        return;
    }
    let mut msg = "Files: ".to_string();
    let ghost head = msg@;
    msg.append(files[0].as_str());
    proof {
        assert(names[0] == files@[0]@);
        assert(names.take(1)[0] == names[0]);
    }
    for i in 1..n
        invariant
            n == files@.len(),
            names == lines_of(files@),
            1 <= n,
            msg@ == head + listed(names.take(i as int), ", "@),
    {
        assert(names.take(i + 1).drop_last() =~= names.take(i as int));
        assert(names[i as int] == files@[i as int]@);
        msg.append(", ");
        msg.append(files[i].as_str());
        assert(msg@ =~= head + listed(names.take(i + 1), ", "@));
    }
    assert(names.take(n as int) =~= names);
    msg.append(". Use :bank load <file>");
    cmd_state.set_status(msg, now);
}

/// What is saved.
pub open spec fn saved(sample: Seq<char>, vars: Settings, lines: Seq<Seq<char>>) -> Config {
    applied(vars, bare_config(sample, vars.bpm, lines))
}

/// A copy of the lines of a pattern.
pub fn copy_lines(beats: &[String]) -> (r: Vec<String>)
    ensures
        lines_of(r@) == lines_of(beats@),
{
    let mut r: Vec<String> = Vec::new();
    let n = beats.len();
    for i in 0..n
        invariant
            n == beats@.len(),
            r@.len() == i,
            forall|j: int| 0 <= j < i ==> (#[trigger] r@[j])@ == beats@[j]@,
    {
        r.push(beats[i].clone());
    }
    assert(lines_of(r@) =~= lines_of(beats@));
    r
}

/// The configuration to write: the sample, the variables that are not at their default, and the
/// pattern.
pub fn config_to_save(sample_name: &str, vars: &Variables, beats: &[String]) -> (c: BreakConfig)
    ensures
        c@ == saved(sample_name@, vars@, lines_of(beats@)),
{
    let mut config = BreakConfig {
        sample: sample_name.to_owned(),
        bpm: vars.bpm.clone(),
        beats: copy_lines(beats),
        lp: None,
        hp: None,
        dist: None,
        fade: None,
        slow: None,
        fast: None,
        stutter: None,
    };
    vars.apply_to_config(&mut config);
    config
}

/// What is said of a configuration that was written, or was not.
pub open spec fn save_words(path: Seq<char>, outcome: Result<(), String>) -> Seq<char> {
    match outcome {
        Ok(()) => "Written: "@ + path,
        Err(e) => "Error writing: "@ + e@,
    }
}

/// Take note of the outcome of writing the configuration: what is written is no longer unsaved.
pub fn do_save(
    path: &str,
    outcome: &Result<(), String>,
    dirty: &mut bool,
    cmd_state: &mut CommandState,
    now: u128,
)
    ensures
        final(cmd_state)@ == old(cmd_state)@.showing(save_words(path@, *outcome), now as int),
        *final(dirty) == (*old(dirty) && outcome is Err),
{
    match outcome {
        Ok(()) => {
            *dirty = false;
            let mut msg = "Written: ".to_string();
            msg.append(path);
            cmd_state.set_status(msg, now);
        },
        Err(e) => {
            let mut msg = "Error writing: ".to_string();
            msg.append(e.as_str());
            cmd_state.set_status(msg, now);
        },
    }
}

/// The pattern, the cursor and the variables, as one.
#[verifier::ext_equal]
pub struct Work {
    pub seq: Sequencer,
    pub editor: Editor,
    pub vars: Settings,
}

impl Work {
    /// The work with a configuration read into it.
    pub open spec fn reloaded(self, config: Config) -> Work {
        Work {
            seq: Sequencer { dirty: false, ..self.seq.with_lines(config.lines) },
            editor: self.editor.at(0, 0),
            vars: settings_of(config),
        }
    }
}

/// Take the outcome of reading the configuration: its pattern and its variables in place of
/// those that are there. A failure changes nothing.
pub fn do_reload(
    path: &str,
    outcome: Result<BreakConfig, String>,
    seq: &mut SequencerState,
    editor: &mut EditorState,
    cmd_state: &mut CommandState,
    vars: &mut Variables,
    now: u128,
)
    ensures
        ({
            let before = Work { seq: old(seq)@, editor: old(editor)@, vars: old(vars)@ };
            let after = Work { seq: final(seq)@, editor: final(editor)@, vars: final(vars)@ };
            match outcome {
                Ok(config) => after == before.reloaded(config@) && final(cmd_state)@ == old(
                    cmd_state,
                )@.showing("Reloaded: "@ + path@, now as int),
                Err(e) => after == before && final(cmd_state)@ == old(cmd_state)@.showing(
                    "Error reloading: "@ + e@,
                    now as int,
                ),
            }
        }),
{
    match outcome {
        Ok(config) => {
            *vars = Variables::from_config(&config);
            seq.beats = config.beats;
            seq.rebuild_sequences();
            editor.cursor_line = 0;
            editor.cursor_col = 0;
            seq.dirty = false;
            let mut msg = "Reloaded: ".to_string();
            msg.append(path);
            cmd_state.set_status(msg, now);
        },
        Err(e) => {
            let mut msg = "Error reloading: ".to_string();
            msg.append(e.as_str());
            cmd_state.set_status(msg, now);
        },
    }
}

/// The command that was just taken is the first to be recalled, and behind it the prompt is empty
/// again.
pub proof fn lemma_recalls_last_command(c: Console)
    requires
        c.buffer.len() > 0,
    ensures
        c.submitted().up().buffer == c.buffer,
        c.submitted().up().recalls(),
        c.submitted().up().down() == c.submitted(),
{
    assert(c.submitted().up().down() =~= c.submitted());
}

/// Going up and down in the history changes nothing in it, and stays in it.
pub proof fn lemma_browsing_keeps_history(c: Console)
    requires
        c.recalls(),
    ensures
        c.up().history == c.history,
        c.down().history == c.history,
        c.up().recalls(),
        c.down().recalls(),
        c.history.len() > 0 ==> c.history.contains(c.up().buffer),
        c.history_index matches Some(i) ==> i > 0 ==> c.up().down() == (Console {
            buffer: c.history[i],
            ..c
        }),
{
    if c.history.len() > 0 {
        let i = match c.history_index {
            None => c.history.len() - 1,
            Some(i) => if i == 0 {
                0
            } else {
                i - 1
            },
        };
        assert(c.up().buffer == c.history[i]);
    }
}

/// No command is next to its equal in the history.
pub open spec fn without_repeats(history: Seq<Seq<char>>) -> bool {
    forall|i: int|
        #![trigger history[i]]
        0 <= i < history.len() - 1 ==> history[i] != history[i + 1]
}

/// The history holds no empty command and none next to its equal, however many are taken.
pub proof fn lemma_history_without_repeats(c: Console)
    requires
        without_repeats(c.history),
        forall|i: int| 0 <= i < c.history.len() ==> (#[trigger] c.history[i]).len() > 0,
    ensures
        without_repeats(c.submitted().history),
        forall|i: int|
            0 <= i < c.submitted().history.len() ==> (#[trigger] c.submitted().history[i]).len()
                > 0,
        c.history.is_prefix_of(c.submitted().history),
{
    let after = c.submitted().history;
    assert forall|i: int| #![trigger after[i]] 0 <= i < after.len() - 1 implies after[i] != after[i
        + 1] by {
        if i + 1 < c.history.len() {
            assert(c.history[i] != c.history[i + 1]);
        }
    }
}

/// A status message stays for three seconds, and is gone after that.
pub proof fn lemma_status_expires(c: Console, msg: Seq<char>, t: int, now: int)
    ensures
        now - t <= STATUS_SPAN ==> c.showing(msg, t).expired(now) == c.showing(msg, t),
        now - t > STATUS_SPAN ==> c.showing(msg, t).expired(now).status_message == Seq::<
            char,
        >::empty(),
        c.showing(msg, t).cleared().status_message == Seq::<char>::empty(),
{
}

/// With unsaved changes nothing but `q!` quits without writing, and nothing but `e!` reads the
/// configuration over them: `q` and `e` ask first.
pub proof fn lemma_unsaved_changes_are_kept(
    cmd: Seq<char>,
    reading: Reading,
    banks: Seq<Bank>,
    ran: Ran,
    now: int,
)
    requires
        ran.request == Request::Nothing,
        !ran.quit,
    ensures
        ({
            let after = command_run(cmd, reading, true, banks, ran, now);
            &&& after.quit && after.request != Request::Save ==> cmd == "q!"@
            &&& after.request == Request::Reload ==> cmd == "e!"@
            &&& cmd == "q"@ ==> after.console.pending_action == Some(PendingAction::Quit)
            &&& cmd == "e"@ ==> after.console.pending_action == Some(PendingAction::Reload)
        }),
{
    reveal_strlit("w");
    reveal_strlit("wq");
    reveal_strlit("q!");
    reveal_strlit("q");
    reveal_strlit("vars");
    reveal_strlit("bank");
    reveal_strlit("bank ");
    reveal_strlit("e!");
    reveal_strlit("e");
    assert("q"@.len() == 1 && "e"@.len() == 1 && "w"@.len() == 1);
    assert("q"@[0] == 'q' && "e"@[0] == 'e' && "w"@[0] == 'w');
    assert("wq"@.len() == 2 && "q!"@.len() == 2 && "e!"@.len() == 2);
    assert("vars"@.len() == 4 && "bank"@.len() == 4 && "bank "@.len() == 5);
}

/// A command changes the variables only where it sets one, and never takes one out of its range.
pub proof fn lemma_commands_keep_variables(
    cmd: Seq<char>,
    reading: Reading,
    dirty: bool,
    banks: Seq<Bank>,
    ran: Ran,
    now: int,
)
    ensures
        ({
            let after = command_run(cmd, reading, dirty, banks, ran, now);
            &&& after.vars != ran.vars ==> after.vars == variable_command(cmd, reading, ran.vars).0
            &&& in_bounds(ran.vars) ==> in_bounds(after.vars)
        }),
{
    if in_bounds(ran.vars) {
        lemma_commands_keep_bounds(cmd, reading, ran.vars);
    }
}

/// What is saved and read back is the same pattern, with nothing unsaved, and the variables as
/// saving keeps them.
pub proof fn lemma_reload_of_saved(w: Work, sample: Seq<char>)
    ensures
        ({
            let config = saved(sample, w.vars, w.seq.lines);
            let after = w.reloaded(config);
            &&& config.sample == sample
            &&& after.seq.lines == w.seq.lines
            &&& after.seq.in_sync()
            &&& !after.seq.dirty
            &&& after.vars.bpm == w.vars.bpm
            &&& after.vars == settings_of(applied(w.vars, config))
            &&& saved(sample, after.vars, after.seq.lines) == config
        }),
{
    let config = saved(sample, w.vars, w.seq.lines);
    lemma_settings_survive_saving(w.vars, bare_config(sample, w.vars.bpm, w.seq.lines));
    lemma_saving_is_stable(w.vars, bare_config(sample, w.vars.bpm, w.seq.lines));
    assert(saved(sample, settings_of(config), w.seq.lines) =~= config);
}

/// The number of slices that the banks say there are is the number of slices.
pub proof fn lemma_banks_count_slices(l: Library)
    requires
        l.banked(),
    ensures
        banks_end(l.banks) == l.slices.len(),
{
    lemma_banks_end(l.banks);
}

proof fn lemma_banks_end(banks: Seq<Bank>)
    requires
        banks.len() > 0,
        banks[0].start_slice == 0,
        forall|k: int|
            #![trigger banks[k]]
            0 <= k < banks.len() - 1 ==> bank_end(banks[k]) == banks[k + 1].start_slice,
        forall|k: int| 0 <= k < banks.len() ==> (#[trigger] banks[k]).slice_count >= 1,
    ensures
        banks_end(banks) == bank_end(banks.last()),
    decreases banks.len(),
{
    let init = banks.drop_last();
    if init.len() == 0 {
        assert(banks_end(init) == 0);
        assert(banks[0].slice_count >= 1);
    } else {
        assert forall|k: int| #![trigger init[k]] 0 <= k < init.len() - 1 implies bank_end(init[k])
            == init[k + 1].start_slice by {
            assert(init[k] == banks[k]);
        }
        assert forall|k: int| 0 <= k < init.len() implies (#[trigger] init[k]).slice_count >= 1 by {
            assert(init[k] == banks[k]);
        }
        lemma_banks_end(init);
        assert(init.last() == banks[banks.len() - 2]);
        assert(banks.last() == banks[banks.len() - 1]);
    }
}

/// What typing does: a character goes to the end of the command and a removed one from its end, and
/// what was recalled is then a command of its own. Beginning and dropping a command empty it, and the
/// history stays.
pub proof fn lemma_typing(c: Console, ch: char)
    ensures
        c.with_char(ch).buffer == c.buffer.push(ch),
        c.with_char(ch).history_index is None,
        c.with_char(ch).without_last().buffer == c.buffer,
        c.buffer.len() == 0 ==> c.without_last().buffer.len() == 0,
        c.buffer.len() > 0 ==> c.without_last().buffer == c.buffer.take(c.buffer.len() - 1),
        c.without_last().history_index is None,
        c.with_char(ch).active == c.active && c.without_last().active == c.active,
        c.with_char(ch).history == c.history && c.without_last().history == c.history,
        c.entered().active && c.entered().buffer.len() == 0 && c.entered().history == c.history,
        c.entered().history_index == c.history_index,
        !c.cancelled().active && c.cancelled().buffer.len() == 0 && c.cancelled().history == c.history,
        c.cancelled().history_index is None,
{
    assert(c.with_char(ch).without_last().buffer =~= c.buffer);
    if c.buffer.len() > 0 {
        assert(c.without_last().buffer =~= c.buffer.take(c.buffer.len() - 1));
    }
}

/// What recalling does: up goes one command back, from the prompt to the last, and stays at the
/// first; down goes one on, and from the last to the empty prompt.
pub proof fn lemma_recalling(c: Console)
    requires
        c.recalls(),
    ensures
        c.history.len() == 0 ==> c.up() == c,
        c.history.len() > 0 && c.history_index is None ==> c.up().history_index == Some(
            c.history.len() - 1,
        ) && c.up().buffer == c.history.last(),
        c.history_index == Some(0int) ==> c.up().history_index == Some(0int) && c.up().buffer
            == c.history[0],
        c.history_index matches Some(i) ==> i > 0 ==> c.up().history_index == Some(i - 1)
            && c.up().buffer == c.history[i - 1],
        c.history_index is None ==> c.down() == c,
        c.history_index matches Some(i) ==> i + 1 < c.history.len() ==> c.down().history_index == Some(
            i + 1,
        ) && c.down().buffer == c.history[i + 1],
        c.history_index matches Some(i) ==> i + 1 == c.history.len() ==> c.down().history_index is None
            && c.down().buffer.len() == 0,
        c.up().active == c.active && c.down().active == c.active,
        c.up().status_message == c.status_message && c.down().status_message == c.status_message,
{
}

/// A command that is taken ends typing and goes behind the history, unless it is empty or the last
/// one again.
pub proof fn lemma_taking_a_command(c: Console)
    ensures
        !c.submitted().active,
        c.submitted().buffer.len() == 0,
        c.submitted().history_index is None,
        c.buffer.len() == 0 ==> c.submitted().history == c.history,
        c.history.len() > 0 && c.history.last() == c.buffer ==> c.submitted().history == c.history,
        c.buffer.len() > 0 && (c.history.len() == 0 || c.history.last() != c.buffer)
            ==> c.submitted().history == c.history.push(c.buffer),
        c.submitted().status_message == c.status_message,
        c.submitted().pending_action == c.pending_action,
{
}

/// What a status message and a question do: each takes the place of the one before and leaves all
/// else alone; a message put up is shown from then on, and a question that was answered is gone.
pub proof fn lemma_messages_and_questions(
    c: Console,
    msg: Seq<char>,
    now: int,
    action: PendingAction,
)
    ensures
        c.showing(msg, now) == (Console { status_message: msg, status_time: Some(now), ..c }),
        c.asking(msg, action) == (Console {
            confirm_prompt: msg,
            pending_action: Some(action),
            ..c
        }),
        c.answered().pending_action is None && c.answered().confirm_prompt.len() == 0,
        c.answered().buffer == c.buffer && c.answered().history == c.history && c.answered().active
            == c.active,
        c.cleared().status_time is None,
        c.status_time is None ==> c.cleared() == c,
        c.cleared().buffer == c.buffer && c.cleared().history == c.history && c.cleared().active
            == c.active,
        STATUS_SPAN == 3_000_000_000,
        !Console::blank().active && Console::blank().buffer.len() == 0
            && Console::blank().history.len() == 0 && Console::blank().history_index is None
            && Console::blank().status_time is None && Console::blank().pending_action is None,
{
}

/// What the commands on files do, whatever else is there: `w` writes, `wq` writes and quits, `q!`
/// quits; `q` quits and `e` reads again where nothing is unsaved, and both ask first where something
/// is; `e!` reads again. None of them touches the variables or the message shown.
pub proof fn lemma_commands_on_files(
    reading: Reading,
    dirty: bool,
    banks: Seq<Bank>,
    ran: Ran,
    now: int,
)
    ensures
        command_run("w"@, reading, dirty, banks, ran, now) == (Ran { request: Request::Save, ..ran }),
        command_run("wq"@, reading, dirty, banks, ran, now) == (Ran {
            request: Request::Save,
            quit: true,
            ..ran
        }),
        command_run("q!"@, reading, dirty, banks, ran, now) == (Ran { quit: true, ..ran }),
        command_run("q"@, reading, false, banks, ran, now) == (Ran { quit: true, ..ran }),
        ({
            let asks = command_run("q"@, reading, true, banks, ran, now);
            &&& asks.quit == ran.quit && asks.request == ran.request && asks.vars == ran.vars
            &&& asks.load_path == ran.load_path
            &&& asks.console.pending_action == Some(PendingAction::Quit)
            &&& asks.console.confirm_prompt == "Unsaved changes! Quit anyway? (y/N)"@
            &&& asks.console.buffer == ran.console.buffer
        }),
        command_run("e!"@, reading, dirty, banks, ran, now) == (Ran {
            request: Request::Reload,
            ..ran
        }),
        command_run("e"@, reading, false, banks, ran, now) == (Ran {
            request: Request::Reload,
            ..ran
        }),
        ({
            let asks = command_run("e"@, reading, true, banks, ran, now);
            &&& asks.quit == ran.quit && asks.request == ran.request && asks.vars == ran.vars
            &&& asks.load_path == ran.load_path
            &&& asks.console.pending_action == Some(PendingAction::Reload)
            &&& asks.console.confirm_prompt == "Unsaved changes will be lost! Reload? (y/N)"@
            &&& asks.console.buffer == ran.console.buffer
        }),
{
    lemma_command_words();
}

proof fn lemma_command_words()
    ensures
        "w"@ == seq!['w'],
        "wq"@ == seq!['w', 'q'],
        "q"@ == seq!['q'],
        "q!"@ == seq!['q', '!'],
        "e"@ == seq!['e'],
        "e!"@ == seq!['e', '!'],
        "vars"@ == seq!['v', 'a', 'r', 's'],
        "bank"@ == seq!['b', 'a', 'n', 'k'],
        "bank "@ == seq!['b', 'a', 'n', 'k', ' '],
        "load"@ == seq!['l', 'o', 'a', 'd'],
        "load "@ == seq!['l', 'o', 'a', 'd', ' '],
        "w"@.len() == 1 && "q"@.len() == 1 && "e"@.len() == 1,
        "wq"@.len() == 2 && "q!"@.len() == 2 && "e!"@.len() == 2,
        "vars"@.len() == 4 && "bank"@.len() == 4 && "bank "@.len() == 5,
        "load"@.len() == 4 && "load "@.len() == 5,
        "w"@[0] == 'w' && "q"@[0] == 'q' && "e"@[0] == 'e',
        "wq"@[0] == 'w' && "q!"@[0] == 'q' && "e!"@[0] == 'e',
        "vars"@[0] == 'v' && "bank"@[0] == 'b' && "bank "@[0] == 'b',
{
    reveal_strlit("w");
    reveal_strlit("wq");
    reveal_strlit("q!");
    reveal_strlit("q");
    reveal_strlit("vars");
    reveal_strlit("bank");
    reveal_strlit("bank ");
    reveal_strlit("e!");
    reveal_strlit("e");
    reveal_strlit("load");
    reveal_strlit("load ");
    assert("w"@ =~= seq!['w']);
    assert("wq"@ =~= seq!['w', 'q']);
    assert("q"@ =~= seq!['q']);
    assert("q!"@ =~= seq!['q', '!']);
    assert("e"@ =~= seq!['e']);
    assert("e!"@ =~= seq!['e', '!']);
    assert("vars"@ =~= seq!['v', 'a', 'r', 's']);
    assert("bank"@ =~= seq!['b', 'a', 'n', 'k']);
    assert("bank "@ =~= seq!['b', 'a', 'n', 'k', ' ']);
    assert("load"@ =~= seq!['l', 'o', 'a', 'd']);
    assert("load "@ =~= seq!['l', 'o', 'a', 'd', ' ']);
}

/// What the commands on banks do: `bank` says what there is; `bank load` lists the files, and with a
/// path has that file loaded, where there is still room; neither quits or sets a variable.
pub proof fn lemma_commands_on_banks(
    path: Seq<char>,
    reading: Reading,
    dirty: bool,
    banks: Seq<Bank>,
    ran: Ran,
    now: int,
)
    requires
        path.len() > 0,
        !is_space(path[0]),
        !is_space(path.last()),
    ensures
        command_run("bank"@, reading, dirty, banks, ran, now) == ran.saying(bank_list(banks), now),
        ({
            let list = command_run("bank "@ + "load"@, reading, dirty, banks, ran, now);
            let load = command_run("bank "@ + "load "@ + path, reading, dirty, banks, ran, now);
            if banks_end(banks) >= 320 {
                &&& list == ran.saying("No free banks available"@, now)
                &&& load == list
            } else {
                &&& list == (Ran { request: Request::ListAudioFiles, ..ran })
                &&& load.load_path == Some(path)
                &&& load.console == ran.console.showing("Loading "@ + path + "..."@, now)
                &&& load.request == ran.request && load.quit == ran.quit && load.vars == ran.vars
            }
        }),
{
    lemma_command_words();
    let bank = "bank"@;
    assert(bank.skip(4) =~= Seq::empty());
    assert(trimmed(Seq::empty()) == Seq::<char>::empty());
    assert(behind(bank, 4) == Seq::<char>::empty());
    // bank load
    let list = "bank "@ + "load"@;
    assert("bank "@.is_prefix_of(list));
    assert(list[0] == 'b');
    lemma_trims_one_blank("load"@);
    assert(list.skip(4) =~= seq![' '] + "load"@);
    assert("load"@.skip(4) =~= Seq::empty());
    // bank load path
    let load = "bank "@ + "load "@ + path;
    assert("bank "@.is_prefix_of(load));
    assert(load[0] == 'b');
    let args = "load "@ + path;
    lemma_trims_one_blank(args);
    assert(load.skip(4) =~= seq![' '] + args);
    assert("load "@.is_prefix_of(args));
    assert(args.skip(4) =~= seq![' '] + path);
    lemma_trims_one_blank(path);
}

proof fn lemma_trims_one_blank(s: Seq<char>)
    requires
        s.len() > 0,
        !is_space(s[0]),
        !is_space(s.last()),
    ensures
        trimmed(seq![' '] + s) == s,
{
    let t = seq![' '] + s;
    assert(t[0] == ' ');
    assert(t.drop_first() =~= s);
    reveal_with_fuel(trimmed_start, 2);
    assert(trimmed_start(t) == s);
}

/// The banks end behind the last of their slices: no bank reaches further, and one reaches that far.
pub proof fn lemma_where_banks_end(banks: Seq<Bank>, k: int)
    requires
        forall|i: int|
            0 <= i < banks.len() ==> (#[trigger] banks[i]).start_slice >= 0 && banks[i].slice_count >= 0,
    ensures
        0 <= k < banks.len() ==> banks[k].start_slice + banks[k].slice_count <= banks_end(banks),
        banks.len() == 0 ==> banks_end(banks) == 0,
        banks.len() > 0 ==> banks_end(banks) == 0 || exists|i: int|
            0 <= i < banks.len() && (#[trigger] banks[i]).start_slice + banks[i].slice_count
                == banks_end(banks),
    decreases banks.len(),
{
    if banks.len() > 0 {
        let init = banks.drop_last();
        assert forall|i: int| 0 <= i < init.len() implies (#[trigger] init[i]).start_slice >= 0
            && init[i].slice_count >= 0 by {
            assert(init[i] == banks[i]);
        }
        lemma_where_banks_end(init, k);
        if bank_end(banks.last()) > banks_end(init) {
            assert(banks[banks.len() - 1].start_slice + banks[banks.len() - 1].slice_count == banks_end(
                banks,
            ));
        } else if banks_end(banks) != 0 {
            assert(init.len() > 0) by {
                if init.len() == 0 {
                    assert(banks_end(init) == 0);
                }
            }
            let i = choose|i: int|
                0 <= i < init.len() && (#[trigger] init[i]).start_slice + init[i].slice_count
                    == banks_end(init);
            assert(banks[i].start_slice + banks[i].slice_count == banks_end(banks));
        }
    }
}

/// A configuration that was read takes the place of all there is: its pattern, its variables, the
/// cursor at the start, and nothing unsaved.
pub proof fn lemma_what_reading_replaces(w: Work, config: Config)
    requires
        w.seq.current_step >= 0,
    ensures
        ({
            let after = w.reloaded(config);
            &&& after.seq.lines == config.lines
            &&& after.seq.in_sync() && after.seq.on_a_step()
            &&& !after.seq.dirty
            &&& after.seq.playing == w.seq.playing
            &&& after.editor.cursor_line == 0 && after.editor.cursor_col == 0
            &&& after.vars == settings_of(config)
        }),
{
}

/// What is said of writing: where, or why not.
pub proof fn lemma_words_of_writing(path: Seq<char>, e: String, files: Seq<Seq<char>>, file: Seq<char>)
    ensures
        save_words(path, Ok(())) == "Written: "@ + path,
        save_words(path, Err(e)) == "Error writing: "@ + e@,
        audio_files_words(Seq::empty()) == "No audio files found. Use :bank load <path>"@,
        audio_files_words(seq![file]) == "Files: "@ + file + ". Use :bank load <file>"@,
        files.len() > 0 ==> listed(files.push(file), ", "@) == listed(files, ", "@) + ", "@ + file,
{
    assert(files.push(file).drop_last() =~= files);
}

/// A command that is none of those on files and banks shows the variables, shows or sets one of them,
/// or is not known; what is said stands in the message, and nothing is asked for.
pub proof fn lemma_other_commands(
    cmd: Seq<char>,
    reading: Reading,
    dirty: bool,
    banks: Seq<Bank>,
    ran: Ran,
    now: int,
)
    requires
        cmd != "w"@ && cmd != "wq"@ && cmd != "q"@ && cmd != "q!"@ && cmd != "e"@ && cmd != "e!"@,
        cmd != "bank"@ && !"bank "@.is_prefix_of(cmd),
    ensures
        ({
            let after = command_run(cmd, reading, dirty, banks, ran, now);
            let (vars, answer) = variable_command(cmd, reading, ran.vars);
            &&& after.quit == ran.quit && after.request == ran.request && after.load_path
                == ran.load_path
            &&& cmd == "vars"@ ==> after.vars == ran.vars && after.console.status_message == vars_list(
                ran.vars,
            )
            &&& cmd != "vars"@ && answer is None ==> after.vars == ran.vars
                && after.console.status_message == "Unknown command: "@ + cmd
            &&& cmd != "vars"@ && answer is Some ==> after.vars == vars && after.console.status_message
                == match answer->Some_0 {
                Answer::Show(m) => m,
                Answer::Assigned(m) => m,
                Answer::Error(m) => m,
            }
            &&& after.console.status_time == Some(now)
            &&& after.console.pending_action == ran.console.pending_action
        }),
{
}

/// A word behind `bank` that is not `load` is not known.
pub proof fn lemma_unknown_bank_commands(
    args: Seq<char>,
    reading: Reading,
    dirty: bool,
    banks: Seq<Bank>,
    ran: Ran,
    now: int,
)
    requires
        args.len() > 0,
        !is_space(args[0]),
        !is_space(args.last()),
        args != "load"@,
        !"load "@.is_prefix_of(args),
    ensures
        command_run("bank "@ + args, reading, dirty, banks, ran, now) == ran.saying(
            "Unknown bank command: "@ + args,
            now,
        ),
{
    lemma_command_words();
    let cmd = "bank "@ + args;
    assert("bank "@.is_prefix_of(cmd));
    assert(cmd[0] == 'b');
    lemma_trims_one_blank(args);
    assert(cmd.skip(4) =~= seq![' '] + args);
}

/// What is said of the variables and the banks: each variable by its name, each bank by its number,
/// its file and its slices.
pub proof fn lemma_words_of_lists(v: Settings, banks: Seq<Bank>, b: Bank)
    ensures
        vars_list(v) == "bpm="@ + v.bpm.text + " lp="@ + v.lp.text + " hp="@ + v.hp.text + " dist="@
            + v.dist.text + " fade="@ + v.fade.text + " slow="@ + v.slow.text + " fast="@ + v.fast.text
            + " stutter="@ + decimal(v.stutter as nat),
        bank_list(banks) == decimal(banks_end(banks) as nat) + " slices total"@ + all_bank_words(banks),
        all_bank_words(banks.push(b)) == all_bank_words(banks) + (" | Bank "@ + decimal(
            (b.start_slice / 16) as nat,
        ) + ": "@ + b.file_name + " ("@ + decimal(b.start_slice as nat) + "-"@ + decimal(
            (b.start_slice + b.slice_count - 1) as nat,
        ) + ")"@),
        all_bank_words(Seq::empty()) == Seq::<char>::empty(),
{
    assert(banks.push(b).drop_last() =~= banks);
}

} // verus!
