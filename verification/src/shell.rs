//! A small command shell: lines typed on the console are run as commands, and
//! what the shell prints goes to the console and to the display, which shows
//! the last eight lines.
//!
//! Everything the shell does to the outside is made of five kinds of
//! [`Action`]. Each operation is specified by the actions it performs, in
//! order; what a run of actions does to the screen, to the console and to the
//! display is defined once, for all of them.

use vstd::prelude::*;
use vstd::string::StringSliceAdditionalSpecFns;
use crate::console::{
    byte_events,
    pending_after_byte,
    put_bytes,
    putc,
    puts,
    text_events,
    Console,
};
use crate::cstr::{
    bytes_text,
    c_len,
    c_str,
    copied,
    lemma_c_len,
    lemma_c_len_bounds,
    lemma_c_str_idempotent,
    str_copy,
    str_equals,
    str_len,
};
use crate::i2c::{are_transfers, frames_events, lemma_frames_concat};
use crate::ssd1306::{
    clear,
    draw_bytes,
    flush_frames,
    in_bounds,
    law_buffer_is_painted,
    lemma_blank_dark,
    paint,
    pixel,
    text_ink,
    Font,
    Ssd1306,
    LINE_ADVANCE,
};
use crate::trace::{lemma_two_steps, Event, RegisterAccess};

verus! {

/// Size of the input line buffer; a line has at most one byte less.
pub const SHELL_MAX_LINE_LENGTH: usize = 64;

/// The most words that a command line is split into.
pub const SHELL_MAX_ARGS: usize = 8;

/// Number of lines that the screen shows.
pub const MAX_LINES: usize = 8;

/// Size of the buffer of one screen line; a line has at most one byte less.
pub const LINE_BYTES: usize = 22;

/// What ends a printed line on the console.
pub const NEWLINE: &'static str = "\n";

/// First line that the shell prints when it starts.
pub const MSG_BANNER: &'static str = "RISC-V Shell v1.0";

/// Second line that the shell prints when it starts.
pub const MSG_HINT: &'static str = "Type 'help'";

/// The prompt.
pub const MSG_PROMPT: &'static str = ">";

/// First line of the help text.
pub const MSG_HELP_TITLE: &'static str = "Available commands:";

/// Help text for `help`.
pub const MSG_HELP_HELP: &'static str = "  help  - Show help";

/// Help text for `clear`.
pub const MSG_HELP_CLEAR: &'static str = "  clear - Clear screen";

/// Help text for `echo`.
pub const MSG_HELP_ECHO: &'static str = "  echo  - Echo text";

/// What `echo` prints when it has nothing to echo.
pub const MSG_ECHO_USAGE: &'static str = "Usage: echo <text>";

/// What precedes the name of a command that the shell does not know.
pub const MSG_UNKNOWN: &'static str = "command unknown: ";

/// Name of the command that prints the help text: "help", ended by a zero
/// byte.
pub const CMD_HELP: [u8; 5] = [0x68, 0x65, 0x6C, 0x70, 0];

/// Name of the command that clears the screen: "clear", ended by a zero
/// byte.
pub const CMD_CLEAR: [u8; 6] = [0x63, 0x6C, 0x65, 0x61, 0x72, 0];

/// Name of the command that prints its arguments: "echo", ended by a zero
/// byte.
pub const CMD_ECHO: [u8; 5] = [0x65, 0x63, 0x68, 0x6F, 0];

/// Code of the backspace character.
pub const BACKSPACE: u8 = 8;

/// Code of the line feed character.
pub const LINE_FEED: u8 = 10;

/// Code of the carriage return character.
pub const CARRIAGE_RETURN: u8 = 13;

/// Code of the space character.
pub const SPACE: u8 = 32;

/// Code of the character `>`.
pub const GREATER_THAN: u8 = 62;

/// Code of the last printable character, `~`.
pub const TILDE: u8 = 126;

/// Code of the delete character.
pub const DELETE: u8 = 127;

/// The longest text that fits on a screen line.
pub const LINE_TEXT_MAX: usize = 21;

/// The most bytes of arguments that `echo` takes into its message.
pub const ECHO_TEXT_MAX: usize = 62;

/// The screen as the shell keeps it: eight line buffers, each holding a text
/// that ends at its first zero byte, and the index of the line that the next
/// text goes to, which is 8 when the screen is full.
pub struct Screen {
    pub lines: Seq<Seq<u8>>,
    pub current: int,
}

/// One thing the shell does to the outside.
pub enum Action {
    /// One byte is put to the console, without a flush.
    Put(u8),
    /// A text and a newline are written to the console and flushed.
    Say(Seq<u8>),
    /// A text is added to the screen lines, scrolling if the screen is full.
    Line(Seq<u8>),
    /// Every screen line is emptied and the next text goes to the first line.
    Reset,
    /// The screen lines are drawn into a blank framebuffer, which is sent to
    /// the display.
    Refresh,
}

/// `s` without the spaces at its beginning.
pub open spec fn skip_spaces(s: Seq<u8>) -> Seq<u8>
    decreases s.len(),
{
    if s.len() > 0 && s[0] == 32 {
        skip_spaces(s.skip(1))
    } else {
        s
    }
}

/// Length of the word at the beginning of `s`: the number of bytes before the
/// first space or zero byte, or all of them if there is none.
pub open spec fn word_len(s: Seq<u8>) -> nat
    decreases s.len(),
{
    if s.len() == 0 || s[0] == 0 || s[0] == 32 {
        0
    } else {
        1 + word_len(s.skip(1))
    }
}

/// The first words of the text in `s`, at most `limit` of them: a word is a
/// longest run of bytes without a space, and the text ends at the first zero
/// byte.
pub open spec fn words(s: Seq<u8>, limit: nat) -> Seq<Seq<u8>>
    decreases limit,
{
    let t = skip_spaces(s);
    if limit == 0 || t.len() == 0 || t[0] == 0 {
        Seq::empty()
    } else {
        seq![t.take(word_len(t) as int)] + words(t.skip(word_len(t) as int), (limit - 1) as nat)
    }
}

/// The first `argc` of the words in `argv`.
pub open spec fn arg_texts(argv: [&[u8]; 8], argc: int) -> Seq<Seq<u8>> {
    Seq::new(argc as nat, |k: int| argv@[k]@)
}

/// Printing `text`: it is written to the console, added to the screen lines,
/// and the screen is shown.
pub open spec fn print_actions(text: Seq<u8>) -> Seq<Action> {
    seq![Action::Say(text), Action::Line(text), Action::Refresh]
}

/// Clearing the screen: the lines are emptied, and the screen is shown.
pub open spec fn clear_actions() -> Seq<Action> {
    seq![Action::Reset, Action::Refresh]
}

/// Printing the message `msg`.
pub open spec fn message_actions(msg: &str) -> Seq<Action> {
    print_actions(c_str(msg.spec_bytes()))
}

/// What the `help` command does: four lines are printed.
pub open spec fn help_actions() -> Seq<Action> {
    message_actions(MSG_HELP_TITLE) + message_actions(MSG_HELP_HELP) + message_actions(
        MSG_HELP_CLEAR,
    ) + message_actions(MSG_HELP_ECHO)
}

/// The message of `echo` after one more argument: the text of the argument is
/// added as far as the message stays within 62 bytes, and a space follows if
/// `more` arguments come and the message is shorter than 63 bytes.
pub open spec fn echo_append(msg: Seq<u8>, arg: Seq<u8>, more: bool) -> Seq<u8> {
    let room = if msg.len() < ECHO_TEXT_MAX {
        ECHO_TEXT_MAX - msg.len()
    } else {
        0
    };
    let word = c_str(arg);
    let longer = msg + if word.len() <= room {
        word
    } else {
        word.take(room)
    };
    if more && longer.len() < ECHO_TEXT_MAX + 1 {
        longer.push(32u8)
    } else {
        longer
    }
}

/// The message of `echo` after the arguments `args[1]` to `args[n - 1]`.
pub open spec fn echo_message(args: Seq<Seq<u8>>, n: nat) -> Seq<u8>
    decreases n,
{
    if n <= 1 {
        Seq::empty()
    } else {
        echo_append(echo_message(args, (n - 1) as nat), args[n - 1], n < args.len())
    }
}

/// What the `echo` command does with the words `args` of its command line:
/// it prints its arguments with one space between them, or how it is used if
/// it has none.
pub open spec fn echo_actions(args: Seq<Seq<u8>>) -> Seq<Action> {
    if args.len() < 2 {
        message_actions(MSG_ECHO_USAGE)
    } else {
        print_actions(c_str(echo_message(args, args.len())))
    }
}

/// What the shell does with a command `word` that it does not know: it says
/// so in one line if that fits on the screen, and in two if not.
pub open spec fn unknown_actions(word: Seq<u8>) -> Seq<Action> {
    if MSG_UNKNOWN.spec_bytes().len() + c_len(word) <= LINE_TEXT_MAX {
        print_actions(c_str(MSG_UNKNOWN.spec_bytes() + c_str(word)))
    } else {
        message_actions(MSG_UNKNOWN) + print_actions(c_str(word))
    }
}

/// What the shell does for the words `args` of a command line, of which
/// there is at least one: the first word selects the command.
pub open spec fn command_actions(args: Seq<Seq<u8>>) -> Seq<Action> {
    if c_str(args[0]) == c_str(CMD_HELP@) {
        help_actions()
    } else if c_str(args[0]) == c_str(CMD_CLEAR@) {
        clear_actions()
    } else if c_str(args[0]) == c_str(CMD_ECHO@) {
        echo_actions(args)
    } else {
        unknown_actions(args[0])
    }
}

/// `n` zero bytes.
pub open spec fn zeros(n: nat) -> Seq<u8> {
    Seq::new(n, |i: int| 0u8)
}

/// The line that shows the command `cmdline` on the screen: "> " and the text
/// of the command, cut to 61 bytes.
pub open spec fn prompt_text(cmdline: Seq<u8>) -> Seq<u8> {
    c_str(seq![GREATER_THAN, SPACE] + copied(zeros(62), cmdline, 62))
}

/// The words of the command line `cmdline`: those of its text from the first
/// byte that is no space, cut to 63 bytes; at most eight.
pub open spec fn command_words(cmdline: Seq<u8>) -> Seq<Seq<u8>> {
    let line = copied(
        zeros(SHELL_MAX_LINE_LENGTH as nat),
        skip_spaces(cmdline),
        SHELL_MAX_LINE_LENGTH as int,
    );
    words(line, SHELL_MAX_ARGS as nat)
}

/// What running the command line `cmdline` does: the line is shown behind a
/// prompt, and if it holds a word, its command is run.
pub open spec fn execute_actions(cmdline: Seq<u8>) -> Seq<Action> {
    let rest = skip_spaces(cmdline);
    print_actions(prompt_text(cmdline)) + if rest.len() == 0 || rest[0] == 0 || command_words(
        cmdline,
    ).len() == 0 {
        Seq::empty()
    } else {
        command_actions(command_words(cmdline))
    }
}

/// What starting the shell does: the screen lines are emptied, and the
/// banner, the hint and a prompt are printed.
pub open spec fn init_actions() -> Seq<Action> {
    seq![Action::Reset] + message_actions(MSG_BANNER) + message_actions(MSG_HINT)
        + message_actions(MSG_PROMPT)
}

/// The input line after the byte `c` was typed with `pos` bytes in `input`:
/// backspace and delete take the last byte away, a line end empties the line,
/// a printable character is added if fewer than 63 bytes are typed, and
/// anything else is ignored. The line always ends with a zero byte.
pub open spec fn typed(input: Seq<u8>, pos: int, c: u8) -> (Seq<u8>, int) {
    if c == 8 || c == 127 {
        if pos > 0 {
            (input.update(pos - 1, 0u8), pos - 1)
        } else {
            (input, pos)
        }
    } else if c == 10 || c == 13 {
        (input.update(pos, 0u8).update(0, 0u8), 0)
    } else if 32 <= c <= 126 && pos < SHELL_MAX_LINE_LENGTH - 1 {
        (input.update(pos, c).update(pos + 1, 0u8), pos + 1)
    } else {
        (input, pos)
    }
}

/// What typing the byte `c` does with `pos` bytes in `input`: backspace and
/// delete wipe the last character on the console, a line end runs the line if
/// it is not empty and prints a prompt, and a printable character that is
/// taken is echoed.
pub open spec fn typed_actions(input: Seq<u8>, pos: int, c: u8) -> Seq<Action> {
    if c == 8 || c == 127 {
        if pos > 0 {
            seq![Action::Put(8u8), Action::Put(32u8), Action::Put(8u8)]
        } else {
            Seq::empty()
        }
    } else if c == 10 || c == 13 {
        seq![Action::Put(10u8)] + if pos > 0 {
            execute_actions(input.update(pos, 0u8))
        } else {
            Seq::empty()
        } + message_actions(MSG_PROMPT)
    } else if 32 <= c <= 126 && pos < SHELL_MAX_LINE_LENGTH - 1 {
        seq![Action::Put(c)]
    } else {
        Seq::empty()
    }
}

/// Whether `screen` has eight lines of 22 bytes and a line index up to 8.
pub open spec fn screen_ok(screen: Screen) -> bool {
    &&& screen.lines.len() == MAX_LINES
    &&& forall|i: int| 0 <= i < MAX_LINES ==> (#[trigger] screen.lines[i]).len() == LINE_BYTES
    &&& 0 <= screen.current <= MAX_LINES
}

/// A full screen moved up by one line, which frees the last line; a screen
/// that is not full is left as it is.
pub open spec fn scrolled(screen: Screen) -> Screen {
    if screen.current >= MAX_LINES {
        Screen {
            lines: Seq::new(
                MAX_LINES as nat,
                |i: int|
                    if i < MAX_LINES - 1 {
                        screen.lines[i + 1]
                    } else {
                        screen.lines[i]
                    },
            ),
            current: MAX_LINES - 1,
        }
    } else {
        screen
    }
}

/// The screen after `text` was added: it goes to the current line, cut to 21
/// bytes, after the screen was scrolled if it was full.
pub open spec fn with_line(screen: Screen, text: Seq<u8>) -> Screen {
    let s = scrolled(screen);
    Screen {
        lines: s.lines.update(s.current, copied(s.lines[s.current], text, LINE_BYTES as int)),
        current: s.current + 1,
    }
}

/// The screen with every line emptied.
pub open spec fn emptied(screen: Screen) -> Screen {
    Screen {
        lines: Seq::new(screen.lines.len(), |i: int| screen.lines[i].update(0, 0u8)),
        current: 0,
    }
}

/// Whether the first `n` lines of `lines`, drawn as text from column 0 and 8
/// rows apart, put ink on pixel `(a, b)`.
pub open spec fn lines_ink(font: Font, lines: Seq<Seq<u8>>, n: nat, a: int, b: int) -> bool
    decreases n,
{
    if n == 0 {
        false
    } else {
        lines_ink(font, lines, (n - 1) as nat, a, b) || text_ink(
            font,
            0,
            (n - 1) * LINE_ADVANCE,
            bytes_text(c_str(lines[n - 1])),
            a,
            b,
        )
    }
}

/// The framebuffer that shows `lines`.
pub open spec fn render(font: Font, lines: Seq<Seq<u8>>) -> Seq<u8> {
    paint(|a: int, b: int| lines_ink(font, lines, MAX_LINES as nat, a, b))
}

/// The screen after `action`.
pub open spec fn screen_step(screen: Screen, action: Action) -> Screen {
    match action {
        Action::Line(text) => with_line(screen, text),
        Action::Reset => emptied(screen),
        _ => screen,
    }
}

/// What the console has buffered after `action`, having had `pending`
/// buffered before.
pub open spec fn pending_step(pending: Seq<u8>, action: Action) -> Seq<u8> {
    match action {
        Action::Put(byte) => pending_after_byte(pending, byte),
        Action::Say(_) => Seq::empty(),
        _ => pending,
    }
}

/// What `action` does on the console's registers with `pending` buffered.
pub open spec fn console_step(pending: Seq<u8>, action: Action) -> Seq<Event> {
    match action {
        Action::Put(byte) => byte_events(pending, byte),
        Action::Say(text) => text_events(pending, bytes_text(text)) + text_events(
            Seq::empty(),
            NEWLINE@,
        ),
        _ => Seq::empty(),
    }
}

/// The screen after `actions`.
pub open spec fn screen_after(screen: Screen, actions: Seq<Action>) -> Screen
    decreases actions.len(),
{
    if actions.len() == 0 {
        screen
    } else {
        screen_step(screen_after(screen, actions.drop_last()), actions.last())
    }
}

/// What the console has buffered after `actions`.
pub open spec fn pending_after(pending: Seq<u8>, actions: Seq<Action>) -> Seq<u8>
    decreases actions.len(),
{
    if actions.len() == 0 {
        pending
    } else {
        pending_step(pending_after(pending, actions.drop_last()), actions.last())
    }
}

/// What `actions` do on the console's registers.
pub open spec fn console_events(pending: Seq<u8>, actions: Seq<Action>) -> Seq<Event>
    decreases actions.len(),
{
    if actions.len() == 0 {
        Seq::empty()
    } else {
        console_events(pending, actions.drop_last()) + console_step(
            pending_after(pending, actions.drop_last()),
            actions.last(),
        )
    }
}

/// The framebuffer after `actions`: that of the last refresh, if there was
/// one.
pub open spec fn buffer_after(
    buffer: Seq<u8>,
    font: Font,
    screen: Screen,
    actions: Seq<Action>,
) -> Seq<u8>
    decreases actions.len(),
{
    if actions.len() == 0 {
        buffer
    } else if actions.last() is Refresh {
        render(font, screen_after(screen, actions).lines)
    } else {
        buffer_after(buffer, font, screen, actions.drop_last())
    }
}

/// The bus transactions that `actions` make with the display at `addr`: for
/// each refresh those that send the framebuffer of the screen as it is then.
pub open spec fn display_frames(
    addr: u8,
    font: Font,
    screen: Screen,
    actions: Seq<Action>,
) -> Seq<Seq<u8>>
    decreases actions.len(),
{
    if actions.len() == 0 {
        Seq::empty()
    } else {
        display_frames(addr, font, screen, actions.drop_last()) + if actions.last() is Refresh {
            flush_frames(addr, render(font, screen_after(screen, actions).lines))
        } else {
            Seq::empty()
        }
    }
}

/// What a run of actions does is what its first part does and then its
/// second part, from where the first part ends.
pub proof fn lemma_actions_concat(
    screen: Screen,
    pending: Seq<u8>,
    buffer: Seq<u8>,
    font: Font,
    addr: u8,
    a: Seq<Action>,
    b: Seq<Action>,
)
    ensures
        screen_after(screen, a + b) == screen_after(screen_after(screen, a), b),
        pending_after(pending, a + b) == pending_after(pending_after(pending, a), b),
        console_events(pending, a + b) == console_events(pending, a) + console_events(
            pending_after(pending, a),
            b,
        ),
        buffer_after(buffer, font, screen, a + b) == buffer_after(
            buffer_after(buffer, font, screen, a),
            font,
            screen_after(screen, a),
            b,
        ),
        display_frames(addr, font, screen, a + b) == display_frames(addr, font, screen, a)
            + display_frames(addr, font, screen_after(screen, a), b),
    decreases b.len(),
{
    if b.len() == 0 {
        assert(a + b =~= a);
        assert(console_events(pending, a) + Seq::<Event>::empty() =~= console_events(pending, a));
        assert(display_frames(addr, font, screen, a) + Seq::<Seq<u8>>::empty() =~= display_frames(
            addr,
            font,
            screen,
            a,
        ));
    } else {
        lemma_actions_concat(screen, pending, buffer, font, addr, a, b.drop_last());
        assert((a + b).drop_last() =~= a + b.drop_last());
        assert((a + b).last() == b.last());
        assert(console_events(pending, a + b) =~= console_events(pending, a) + console_events(
            pending_after(pending, a),
            b,
        ));
        assert(display_frames(addr, font, screen, a + b) =~= display_frames(addr, font, screen, a)
            + display_frames(addr, font, screen_after(screen, a), b));
    }
}

/// What a single action does.
pub proof fn lemma_one_action(
    screen: Screen,
    pending: Seq<u8>,
    buffer: Seq<u8>,
    font: Font,
    addr: u8,
    action: Action,
)
    ensures
        screen_after(screen, seq![action]) == screen_step(screen, action),
        pending_after(pending, seq![action]) == pending_step(pending, action),
        console_events(pending, seq![action]) == console_step(pending, action),
        buffer_after(buffer, font, screen, seq![action]) == if action is Refresh {
            render(font, screen.lines)
        } else {
            buffer
        },
        display_frames(addr, font, screen, seq![action]) == if action is Refresh {
            flush_frames(addr, render(font, screen.lines))
        } else {
            Seq::<Seq<u8>>::empty()
        },
{
    let one = seq![action];
    let none = Seq::<Action>::empty();
    assert(one.drop_last() =~= none);
    assert(one.last() == action);
    assert(screen_after(screen, none) == screen);
    assert(pending_after(pending, none) == pending);
    assert(console_events(pending, none) =~= Seq::<Event>::empty());
    assert(buffer_after(buffer, font, screen, none) == buffer);
    assert(display_frames(addr, font, screen, none) =~= Seq::<Seq<u8>>::empty());
    assert(console_events(pending, one) =~= console_step(pending, action));
    assert(display_frames(addr, font, screen, one) =~= if action is Refresh {
        flush_frames(addr, render(font, screen.lines))
    } else {
        Seq::<Seq<u8>>::empty()
    });
}

/// The shell: its console, its display, the line being typed and the lines on
/// the screen.
pub struct Shell<C: RegisterAccess, D: RegisterAccess> {
    console: Console<C>,
    display: Ssd1306<D>,
    input_buffer: [u8; 64],
    input_pos: usize,
    display_lines: [[u8; 22]; 8],
    current_line: usize,
}

impl<C: RegisterAccess, D: RegisterAccess> Shell<C, D> {
    /// The console.
    pub closed spec fn console(&self) -> Console<C> {
        self.console
    }

    /// The display.
    pub closed spec fn display(&self) -> Ssd1306<D> {
        self.display
    }

    /// The bytes of the input line buffer.
    pub closed spec fn input(&self) -> Seq<u8> {
        self.input_buffer@
    }

    /// How many bytes of the line have been typed.
    pub closed spec fn input_pos(&self) -> int {
        self.input_pos as int
    }

    /// The screen lines.
    pub closed spec fn screen(&self) -> Screen {
        Screen {
            lines: Seq::new(MAX_LINES as nat, |i: int| self.display_lines@[i]@),
            current: self.current_line as int,
        }
    }

    /// The console and the bus master are well-formed, the typed line leaves
    /// room for its zero byte, and the line index is at most 8.
    pub open spec fn wf(&self) -> bool {
        &&& self.console().wf()
        &&& self.display().wf()
        &&& 0 <= self.input_pos() < SHELL_MAX_LINE_LENGTH
        &&& self.input().len() == SHELL_MAX_LINE_LENGTH
        &&& screen_ok(self.screen())
    }

    /// `self` is what became of `before` when the shell performed `actions`:
    /// the screen lines, what the console did and has buffered, the
    /// framebuffer and the transactions on the display's bus are those of the
    /// actions, and nothing else was done to console or display.
    pub open spec fn did(&self, before: &Self, actions: Seq<Action>) -> bool {
        let pending = before.console().pending();
        let font = before.display().font();
        let addr = before.display().addr();
        let w = before.display().bus().wiring();
        let heard = self.display().bus().heard_since(&before.display().bus());
        let frames = display_frames(addr, font, before.screen(), actions);
        &&& self.wf()
        &&& self.screen() == screen_after(before.screen(), actions)
        &&& self.console().pending() == pending_after(pending, actions)
        &&& self.console().after(&before.console(), console_events(pending, actions), Seq::empty())
        &&& self.display().addr() == addr
        &&& self.display().font() == font
        &&& self.display().buffer() == buffer_after(
            before.display().buffer(),
            font,
            before.screen(),
            actions,
        )
        &&& are_transfers(w, frames, heard)
        &&& self.display().bus().after(
            &before.display().bus(),
            frames_events(w, frames, heard),
            heard,
        )
    }

    /// Performing `first` and then `second` is performing the run that joins
    /// them.
    pub proof fn lemma_did_then(
        before: &Self,
        mid: &Self,
        end: &Self,
        first: Seq<Action>,
        second: Seq<Action>,
    )
        requires
            mid.did(before, first),
            end.did(mid, second),
        ensures
            end.did(before, first + second),
    {
        let pending = before.console().pending();
        let font = before.display().font();
        let addr = before.display().addr();
        let w = before.display().bus().wiring();
        let bus0 = before.display().bus();
        let bus1 = mid.display().bus();
        let bus2 = end.display().bus();
        let h1 = bus1.heard_since(&bus0);
        let h2 = bus2.heard_since(&bus1);
        let f1 = display_frames(addr, font, before.screen(), first);
        let f2 = display_frames(addr, font, mid.screen(), second);
        lemma_actions_concat(
            before.screen(),
            pending,
            before.display().buffer(),
            font,
            addr,
            first,
            second,
        );
        lemma_two_steps(
            before.console().trace(),
            console_events(pending, first),
            console_events(mid.console().pending(), second),
            mid.console().trace(),
            end.console().trace(),
        );
        assert(end.console().answers() =~= before.console().answers() + Seq::<u32>::empty());
        lemma_frames_concat(w, f1, h1, f2, h2);
        lemma_two_steps(
            bus0.trace(),
            frames_events(w, f1, h1),
            frames_events(w, f2, h2),
            bus1.trace(),
            bus2.trace(),
        );
        lemma_two_steps(bus0.answers(), h1, h2, bus1.answers(), bus2.answers());
        assert(bus2.heard_since(&bus0) =~= h1 + h2);
    }

    /// One action, from what it did to each part of the shell.
    proof fn lemma_did_one(before: &Self, end: &Self, action: Action)
        requires
            end.wf(),
            end.screen() == screen_step(before.screen(), action),
            end.console().pending() == pending_step(before.console().pending(), action),
            end.console().trace() == before.console().trace() + console_step(
                before.console().pending(),
                action,
            ),
            end.console().answers() == before.console().answers(),
            !(action is Refresh) ==> end.display() == before.display(),
            action is Refresh ==> end.display().buffer() == render(
                before.display().font(),
                before.screen().lines,
            ) && end.display().addr() == before.display().addr() && end.display().font()
                == before.display().font() && are_transfers(
                before.display().bus().wiring(),
                flush_frames(before.display().addr(), end.display().buffer()),
                end.display().bus().heard_since(&before.display().bus()),
            ) && end.display().bus().after(
                &before.display().bus(),
                frames_events(
                    before.display().bus().wiring(),
                    flush_frames(before.display().addr(), end.display().buffer()),
                    end.display().bus().heard_since(&before.display().bus()),
                ),
                end.display().bus().heard_since(&before.display().bus()),
            ),
        ensures
            end.did(before, seq![action]),
    {
        lemma_one_action(
            before.screen(),
            before.console().pending(),
            before.display().buffer(),
            before.display().font(),
            before.display().addr(),
            action,
        );
        assert(end.console().answers() =~= before.console().answers() + Seq::<u32>::empty());
        if !(action is Refresh) {
            let bus = before.display().bus();
            let w = bus.wiring();
            let none = Seq::<Seq<u8>>::empty();
            assert(bus.heard_since(&bus) =~= Seq::<u32>::empty());
            assert(frames_events(w, none, Seq::<u32>::empty()) =~= Seq::<Event>::empty());
            assert(bus.trace() =~= bus.trace() + Seq::<Event>::empty());
            assert(bus.answers() =~= bus.answers() + Seq::<u32>::empty());
        }
    }

    /// What a shell did is judged by its console, its display and its screen
    /// lines: it did the same since any state that had the same three.
    proof fn lemma_did_since(before: &Self, same: &Self, end: &Self, actions: Seq<Action>)
        requires
            end.did(before, actions),
            same.console() == before.console(),
            same.display() == before.display(),
            same.screen() == before.screen(),
        ensures
            end.did(same, actions),
    {
    }

    /// What a shell did it still has done after a change to what is typed.
    proof fn lemma_did_until(before: &Self, end: &Self, later: &Self, actions: Seq<Action>)
        requires
            end.did(before, actions),
            later.console() == end.console(),
            later.display() == end.display(),
            later.screen() == end.screen(),
            later.wf(),
        ensures
            later.did(before, actions),
    {
    }

    /// A shell that did nothing is what it was.
    proof fn lemma_did_nothing(&self)
        requires
            self.wf(),
        ensures
            self.did(self, Seq::empty()),
    {
        let bus = self.display().bus();
        let w = bus.wiring();
        assert(bus.heard_since(&bus) =~= Seq::<u32>::empty());
        assert(frames_events(w, Seq::<Seq<u8>>::empty(), Seq::<u32>::empty()) =~= Seq::<
            Event,
        >::empty());
        assert(bus.trace() =~= bus.trace() + Seq::<Event>::empty());
        assert(bus.answers() =~= bus.answers() + Seq::<u32>::empty());
        assert(self.console().trace() =~= self.console().trace() + Seq::<Event>::empty());
        assert(self.console().answers() =~= self.console().answers() + Seq::<u32>::empty());
    }

    /// A shell on a console and a display, with nothing typed and an empty
    /// screen.
    pub fn new(console: Console<C>, display: Ssd1306<D>) -> (shell: Self)
        requires
            console.wf(),
            display.wf(),
        ensures
            shell.wf(),
            shell.console() == console,
            shell.display() == display,
            shell.input_pos() == 0,
            shell.screen().current == 0,
            forall|i: int| 0 <= i < MAX_LINES ==> c_len(#[trigger] shell.screen().lines[i]) == 0,
    {
        let shell = Shell {
            console,
            display,
            input_buffer: [0u8;64],
            input_pos: 0,
            display_lines: [[0u8;22];8],
            current_line: 0,
        };
        proof {
            broadcast use vstd::array::group_array_axioms;

        }
        shell
    }

    /// One of the eight screen lines.
    pub fn screen_line(&self, i: usize) -> (line: &[u8; 22])
        requires
            i < MAX_LINES,
        ensures
            line@ == self.screen().lines[i as int],
    {
        proof {
            broadcast use vstd::array::group_array_axioms;

        }
        &self.display_lines[i]
    }

    /// Index of the screen line that the next text goes to; 8 when the screen
    /// is full.
    pub fn line_count(&self) -> (n: usize)
        ensures
            n == self.screen().current,
    {
        self.current_line
    }

    /// The input line buffer.
    pub fn typed_line(&self) -> (line: &[u8; 64])
        ensures
            line@ == self.input(),
    {
        &self.input_buffer
    }

    /// How many bytes of the line have been typed.
    pub fn typed_len(&self) -> (n: usize)
        ensures
            n == self.input_pos(),
    {
        self.input_pos
    }

    /// The console, for writing to it and reading from it beside the shell.
    /// The shell stays well-formed as long as the console does.
    pub fn console_mut(&mut self) -> (console: &mut Console<C>)
        ensures
            *console == old(self).console(),
            final(self).console() == *final(console),
            final(self).display() == old(self).display(),
            final(self).screen() == old(self).screen(),
            final(self).input() == old(self).input(),
            final(self).input_pos() == old(self).input_pos(),
    {
        &mut self.console
    }

    /// The console, for reading.
    pub fn console_ref(&self) -> (console: &Console<C>)
        ensures
            *console == self.console(),
    {
        &self.console
    }

    /// The display, for reading.
    pub fn display_ref(&self) -> (display: &Ssd1306<D>)
        ensures
            *display == self.display(),
    {
        &self.display
    }
}

/// Puts one character to the console, as the echo of what was typed.
fn echo<C: RegisterAccess, D: RegisterAccess>(shell: &mut Shell<C, D>, c: char)
    requires
        old(shell).wf(),
    ensures
        final(shell).did(old(shell), seq![Action::Put(c as u8)]),
        final(shell).input() == old(shell).input(),
        final(shell).input_pos() == old(shell).input_pos(),
{
    putc(&mut shell.console, c);
    proof {
        Shell::lemma_did_one(old(shell), shell, Action::Put(c as u8));
    }
}

/// Writes a text and a newline to the console.
fn say<C: RegisterAccess, D: RegisterAccess>(shell: &mut Shell<C, D>, text: &[u8])
    requires
        old(shell).wf(),
    ensures
        final(shell).did(old(shell), seq![Action::Say(c_str(text@))]),
        final(shell).input() == old(shell).input(),
        final(shell).input_pos() == old(shell).input_pos(),
{
    put_bytes(&mut shell.console, text);
    let ghost mid = shell.console;
    puts(&mut shell.console, NEWLINE);
    proof {
        lemma_two_steps(
            old(shell).console.trace(),
            text_events(old(shell).console.pending(), bytes_text(c_str(text@))),
            text_events(Seq::empty(), NEWLINE@),
            mid.trace(),
            shell.console.trace(),
        );
        assert(shell.console.answers() =~= old(shell).console.answers());
        Shell::lemma_did_one(old(shell), shell, Action::Say(c_str(text@)));
    }
}

/// Adds a text to the screen lines, scrolling them up by one if the screen is
/// full.
fn add_line<C: RegisterAccess, D: RegisterAccess>(shell: &mut Shell<C, D>, text: &[u8])
    requires
        old(shell).wf(),
    ensures
        final(shell).did(old(shell), seq![Action::Line(c_str(text@))]),
        final(shell).input() == old(shell).input(),
        final(shell).input_pos() == old(shell).input_pos(),
{
    let ghost before = shell.screen();
    proof {
        broadcast use vstd::array::group_array_axioms;

    }
    if shell.current_line >= MAX_LINES {
        let mut i: usize = 0;
        while i < MAX_LINES - 1
            invariant
                i <= MAX_LINES - 1,
                shell.console == old(shell).console,
                shell.display == old(shell).display,
                shell.input_buffer == old(shell).input_buffer,
                shell.input_pos == old(shell).input_pos,
                shell.current_line == old(shell).current_line,
                forall|k: int|
                    0 <= k < i ==> shell.display_lines@[k] == old(shell).display_lines@[k + 1],
                forall|k: int|
                    i <= k < MAX_LINES ==> shell.display_lines@[k] == old(shell).display_lines@[k],
            decreases MAX_LINES - 1 - i,
        {
            shell.display_lines[i] = shell.display_lines[i + 1];
            i += 1;
        }
        shell.current_line = MAX_LINES - 1;
    }
    let ghost moved = shell.screen();
    proof {
        assert(moved.lines =~= scrolled(before).lines);
        assert(moved == scrolled(before));
    }
    str_copy(&mut shell.display_lines[shell.current_line], text, LINE_BYTES);
    shell.current_line += 1;
    proof {
        let at = moved.current;
        lemma_c_str_idempotent(text@, moved.lines[at], LINE_BYTES as int);
        assert(shell.screen().lines =~= with_line(before, c_str(text@)).lines);
        Shell::lemma_did_one(old(shell), shell, Action::Line(c_str(text@)));
    }
}

/// Empties every screen line.
fn reset_lines<C: RegisterAccess, D: RegisterAccess>(shell: &mut Shell<C, D>)
    requires
        old(shell).wf(),
    ensures
        final(shell).did(old(shell), seq![Action::Reset]),
        final(shell).input() == old(shell).input(),
        final(shell).input_pos() == old(shell).input_pos(),
{
    proof {
        broadcast use vstd::array::group_array_axioms;

    }
    let mut i: usize = 0;
    while i < MAX_LINES
        invariant
            i <= MAX_LINES,
            shell.console == old(shell).console,
            shell.display == old(shell).display,
            shell.input_buffer == old(shell).input_buffer,
            shell.input_pos == old(shell).input_pos,
            forall|k: int|
                0 <= k < i ==> shell.display_lines@[k]@ == old(shell).display_lines@[k]@.update(
                    0,
                    0u8,
                ),
            forall|k: int|
                i <= k < MAX_LINES ==> shell.display_lines@[k] == old(shell).display_lines@[k],
        decreases MAX_LINES - i,
    {
        shell.display_lines[i][0] = 0;
        i += 1;
    }
    shell.current_line = 0;
    proof {
        assert(shell.screen().lines =~= emptied(old(shell).screen()).lines);
        Shell::lemma_did_one(old(shell), shell, Action::Reset);
    }
}

/// Draws the screen lines into a blank framebuffer, 8 rows apart, and sends
/// the framebuffer to the display.
pub fn refresh_display<C: RegisterAccess, D: RegisterAccess>(shell: &mut Shell<C, D>)
    requires
        old(shell).wf(),
    ensures
        final(shell).did(old(shell), seq![Action::Refresh]),
        final(shell).input() == old(shell).input(),
        final(shell).input_pos() == old(shell).input_pos(),
{
    let ghost font = shell.display.font();
    let ghost lines = shell.screen().lines;
    clear(&mut shell.display);
    proof {
        broadcast use vstd::array::group_array_axioms;

        lemma_blank_dark();
    }
    let mut i: usize = 0;
    while i < MAX_LINES
        invariant
            i <= MAX_LINES,
            shell.console == old(shell).console,
            shell.input_buffer == old(shell).input_buffer,
            shell.input_pos == old(shell).input_pos,
            shell.display_lines == old(shell).display_lines,
            shell.current_line == old(shell).current_line,
            lines == old(shell).screen().lines,
            font == old(shell).display.font(),
            shell.display.bus() == old(shell).display.bus(),
            shell.display.addr() == old(shell).display.addr(),
            shell.display.font() == font,
            shell.display.buffer().len() == crate::ssd1306::SSD1306_BUFFER_LEN,
            forall|a: int, b: int|
                in_bounds(a, b) ==> #[trigger] pixel(shell.display.buffer(), a, b) == lines_ink(
                    font,
                    lines,
                    i as nat,
                    a,
                    b,
                ),
        decreases MAX_LINES - i,
    {
        proof {
            broadcast use vstd::array::group_array_axioms;

            assert(lines[i as int] == shell.display_lines@[i as int]@);
        }
        if shell.display_lines[i][0] != 0 {
            draw_bytes(&mut shell.display, 0, (i * 8) as i32, &shell.display_lines[i]);
        } else {
            proof {
                assert(c_len(lines[i as int]) == 0);
                assert(bytes_text(c_str(lines[i as int])) =~= Seq::<char>::empty());
            }
        }
        i += 1;
    }
    let ghost drawn = shell.display;
    crate::ssd1306::display(&mut shell.display);
    proof {
        let ink = |a: int, b: int| lines_ink(font, lines, MAX_LINES as nat, a, b);
        law_buffer_is_painted(drawn.buffer(), ink);
        Shell::lemma_did_one(old(shell), shell, Action::Refresh);
    }
}

/// Prints a line: the text goes to the console, followed by a newline, and to
/// the screen, which is then drawn and sent to the display.
fn shell_print<C: RegisterAccess, D: RegisterAccess>(shell: &mut Shell<C, D>, text: &[u8])
    requires
        old(shell).wf(),
    ensures
        final(shell).did(old(shell), print_actions(c_str(text@))),
        final(shell).input() == old(shell).input(),
        final(shell).input_pos() == old(shell).input_pos(),
{
    let ghost t = c_str(text@);
    say(shell, text);
    let ghost said = *shell;
    add_line(shell, text);
    let ghost added = *shell;
    refresh_display(shell);
    proof {
        Shell::lemma_did_then(
            old(shell),
            &said,
            &added,
            seq![Action::Say(t)],
            seq![Action::Line(t)],
        );
        Shell::lemma_did_then(
            old(shell),
            &added,
            shell,
            seq![Action::Say(t)] + seq![Action::Line(t)],
            seq![Action::Refresh],
        );
        assert(print_actions(t) =~= seq![Action::Say(t)] + seq![Action::Line(t)] + seq![
            Action::Refresh,
        ]);
    }
}

/// Clears the screen: every line is emptied, and the empty screen is drawn
/// and sent to the display.
fn shell_clear<C: RegisterAccess, D: RegisterAccess>(shell: &mut Shell<C, D>)
    requires
        old(shell).wf(),
    ensures
        final(shell).did(old(shell), clear_actions()),
        final(shell).input() == old(shell).input(),
        final(shell).input_pos() == old(shell).input_pos(),
{
    reset_lines(shell);
    let ghost emptied = *shell;
    refresh_display(shell);
    proof {
        Shell::lemma_did_then(
            old(shell),
            &emptied,
            shell,
            seq![Action::Reset],
            seq![Action::Refresh],
        );
        assert(clear_actions() =~= seq![Action::Reset] + seq![Action::Refresh]);
    }
}

/// The length of a word is the one position that has neither a space nor a
/// zero byte before it and is either the end or one of the two.
proof fn lemma_word_len(s: Seq<u8>, n: int)
    requires
        0 <= n <= s.len(),
        forall|i: int| 0 <= i < n ==> s[i] != 0 && s[i] != 32,
        n == s.len() || s[n] == 0 || s[n] == 32,
    ensures
        word_len(s) == n,
    decreases n,
{
    if n > 0 {
        lemma_word_len(s.skip(1), n - 1);
    }
}

/// Skipping the spaces of a text that begins with `n` spaces skips those
/// `n` first.
proof fn lemma_skip_spaces(s: Seq<u8>, n: int)
    requires
        0 <= n <= s.len(),
        forall|i: int| 0 <= i < n ==> s[i] == 32,
    ensures
        skip_spaces(s) == skip_spaces(s.skip(n)),
    decreases n,
{
    if n > 0 {
        lemma_skip_spaces(s.skip(1), n - 1);
        assert(s.skip(1).skip(n - 1) =~= s.skip(n));
    } else {
        assert(s.skip(0) =~= s);
    }
}

/// Splits the text in `buf` into its first words, at most eight. Returns the
/// words and their number.
fn split_args<'a>(buf: &'a [u8]) -> (found: ([&'a [u8]; 8], usize))
    ensures
        found.1 <= SHELL_MAX_ARGS,
        arg_texts(found.0, found.1 as int) == words(buf@, SHELL_MAX_ARGS as nat),
{
    let mut argv: [&[u8]; 8] = [&[];8];
    let mut argc: usize = 0;
    let mut p: usize = 0;
    let ghost all = words(buf@, SHELL_MAX_ARGS as nat);
    let ghost mut seen: Seq<Seq<u8>> = Seq::empty();
    proof {
        assert(buf@.skip(0) =~= buf@);
        assert(seen + all =~= all);
    }
    while p < buf.len() && argc < SHELL_MAX_ARGS
        invariant
            p <= buf.len(),
            argc <= SHELL_MAX_ARGS,
            all == words(buf@, SHELL_MAX_ARGS as nat),
            seen.len() == argc,
            forall|k: int| 0 <= k < argc ==> (#[trigger] argv@[k])@ == seen[k],
            all == seen + words(buf@.skip(p as int), (SHELL_MAX_ARGS - argc) as nat),
        ensures
            all == seen,
        decreases buf.len() - p,
    {
        let ghost from = p;
        while p < buf.len() && buf[p] == 32
            invariant
                from <= p <= buf.len(),
                forall|i: int| from <= i < p ==> buf@[i] == 32,
            decreases buf.len() - p,
        {
            p += 1;
        }
        let ghost t = buf@.skip(p as int);
        proof {
            lemma_skip_spaces(buf@.skip(from as int), p - from);
            assert(buf@.skip(from as int).skip(p - from) =~= t);
            assert(skip_spaces(t) == t);
        }
        if p >= buf.len() || buf[p] == 0 {
            proof {
                assert(words(buf@.skip(from as int), (SHELL_MAX_ARGS - argc) as nat) =~= Seq::<
                    Seq<u8>,
                >::empty());
                assert(words(buf@.skip(p as int), (SHELL_MAX_ARGS - argc) as nat) =~= Seq::<
                    Seq<u8>,
                >::empty());
                assert(all =~= seen);
            }
            break ;
        }
        let arg_start = p;
        while p < buf.len() && buf[p] != 0 && buf[p] != 32
            invariant
                arg_start <= p <= buf.len(),
                forall|i: int| arg_start <= i < p ==> buf@[i] != 0 && buf@[i] != 32,
            decreases buf.len() - p,
        {
            p += 1;
        }
        let word = &buf[arg_start..p];
        argv[argc] = word;
        proof {
            let n = p - arg_start;
            lemma_word_len(t, n);
            assert(t.take(n) =~= buf@.subrange(arg_start as int, p as int));
            assert(t.skip(n) =~= buf@.skip(p as int));
            let rest = words(buf@.skip(p as int), (SHELL_MAX_ARGS - argc - 1) as nat);
            assert(words(buf@.skip(from as int), (SHELL_MAX_ARGS - argc) as nat) == seq![word@]
                + rest);
            assert(seen + (seq![word@] + rest) =~= seen.push(word@) + rest);
            seen = seen.push(word@);
        }
        argc += 1;
        if p < buf.len() && buf[p] == 32 {
            proof {
                lemma_skip_spaces(buf@.skip(p as int), 1);
                assert(buf@.skip(p as int).skip(1) =~= buf@.skip(p + 1));
            }
            p += 1;
        }
        proof {
            if argc == SHELL_MAX_ARGS {
                assert(words(buf@.skip(p as int), 0) =~= Seq::<Seq<u8>>::empty());
                assert(all =~= seen);
            } else if p >= buf.len() {
                assert(skip_spaces(buf@.skip(p as int)).len() == 0);
                assert(words(buf@.skip(p as int), (SHELL_MAX_ARGS - argc) as nat) =~= Seq::<
                    Seq<u8>,
                >::empty());
                assert(all =~= seen);
            }
        }
    }
    proof {
        assert(arg_texts(argv, argc as int) =~= seen);
    }
    (argv, argc)
}

/// The text of a sequence that continues with a zero byte ends where the
/// text of its first part ends.
proof fn lemma_c_str_terminated(text: Seq<u8>, rest: Seq<u8>)
    requires
        rest.len() > 0,
        rest[0] == 0,
    ensures
        c_str(text + rest) == c_str(text),
{
    lemma_c_len_bounds(text);
    lemma_c_len(text + rest, c_len(text) as int);
    assert(c_str(text + rest) =~= c_str(text));
}

/// Prints the message `msg`.
fn print_message<C: RegisterAccess, D: RegisterAccess>(shell: &mut Shell<C, D>, msg: &str)
    requires
        old(shell).wf(),
    ensures
        final(shell).did(old(shell), message_actions(msg)),
        final(shell).input() == old(shell).input(),
        final(shell).input_pos() == old(shell).input_pos(),
{
    shell_print(shell, msg.as_bytes());
}

/// The `help` command: prints what commands there are.
fn cmd_help<C: RegisterAccess, D: RegisterAccess>(shell: &mut Shell<C, D>)
    requires
        old(shell).wf(),
    ensures
        final(shell).did(old(shell), help_actions()),
        final(shell).input() == old(shell).input(),
        final(shell).input_pos() == old(shell).input_pos(),
{
    print_message(shell, MSG_HELP_TITLE);
    let ghost s1 = *shell;
    print_message(shell, MSG_HELP_HELP);
    let ghost s2 = *shell;
    print_message(shell, MSG_HELP_CLEAR);
    let ghost s3 = *shell;
    print_message(shell, MSG_HELP_ECHO);
    proof {
        let a1 = message_actions(MSG_HELP_TITLE);
        let a2 = message_actions(MSG_HELP_HELP);
        let a3 = message_actions(MSG_HELP_CLEAR);
        let a4 = message_actions(MSG_HELP_ECHO);
        Shell::lemma_did_then(old(shell), &s1, &s2, a1, a2);
        Shell::lemma_did_then(old(shell), &s2, &s3, a1 + a2, a3);
        Shell::lemma_did_then(old(shell), &s3, shell, a1 + a2 + a3, a4);
    }
}

/// The `clear` command: clears the screen.
fn cmd_clear<C: RegisterAccess, D: RegisterAccess>(shell: &mut Shell<C, D>)
    requires
        old(shell).wf(),
    ensures
        final(shell).did(old(shell), clear_actions()),
        final(shell).input() == old(shell).input(),
        final(shell).input_pos() == old(shell).input_pos(),
{
    shell_clear(shell);
}

/// The `echo` command: prints its arguments, `argv[1]` to `argv[argc - 1]`,
/// with one space between them.
fn cmd_echo<C: RegisterAccess, D: RegisterAccess>(
    shell: &mut Shell<C, D>,
    argc: usize,
    argv: &[&[u8]; 8],
)
    requires
        old(shell).wf(),
        argc <= SHELL_MAX_ARGS,
    ensures
        final(shell).did(old(shell), echo_actions(arg_texts(*argv, argc as int))),
        final(shell).input() == old(shell).input(),
        final(shell).input_pos() == old(shell).input_pos(),
{
    let ghost args = arg_texts(*argv, argc as int);
    if argc < 2 {
        print_message(shell, MSG_ECHO_USAGE);
        return ;
    }
    let mut message: [u8; 64] = [0;64];
    let mut pos: usize = 0;
    proof {
        broadcast use vstd::array::group_array_axioms;

        assert(message@.take(0) =~= echo_message(args, 1));
    }
    let mut i: usize = 1;
    while i < argc
        invariant
            1 <= i <= argc,
            argc <= SHELL_MAX_ARGS,
            args == arg_texts(*argv, argc as int),
            pos <= ECHO_TEXT_MAX + 1,
            message@.take(pos as int) == echo_message(args, i as nat),
            forall|k: int| pos <= k < 64 ==> message@[k] == 0,
        decreases argc - i,
    {
        let arg = argv[i];
        let arg_len = str_len(arg);
        let ghost msg = echo_message(args, i as nat);
        let ghost word = c_str(args[i as int]);
        let ghost room: int = if msg.len() < ECHO_TEXT_MAX {
            ECHO_TEXT_MAX - msg.len()
        } else {
            0
        };
        proof {
            lemma_c_len_bounds(arg@);
            assert(arg@ == args[i as int]);
        }
        let mut j: usize = 0;
        while j < arg_len
            invariant
                j <= arg_len,
                arg_len == c_len(arg@),
                arg_len <= arg@.len(),
                word == c_str(arg@),
                msg.len() <= ECHO_TEXT_MAX + 1,
                room == if msg.len() < ECHO_TEXT_MAX {
                    ECHO_TEXT_MAX - msg.len()
                } else {
                    0
                },
                pos <= ECHO_TEXT_MAX + 1,
                pos == msg.len() + if j <= room {
                    j as int
                } else {
                    room
                },
                message@.take(pos as int) == msg + word.take(pos - msg.len()),
                forall|k: int| pos <= k < 64 ==> message@[k] == 0,
            decreases arg_len - j,
        {
            if pos < ECHO_TEXT_MAX {
                let ghost was = message@;
                message[pos] = arg[j];
                pos += 1;
                proof {
                    broadcast use vstd::array::group_array_axioms;

                    assert(pos - 1 - msg.len() == j);
                    assert(word.len() == arg_len);
                    assert(word[j as int] == arg@[j as int]);
                    assert(message@.take(pos as int) =~= was.take(pos - 1).push(arg@[j as int]));
                    assert(word.take(j + 1) =~= word.take(j as int).push(word[j as int]));
                    assert(message@.take(pos as int) =~= msg + word.take(pos - msg.len()));
                }
            }
            j += 1;
        }
        let ghost longer = message@.take(pos as int);
        proof {
            if word.len() <= room {
                assert(word.take(word.len() as int) =~= word);
            }
        }
        if i < argc - 1 && pos < SHELL_MAX_LINE_LENGTH - 1 {
            message[pos] = SPACE;
            pos += 1;
            proof {
                broadcast use vstd::array::group_array_axioms;

                assert(message@.take(pos as int) =~= longer.push(32u8));
            }
        }
        i += 1;
    }
    message[pos] = 0;
    proof {
        broadcast use vstd::array::group_array_axioms;

        let msg = echo_message(args, argc as nat);
        assert(message@ =~= msg + message@.skip(pos as int));
        lemma_c_str_terminated(msg, message@.skip(pos as int));
    }
    shell_print(shell, &message);
}

/// Says that `word` is no command: in one line if that fits on the screen,
/// in two if not.
fn print_unknown<C: RegisterAccess, D: RegisterAccess>(shell: &mut Shell<C, D>, word: &[u8])
    requires
        old(shell).wf(),
    ensures
        final(shell).did(old(shell), unknown_actions(word@)),
        final(shell).input() == old(shell).input(),
        final(shell).input_pos() == old(shell).input_pos(),
{
    let prefix = MSG_UNKNOWN.as_bytes();
    let word_len = str_len(word);
    proof {
        lemma_c_len_bounds(word@);
    }
    if prefix.len() > LINE_TEXT_MAX || word_len > LINE_TEXT_MAX - prefix.len() {
        print_message(shell, MSG_UNKNOWN);
        let ghost mid = *shell;
        shell_print(shell, word);
        proof {
            Shell::lemma_did_then(
                old(shell),
                &mid,
                shell,
                message_actions(MSG_UNKNOWN),
                print_actions(c_str(word@)),
            );
        }
        return ;
    }
    let mut err_msg: [u8; 64] = [0;64];
    proof {
        broadcast use vstd::array::group_array_axioms;

    }
    let mut i: usize = 0;
    while i < prefix.len()
        invariant
            i <= prefix.len() <= LINE_TEXT_MAX,
            err_msg@.take(i as int) == prefix@.take(i as int),
            forall|k: int| i <= k < 64 ==> err_msg@[k] == 0,
        decreases prefix.len() - i,
    {
        err_msg[i] = prefix[i];
        i += 1;
        proof {
            broadcast use vstd::array::group_array_axioms;

            assert(err_msg@.take(i as int) =~= prefix@.take(i as int));
        }
    }
    proof {
        assert(prefix@.take(prefix@.len() as int) =~= prefix@);
    }
    let mut j: usize = 0;
    while j < word_len
        invariant
            j <= word_len,
            word_len == c_len(word@),
            word_len <= word@.len(),
            prefix@.len() + word_len <= LINE_TEXT_MAX,
            err_msg@.take(prefix@.len() + j) == prefix@ + c_str(word@).take(j as int),
            forall|k: int| prefix@.len() + j <= k < 64 ==> err_msg@[k] == 0,
        decreases word_len - j,
    {
        let ghost was = err_msg@;
        err_msg[prefix.len() + j] = word[j];
        j += 1;
        proof {
            broadcast use vstd::array::group_array_axioms;

            let text = c_str(word@);
            assert(text.len() == word_len);
            assert(text[j - 1] == word@[j - 1]);
            assert(err_msg@.take(prefix@.len() + j) =~= was.take(prefix@.len() + j - 1).push(
                word@[j - 1],
            ));
            assert(text.take(j as int) =~= text.take(j - 1).push(text[j - 1]));
            assert(err_msg@.take(prefix@.len() + j) =~= prefix@ + text.take(j as int));
        }
    }
    proof {
        broadcast use vstd::array::group_array_axioms;

        let text = prefix@ + c_str(word@);
        assert(c_str(word@).take(word_len as int) =~= c_str(word@));
        assert(err_msg@ =~= text + err_msg@.skip(text.len() as int));
        lemma_c_str_terminated(text, err_msg@.skip(text.len() as int));
    }
    shell_print(shell, &err_msg);
}

/// Runs the command line `cmdline`: shows it behind a prompt, splits its text
/// into words, and runs the command that the first word names.
fn shell_execute<C: RegisterAccess, D: RegisterAccess>(shell: &mut Shell<C, D>, cmdline: &[u8])
    requires
        old(shell).wf(),
    ensures
        final(shell).did(old(shell), execute_actions(cmdline@)),
        final(shell).input() == old(shell).input(),
        final(shell).input_pos() == old(shell).input_pos(),
{
    let mut prompt_line: [u8; 64] = [0;64];
    prompt_line[0] = GREATER_THAN;
    prompt_line[1] = SPACE;
    let (_, tail) = prompt_line.split_at_mut(2);
    proof {
        broadcast use vstd::array::group_array_axioms;

        assert(tail@ =~= zeros(62));
    }
    str_copy(tail, cmdline, SHELL_MAX_LINE_LENGTH - 2);
    proof {
        broadcast use vstd::array::group_array_axioms;

        assert(prompt_line@ =~= seq![GREATER_THAN, SPACE] + copied(zeros(62), cmdline@, 62));
    }
    shell_print(shell, &prompt_line);
    let ghost shown = *shell;
    let ghost first = print_actions(prompt_text(cmdline@));

    let mut start: usize = 0;
    while start < cmdline.len() && cmdline[start] == SPACE
        invariant
            start <= cmdline.len(),
            forall|i: int| 0 <= i < start ==> cmdline@[i] == 32,
        decreases cmdline.len() - start,
    {
        start += 1;
    }
    let ghost rest = cmdline@.skip(start as int);
    proof {
        lemma_skip_spaces(cmdline@, start as int);
        assert(skip_spaces(rest) == rest);
        assert(first + Seq::<Action>::empty() =~= first);
    }
    if start >= cmdline.len() || cmdline[start] == 0 {
        return ;
    }
    let mut args_buffer: [u8; 64] = [0;64];
    proof {
        broadcast use vstd::array::group_array_axioms;

        assert(args_buffer@ =~= zeros(SHELL_MAX_LINE_LENGTH as nat));
    }
    str_copy(&mut args_buffer, &cmdline[start..cmdline.len()], SHELL_MAX_LINE_LENGTH);
    proof {
        assert(cmdline@.subrange(start as int, cmdline@.len() as int) =~= rest);
    }
    let (argv, argc) = split_args(&args_buffer);
    let ghost args = command_words(cmdline@);
    if argc == 0 {
        return ;
    }
    if str_equals(argv[0], &CMD_HELP) {
        cmd_help(shell);
    } else if str_equals(argv[0], &CMD_CLEAR) {
        cmd_clear(shell);
    } else if str_equals(argv[0], &CMD_ECHO) {
        cmd_echo(shell, argc, &argv);
    } else {
        print_unknown(shell, argv[0]);
    }
    proof {
        Shell::lemma_did_then(old(shell), &shown, shell, first, command_actions(args));
    }
}

/// Starts the shell over: nothing is typed, the screen lines are emptied, and
/// the banner, the hint and a prompt are printed.
pub fn init<C: RegisterAccess, D: RegisterAccess>(shell: &mut Shell<C, D>)
    requires
        old(shell).wf(),
    ensures
        final(shell).did(old(shell), init_actions()),
        final(shell).input() == old(shell).input(),
        final(shell).input_pos() == 0,
{
    shell.input_pos = 0;
    let ghost start = *shell;
    reset_lines(shell);
    let ghost s0 = *shell;
    print_message(shell, MSG_BANNER);
    let ghost s1 = *shell;
    print_message(shell, MSG_HINT);
    let ghost s2 = *shell;
    print_message(shell, MSG_PROMPT);
    proof {
        let a0 = seq![Action::Reset];
        let a1 = message_actions(MSG_BANNER);
        let a2 = message_actions(MSG_HINT);
        let a3 = message_actions(MSG_PROMPT);
        Shell::lemma_did_then(&start, &s0, &s1, a0, a1);
        Shell::lemma_did_then(&start, &s1, &s2, a0 + a1, a2);
        Shell::lemma_did_then(&start, &s2, shell, a0 + a1 + a2, a3);
    }
}

/// Takes the last character of the typed line away, if there is one, and
/// wipes it on the console.
fn erase_last<C: RegisterAccess, D: RegisterAccess>(shell: &mut Shell<C, D>)
    requires
        old(shell).wf(),
    ensures
        final(shell).did(
            old(shell),
            typed_actions(old(shell).input(), old(shell).input_pos(), BACKSPACE),
        ),
        (final(shell).input(), final(shell).input_pos()) == typed(
            old(shell).input(),
            old(shell).input_pos(),
            BACKSPACE,
        ),
{
    proof {
        broadcast use vstd::array::array_len_matches_n;

    }
    if shell.input_pos > 0 {
        shell.input_pos -= 1;
        shell.input_buffer[shell.input_pos] = 0;
        let ghost s0 = *shell;
        echo(shell, '\x08');
        let ghost s1 = *shell;
        echo(shell, ' ');
        let ghost s2 = *shell;
        echo(shell, '\x08');
        proof {
            let a1 = seq![Action::Put(8u8)];
            let a2 = seq![Action::Put(32u8)];
            Shell::lemma_did_then(&s0, &s1, &s2, a1, a2);
            Shell::lemma_did_then(&s0, &s2, shell, a1 + a2, a1);
            assert(a1 + a2 + a1 =~= seq![Action::Put(8u8), Action::Put(32u8), Action::Put(8u8)]);
            Shell::lemma_did_since(&s0, old(shell), shell, a1 + a2 + a1);
        }
    } else {
        proof {
            shell.lemma_did_nothing();
        }
    }
}

/// Ends the typed line: the line is run if it is not empty, a prompt is
/// printed, and the line is emptied.
fn submit_line<C: RegisterAccess, D: RegisterAccess>(shell: &mut Shell<C, D>)
    requires
        old(shell).wf(),
    ensures
        final(shell).did(
            old(shell),
            typed_actions(old(shell).input(), old(shell).input_pos(), LINE_FEED),
        ),
        (final(shell).input(), final(shell).input_pos()) == typed(
            old(shell).input(),
            old(shell).input_pos(),
            LINE_FEED,
        ),
{
    proof {
        broadcast use vstd::array::array_len_matches_n;

    }
    let ghost none = Seq::<Action>::empty();
    echo(shell, '\n');
    let ghost s1 = *shell;
    shell.input_buffer[shell.input_pos] = 0;
    let ghost s2 = *shell;
    let ghost run = if shell.input_pos > 0 {
        execute_actions(shell.input())
    } else {
        none
    };
    if shell.input_pos > 0 {
        let line = shell.input_buffer;
        shell_execute(shell, &line);
    } else {
        proof {
            shell.lemma_did_nothing();
        }
    }
    let ghost s3 = *shell;
    print_message(shell, MSG_PROMPT);
    let ghost s4 = *shell;
    shell.input_pos = 0;
    shell.input_buffer[0] = 0;
    proof {
        let a1 = seq![Action::Put(10u8)];
        let a3 = message_actions(MSG_PROMPT);
        Shell::lemma_did_since(&s2, &s1, &s3, run);
        Shell::lemma_did_then(old(shell), &s1, &s3, a1, run);
        Shell::lemma_did_then(old(shell), &s3, &s4, a1 + run, a3);
        Shell::lemma_did_until(old(shell), &s4, shell, a1 + run + a3);
    }
}

/// Adds the printable character with code `c` to the typed line and echoes
/// it, if the line has room.
fn accept_char<C: RegisterAccess, D: RegisterAccess>(shell: &mut Shell<C, D>, c: u8)
    requires
        old(shell).wf(),
        SPACE <= c <= TILDE,
    ensures
        final(shell).did(old(shell), typed_actions(old(shell).input(), old(shell).input_pos(), c)),
        (final(shell).input(), final(shell).input_pos()) == typed(
            old(shell).input(),
            old(shell).input_pos(),
            c,
        ),
{
    proof {
        broadcast use vstd::array::array_len_matches_n;

    }
    if shell.input_pos < SHELL_MAX_LINE_LENGTH - 1 {
        shell.input_buffer[shell.input_pos] = c;
        shell.input_pos += 1;
        shell.input_buffer[shell.input_pos] = 0;
        let ghost s0 = *shell;
        echo(shell, c as char);
        proof {
            Shell::lemma_did_since(&s0, old(shell), shell, seq![Action::Put(c)]);
        }
    } else {
        proof {
            shell.lemma_did_nothing();
        }
    }
}

/// Takes one character that was typed: backspace and delete take the last
/// character of the line away, a line end runs the line and prints a prompt,
/// a printable character is added to the line, and anything else is ignored.
/// Only the low eight bits of the character's code count.
pub fn process_char<C: RegisterAccess, D: RegisterAccess>(shell: &mut Shell<C, D>, c: char)
    requires
        old(shell).wf(),
    ensures
        final(shell).did(
            old(shell),
            typed_actions(old(shell).input(), old(shell).input_pos(), c as u8),
        ),
        (final(shell).input(), final(shell).input_pos()) == typed(
            old(shell).input(),
            old(shell).input_pos(),
            c as u8,
        ),
{
    let c = #[verifier::truncate] (c as u8);
    if c == BACKSPACE || c == DELETE {
        erase_last(shell);
        return ;
    }
    if c == LINE_FEED || c == CARRIAGE_RETURN {
        submit_line(shell);
        return ;
    }
    if c >= SPACE && c <= TILDE {
        accept_char(shell, c);
        return ;
    }
    proof {
        shell.lemma_did_nothing();
    }
}

} // verus!
