use ssd1306_bitbang::console::Console;
use ssd1306_bitbang::trace::Event;
use ssd1306_bitbang::shell;
use ssd1306_bitbang::shell::Shell;
use ssd1306_bitbang::sim::SimRegisters;
use ssd1306_bitbang::ssd1306;
use ssd1306_bitbang::ssd1306::{Font, Ssd1306, Ssd1306Config};

const EP1: u32 = 0x6004_3000;

type TestShell = Shell<SimRegisters, SimRegisters>;

/// A font in which every column of the glyph of a character is the
/// character's code; the space is blank.
fn code_font() -> Font {
    let mut font = [[0u8; 5]; 95];
    for (i, glyph) in font.iter_mut().enumerate().skip(1) {
        *glyph = [i as u8 + 32; 5];
    }
    font
}

/// A shell on a display that was brought up, before the shell itself is
/// started.
fn fresh() -> TestShell {
    let console = Console::new(SimRegisters::new(Vec::new(), 0));
    let mut display = Ssd1306::new(SimRegisters::new(Vec::new(), 0), code_font());
    ssd1306::init(&mut display, &Ssd1306Config { i2c_addr: 0x3C, scl_pin: 7, sda_pin: 6 });
    Shell::new(console, display)
}

fn started() -> TestShell {
    let mut sh = fresh();
    shell::init(&mut sh);
    sh
}

fn type_text(sh: &mut TestShell, text: &str) {
    for c in text.chars() {
        shell::process_char(sh, c);
    }
}

fn text_of(line: &[u8]) -> String {
    let len = line.iter().position(|b| *b == 0).unwrap_or(line.len());
    String::from_utf8(line[..len].to_vec()).unwrap()
}

/// The texts of the screen lines that are in use.
fn screen(sh: &TestShell) -> Vec<String> {
    (0..sh.line_count()).map(|i| text_of(sh.screen_line(i))).collect()
}

/// Everything that was handed to the console's transmit FIFO.
fn console_output(sh: &TestShell) -> String {
    let bytes: Vec<u8> = sh
        .console_ref()
        .registers()
        .log()
        .iter()
        .filter_map(|e| match *e {
            Event::Write { addr, val } if addr == EP1 => Some(val as u8),
            _ => None,
        })
        .collect();
    String::from_utf8(bytes).unwrap()
}

/// The framebuffer that shows `lines` from the top, drawn with the same font.
fn rendered(lines: &[String]) -> [u8; 1024] {
    let mut d = Ssd1306::new(SimRegisters::new(Vec::new(), 0), code_font());
    for (i, line) in lines.iter().enumerate() {
        ssd1306::draw_string(&mut d, 0, 8 * i as i32, line);
    }
    *d.framebuffer()
}

#[test]
fn a_new_shell_has_an_empty_screen_and_nothing_typed() {
    let sh = fresh();
    assert_eq!(sh.line_count(), 0);
    assert_eq!(sh.typed_len(), 0);
    assert!((0..8).all(|i| sh.screen_line(i)[0] == 0));
    assert_eq!(console_output(&sh), "");
}

#[test]
fn init_prints_the_banner_the_hint_and_a_prompt() {
    let sh = started();
    assert_eq!(screen(&sh), ["RISC-V Shell v1.0", "Type 'help'", ">"]);
    assert_eq!(console_output(&sh), "RISC-V Shell v1.0\r\nType 'help'\r\n>\r\n");
    assert_eq!(*sh.display_ref().framebuffer(), rendered(&screen(&sh)));
    assert_eq!(sh.typed_len(), 0);
}

#[test]
fn init_starts_over() {
    let mut sh = started();
    type_text(&mut sh, "echo one\recho tw");
    shell::init(&mut sh);
    assert_eq!(screen(&sh), ["RISC-V Shell v1.0", "Type 'help'", ">"]);
    assert_eq!(sh.typed_len(), 0);
}

#[test]
fn a_typed_character_is_taken_and_echoed() {
    let mut sh = started();
    let before = console_output(&sh);
    type_text(&mut sh, "ab");
    assert_eq!(sh.typed_len(), 2);
    assert_eq!(&sh.typed_line()[..3], b"ab\0");
    assert_eq!(console_output(&sh), before, "the echo waits in the buffer");
    type_text(&mut sh, "\r");
    assert!(console_output(&sh)[before.len()..].starts_with("ab\n> ab\r\n"));
}

#[test]
fn what_is_not_printable_is_ignored() {
    let mut sh = started();
    let screen_before = screen(&sh);
    for c in ['\t', '\0', '\x1b', '\x07', '\x7f', '\x08'] {
        shell::process_char(&mut sh, c);
    }
    assert_eq!(sh.typed_len(), 0);
    assert_eq!(screen(&sh), screen_before);
    type_text(&mut sh, "\u{e9}\u{80}\u{ff}");
    assert_eq!(sh.typed_len(), 0);
}

#[test]
fn only_the_low_eight_bits_of_a_character_count() {
    let mut sh = started();
    type_text(&mut sh, "\u{141}\u{1F642}");
    assert_eq!(sh.typed_len(), 2);
    assert_eq!(&sh.typed_line()[..3], b"AB\0");
    shell::process_char(&mut sh, '\u{10a}');
    assert_eq!(sh.typed_len(), 0);
    assert_eq!(screen(&sh).last().unwrap(), ">");
    assert!(screen(&sh).contains(&"> AB".to_string()));
}

#[test]
fn backspace_and_delete_take_the_last_character_away() {
    let mut sh = started();
    type_text(&mut sh, "abc\x08");
    assert_eq!(sh.typed_len(), 2);
    assert_eq!(&sh.typed_line()[..3], b"ab\0");
    type_text(&mut sh, "\x7f\x7f\x7f\x08");
    assert_eq!(sh.typed_len(), 0);
    assert_eq!(sh.typed_line()[0], 0);

    let mut sh = started();
    let before = console_output(&sh).len();
    type_text(&mut sh, "hi\x08\r");
    assert!(console_output(&sh)[before..].starts_with("hi\x08 \x08\n> h\r\n"));

    let mut sh = started();
    let before = console_output(&sh).len();
    type_text(&mut sh, "\x08\x7f\r");
    assert_eq!(&console_output(&sh)[before..], "\n>\r\n");
}

#[test]
fn a_line_holds_at_most_63_characters() {
    let mut sh = started();
    type_text(&mut sh, &"x".repeat(70));
    assert_eq!(sh.typed_len(), 63);
    assert_eq!(sh.typed_line()[62], b'x');
    assert_eq!(sh.typed_line()[63], 0);
}

#[test]
fn an_empty_line_prints_a_prompt() {
    let mut sh = started();
    let before = console_output(&sh).len();
    type_text(&mut sh, "\r\n");
    assert_eq!(screen(&sh), ["RISC-V Shell v1.0", "Type 'help'", ">", ">", ">"]);
    assert_eq!(&console_output(&sh)[before..], "\n>\r\n\n>\r\n");
}

#[test]
fn a_line_of_spaces_is_shown_and_runs_nothing() {
    let mut sh = started();
    type_text(&mut sh, "   \r");
    assert_eq!(screen(&sh), ["RISC-V Shell v1.0", "Type 'help'", ">", ">    ", ">"]);
}

#[test]
fn help_prints_the_commands_and_the_screen_scrolls() {
    let mut sh = started();
    type_text(&mut sh, "help\r");
    assert_eq!(
        screen(&sh),
        [
            "Type 'help'",
            ">",
            "> help",
            "Available commands:",
            "  help  - Show help",
            "  clear - Clear scree",
            "  echo  - Echo text",
            ">",
        ]
    );
    assert_eq!(sh.line_count(), 8);
    assert_eq!(*sh.display_ref().framebuffer(), rendered(&screen(&sh)));
    assert!(console_output(&sh).ends_with(
        "help\n> help\r\nAvailable commands:\r\n  help  - Show help\r\n  clear - Clear screen\r\n  echo  - Echo text\r\n>\r\n"
    ));
}

#[test]
fn the_command_word_may_follow_spaces_and_take_arguments() {
    let mut sh = started();
    type_text(&mut sh, "  help me\r");
    assert!(screen(&sh).contains(&"Available commands:".to_string()));
    assert!(screen(&sh).contains(&">   help me".to_string()));
}

#[test]
fn clear_empties_the_screen() {
    let mut sh = started();
    type_text(&mut sh, "clear\r");
    assert_eq!(screen(&sh), [">"]);
    assert!((1..8).all(|i| sh.screen_line(i)[0] == 0));
    assert_eq!(*sh.display_ref().framebuffer(), rendered(&[">".to_string()]));
}

#[test]
fn echo_prints_its_arguments_with_one_space_between_them() {
    let mut sh = started();
    type_text(&mut sh, "clear\recho hello world\r");
    assert_eq!(screen(&sh), [">", "> echo hello world", "hello world", ">"]);

    let mut sh = started();
    type_text(&mut sh, "clear\r  echo   a    b  c   \r");
    assert_eq!(screen(&sh), [">", ">   echo   a    b  c ", "a b c", ">"]);
    assert!(console_output(&sh).ends_with(">   echo   a    b  c   \r\na b c\r\n>\r\n"));
}

#[test]
fn echo_without_arguments_says_how_it_is_used() {
    let mut sh = started();
    type_text(&mut sh, "clear\recho\r");
    assert_eq!(screen(&sh), [">", "> echo", "Usage: echo <text>", ">"]);
}

#[test]
fn echo_takes_the_first_seven_arguments() {
    let mut sh = started();
    type_text(&mut sh, "clear\recho 1 2 3 4 5 6 7 8 9\r");
    assert_eq!(screen(&sh)[2], "1 2 3 4 5 6 7");
}

#[test]
fn a_long_echo_is_cut_on_the_screen_and_whole_on_the_console() {
    let mut sh = started();
    let words = "a123456789 b123456789 c123456789 d123456789 e123456789";
    type_text(&mut sh, "clear\r");
    type_text(&mut sh, &format!("echo {words}\r"));
    assert_eq!(screen(&sh)[1], "> echo a123456789 b12");
    assert_eq!(screen(&sh)[2], "a123456789 b123456789");
    assert!(console_output(&sh).ends_with(&format!("> echo {words}\r\n{words}\r\n>\r\n")));
}

#[test]
fn an_unknown_command_is_named_in_one_line_if_it_fits() {
    for word in ["x", "foo", "abcd"] {
        let mut sh = started();
        type_text(&mut sh, &format!("clear\r{word} arg\r"));
        assert_eq!(
            screen(&sh),
            [
                ">".to_string(),
                format!("> {word} arg"),
                format!("command unknown: {word}"),
                ">".to_string()
            ]
        );
    }
}

#[test]
fn an_unknown_command_with_a_long_name_takes_two_lines() {
    let mut sh = started();
    type_text(&mut sh, "clear\rabcde\r");
    assert_eq!(screen(&sh), [">", "> abcde", "command unknown: ", "abcde", ">"]);

    let mut sh = started();
    type_text(&mut sh, "clear\rhelpless\r");
    assert_eq!(screen(&sh), [">", "> helpless", "command unknown: ", "helpless", ">"]);
}

#[test]
fn command_names_are_matched_exactly() {
    for word in ["Help", "hel", "helpp", "ECHO", "clea"] {
        let mut sh = started();
        type_text(&mut sh, &format!("clear\r{word}\r"));
        assert!(screen(&sh)[2].starts_with("command unknown: "), "word {word}");
    }
}

#[test]
fn the_screen_keeps_the_last_eight_lines() {
    let mut sh = started();
    type_text(&mut sh, "clear\r");
    for i in 0..6 {
        type_text(&mut sh, &format!("echo line{i}\r"));
    }
    assert_eq!(
        screen(&sh),
        ["line3", ">", "> echo line4", "line4", ">", "> echo line5", "line5", ">"]
    );
    assert_eq!(*sh.display_ref().framebuffer(), rendered(&screen(&sh)));
}

#[test]
fn every_printed_line_is_sent_to_the_display() {
    let mut sh = fresh();
    let before = sh.display_ref().registers().log().len();
    shell::refresh_display(&mut sh);
    let one = sh.display_ref().registers().log().len() - before;
    assert!(one > 1024 * 9);
    shell::init(&mut sh);
    assert_eq!(sh.display_ref().registers().log().len() - before, 4 * one);
    type_text(&mut sh, "ab");
    assert_eq!(sh.display_ref().registers().log().len() - before, 4 * one);
    type_text(&mut sh, "\r");
    assert_eq!(screen(&sh).len(), 6);
    assert_eq!(sh.display_ref().registers().log().len() - before, 7 * one);
}
