use tri_kernel::keyboard::RingBuffer;
use tri_kernel::shell::{
    handle_command, print, shell_loop, trim, u32_to_str, u8_to_str, DummyWriter, History, Shell,
    ShellAction, Writer, CMD_BUF_SIZE, HISTORY_SIZE, PROMPT,
};
use tri_kernel::vga::Writer as Display;

struct Recorder {
    bytes: Vec<u8>,
    calls: usize,
}

impl Recorder {
    fn new() -> Recorder {
        Recorder { bytes: Vec::new(), calls: 0 }
    }

    fn take(&mut self) -> Vec<u8> {
        self.calls = 0;
        std::mem::take(&mut self.bytes)
    }
}

impl Writer for Recorder {
    fn write_byte(&mut self, byte: u8) {
        self.calls += 1;
        self.bytes.push(byte);
    }

    fn write_string(&mut self, s: &str) {
        self.calls += 1;
        self.bytes.extend_from_slice(s.as_bytes());
    }
}

const HELP: &str = "Comandos dispon\u{ed}veis:\n  help    - mostra esta ajuda\n  hello   - mensagem de teste\n  tri-ratio - stats da compress\u{e3}o TRI\n  halt    - para o kernel\n  history - mostra os \u{fa}ltimos comandos\n";
const HELLO: &str = "Ol\u{e1}, TRI Kernel! Bem-vindo ao mini-shell bare-metal.\n";
const UNKNOWN: &str = "Comando n\u{e3}o reconhecido. Digite 'help'.\n";
const HALTING: &str = "Haltando TRI Kernel...\n";
const RATIO: &str = "TRI Ratio: B8% (32 -> 17 bytes)\n";

fn line(text: &[u8]) -> [u8; 128] {
    let mut buffer = [0u8; 128];
    buffer[..text.len()].copy_from_slice(text);
    buffer
}

fn history_of(lines: &[&[u8]]) -> History {
    let mut history = History::new();
    for text in lines {
        history.record(&line(text), text.len());
    }
    history
}

fn dispatch(cmd: &[u8], history: &History) -> (Vec<u8>, bool) {
    let mut out = Recorder::new();
    let halt = handle_command(&mut out, cmd, history);
    (out.bytes, halt)
}

fn type_keys(shell: &mut Shell, out: &mut Recorder, keys: &[u8]) -> bool {
    let mut halted = false;
    for &key in keys {
        halted = shell.handle_key(out, key);
    }
    halted
}

#[test]
fn print_forwards_the_string_to_the_sink() {
    let mut sink = Recorder::new();
    print(&mut sink, "tri> ");
    assert_eq!(sink.bytes, b"tri> ".to_vec());
    assert_eq!(sink.calls, 1);
}

#[test]
fn dummy_writer_accepts_everything() {
    let mut sink = DummyWriter;
    sink.write_byte(b'x');
    sink.write_string("text");
    print(&mut sink, "anything");
    let mut shell = Shell::new(&mut sink);
    assert!(!shell.handle_key(&mut sink, b'h'));
    assert!(!shell.handle_key(&mut sink, b'\n'));
}

#[test]
fn constants_of_the_shell() {
    assert_eq!(PROMPT, "tri> ");
    assert_eq!(CMD_BUF_SIZE, 128);
    assert_eq!(HISTORY_SIZE, 5);
}

#[test]
fn u8_to_str_below_one_hundred() {
    assert_eq!(u8_to_str(0), "0");
    assert_eq!(u8_to_str(7), "7");
    assert_eq!(u8_to_str(9), "9");
    assert_eq!(u8_to_str(10), "10");
    assert_eq!(u8_to_str(42), "42");
    assert_eq!(u8_to_str(99), "99");
}

#[test]
fn u8_to_str_from_one_hundred_counts_the_tens_past_nine() {
    assert_eq!(u8_to_str(100), ":0");
    assert_eq!(u8_to_str(106), ":6");
    assert_eq!(u8_to_str(188), "B8");
    assert_eq!(u8_to_str(255), "I5");
}

#[test]
fn u32_to_str_is_decimal() {
    assert_eq!(u32_to_str(0), "0");
    assert_eq!(u32_to_str(5), "5");
    assert_eq!(u32_to_str(10), "10");
    assert_eq!(u32_to_str(17), "17");
    assert_eq!(u32_to_str(32), "32");
    assert_eq!(u32_to_str(1000), "1000");
    assert_eq!(u32_to_str(90210), "90210");
    assert_eq!(u32_to_str(4294967295), "4294967295");
    for n in [1u32, 99, 100, 101, 65535, 1_000_000, 123_456_789] {
        assert_eq!(u32_to_str(n), n.to_string());
    }
}

#[test]
fn trim_cuts_white_space_at_both_ends() {
    assert_eq!(trim(b"help"), b"help");
    assert_eq!(trim(b"  help  "), b"help");
    assert_eq!(trim(b"\t\n help\r\x0b\x0c"), b"help");
    assert_eq!(trim(b"a b"), b"a b");
    assert_eq!(trim(b"   "), b"");
    assert_eq!(trim(b""), b"");
    assert_eq!(trim(b" x"), b"x");
    assert_eq!(trim(b"x "), b"x");
    assert_eq!(trim(b"\x00 x"), b"\x00 x");
}

#[test]
fn help_prints_the_help_text_byte_for_byte() {
    let (out, halt) = dispatch(b"help", &History::new());
    assert_eq!(out, HELP.as_bytes().to_vec());
    assert!(!halt);
}

#[test]
fn help_text_is_written_line_by_line() {
    let mut out = Recorder::new();
    handle_command(&mut out, b"help", &History::new());
    assert_eq!(out.calls, 6);
}

#[test]
fn an_unknown_command_prints_the_one_diagnostic_line() {
    let (out, halt) = dispatch(b"zzz", &History::new());
    assert_eq!(out, UNKNOWN.as_bytes().to_vec());
    assert!(!halt);
}

#[test]
fn an_empty_line_prints_nothing() {
    assert_eq!(dispatch(b"", &History::new()), (Vec::new(), false));
    assert_eq!(dispatch(b"   ", &History::new()), (Vec::new(), false));
}

#[test]
fn commands_match_after_trimming() {
    assert_eq!(dispatch(b"  help ", &History::new()).0, HELP.as_bytes().to_vec());
    assert_eq!(dispatch(b" hello", &History::new()).0, HELLO.as_bytes().to_vec());
}

#[test]
fn commands_match_exactly_and_with_case() {
    for cmd in [
        &b"Help"[..],
        &b"HELP"[..],
        &b"helpp"[..],
        &b"hel"[..],
        &b"he lp"[..],
        &b"help me"[..],
        &b"Halt"[..],
        &b"exit"[..],
        &b"list"[..],
        &b"tri ratio"[..],
        &b"historia"[..],
    ] {
        assert_eq!(dispatch(cmd, &History::new()), (UNKNOWN.as_bytes().to_vec(), false));
    }
}

#[test]
fn hello_prints_the_greeting() {
    assert_eq!(dispatch(b"hello", &History::new()), (HELLO.as_bytes().to_vec(), false));
}

#[test]
fn tri_ratio_reports_on_the_sample_block() {
    assert_eq!(dispatch(b"tri-ratio", &History::new()), (RATIO.as_bytes().to_vec(), false));
}

#[test]
fn halt_prints_its_line_and_asks_to_halt() {
    assert_eq!(dispatch(b"halt", &History::new()), (HALTING.as_bytes().to_vec(), true));
    assert_eq!(dispatch(b" halt  ", &History::new()), (HALTING.as_bytes().to_vec(), true));
}

#[test]
fn history_of_nothing() {
    let (out, halt) = dispatch(b"history", &History::new());
    assert_eq!(out, "Hist\u{f3}rico de comandos:\n  (vazio)\n".as_bytes().to_vec());
    assert!(!halt);
}

#[test]
fn history_lists_the_lines_oldest_first() {
    let history = history_of(&[b"help", b"zzz", b"  hello"]);
    let (out, _) = dispatch(b"history", &history);
    assert_eq!(
        out,
        "Hist\u{f3}rico de comandos:\n  1: help\n  2: zzz\n  3:   hello\n".as_bytes().to_vec()
    );
}

#[test]
fn history_keeps_the_last_five_lines() {
    let mut history = History::new();
    assert_eq!(history.len(), 0);
    for (i, text) in [b"c1", b"c2", b"c3", b"c4", b"c5", b"c6", b"c7"].iter().enumerate() {
        history.record(&line(&text[..]), 2);
        assert_eq!(history.len(), if i < 5 { i + 1 } else { 5 });
    }
    for (i, text) in ["c3", "c4", "c5", "c6", "c7"].iter().enumerate() {
        assert_eq!(history.entry_text(i), *text);
    }
    let (out, _) = dispatch(b"history", &history);
    assert_eq!(
        out,
        "Hist\u{f3}rico de comandos:\n  1: c3\n  2: c4\n  3: c5\n  4: c6\n  5: c7\n"
            .as_bytes()
            .to_vec()
    );
}

#[test]
fn history_records_only_the_given_length() {
    let mut history = History::new();
    history.record(&line(b"helpXYZ"), 4);
    assert_eq!(history.entry_text(0), "help");
}

#[test]
fn a_new_shell_prints_the_prompt() {
    let mut out = Recorder::new();
    let shell = Shell::new(&mut out);
    assert_eq!(out.bytes, b"tri> ".to_vec());
    assert!(!shell.is_halted());
}

#[test]
fn typed_keys_are_echoed_at_once() {
    let mut out = Recorder::new();
    let mut shell = Shell::new(&mut out);
    out.take();
    assert!(!shell.handle_key(&mut out, b'h'));
    assert_eq!(out.take(), b"h".to_vec());
    assert!(!shell.handle_key(&mut out, b' '));
    assert_eq!(out.take(), b" ".to_vec());
    assert!(!shell.handle_key(&mut out, b'~'));
    assert_eq!(out.take(), b"~".to_vec());
}

#[test]
fn keys_that_are_not_printable_are_ignored() {
    let mut out = Recorder::new();
    let mut shell = Shell::new(&mut out);
    out.take();
    for key in [0u8, 1, 9, 27, 0x1f, 0x80, 0xe9, 0xff] {
        assert!(!shell.handle_key(&mut out, key));
    }
    assert_eq!(out.take(), Vec::<u8>::new());
    type_keys(&mut shell, &mut out, b"\n");
    assert_eq!(out.take(), b"\ntri> ".to_vec());
}

#[test]
fn enter_dispatches_help_and_prints_the_prompt_again() {
    let mut out = Recorder::new();
    let mut shell = Shell::new(&mut out);
    out.take();
    assert!(!type_keys(&mut shell, &mut out, b"help\n"));
    let expected = format!("help\n{}tri> ", HELP);
    assert_eq!(out.take(), expected.into_bytes());
}

#[test]
fn carriage_return_ends_the_line_too() {
    let mut out = Recorder::new();
    let mut shell = Shell::new(&mut out);
    out.take();
    assert!(!type_keys(&mut shell, &mut out, b"zzz\r"));
    let expected = format!("zzz\n{}tri> ", UNKNOWN);
    assert_eq!(out.take(), expected.into_bytes());
}

#[test]
fn a_bare_enter_prints_a_line_feed_and_the_prompt_only() {
    let mut out = Recorder::new();
    let mut shell = Shell::new(&mut out);
    out.take();
    assert!(!shell.handle_key(&mut out, b'\n'));
    assert_eq!(out.take(), b"\ntri> ".to_vec());
    type_keys(&mut shell, &mut out, b"history\n");
    let expected = "history\nHist\u{f3}rico de comandos:\n  1: history\ntri> ";
    assert_eq!(out.take(), expected.as_bytes().to_vec());
}

#[test]
fn backspace_removes_the_last_byte_and_erases_it() {
    let mut out = Recorder::new();
    let mut shell = Shell::new(&mut out);
    type_keys(&mut shell, &mut out, b"helpx");
    out.take();
    assert!(!shell.handle_key(&mut out, 8));
    assert_eq!(out.take(), b"\x08 \x08".to_vec());
    type_keys(&mut shell, &mut out, b"\n");
    let expected = format!("\n{}tri> ", HELP);
    assert_eq!(out.take(), expected.into_bytes());
}

#[test]
fn delete_erases_like_backspace() {
    let mut out = Recorder::new();
    let mut shell = Shell::new(&mut out);
    type_keys(&mut shell, &mut out, b"hellox");
    out.take();
    assert!(!shell.handle_key(&mut out, 0x7f));
    assert_eq!(out.take(), b"\x08 \x08".to_vec());
    type_keys(&mut shell, &mut out, b"\n");
    let expected = format!("\n{}tri> ", HELLO);
    assert_eq!(out.take(), expected.into_bytes());
}

#[test]
fn backspace_on_an_empty_line_changes_nothing() {
    let mut out = Recorder::new();
    let mut shell = Shell::new(&mut out);
    out.take();
    assert!(!shell.handle_key(&mut out, 8));
    assert!(!shell.handle_key(&mut out, 0x7f));
    assert_eq!(out.calls, 0);
    assert_eq!(out.take(), Vec::<u8>::new());
    type_keys(&mut shell, &mut out, b"a\x08\x08\x08");
    assert_eq!(out.take(), b"a\x08 \x08".to_vec());
    type_keys(&mut shell, &mut out, b"help\n");
    let expected = format!("help\n{}tri> ", HELP);
    assert_eq!(out.take(), expected.into_bytes());
}

#[test]
fn backspace_on_an_empty_line_leaves_the_cursor_where_it_is() {
    let mut display = Display::new();
    let mut shell = Shell::new(&mut display);
    assert_eq!((display.row(), display.column()), (0, 5));
    assert!(!shell.handle_key(&mut display, 8));
    assert!(!shell.handle_key(&mut display, 0x7f));
    assert_eq!((display.row(), display.column()), (0, 5));
    for (col, glyph) in b"tri> ".iter().enumerate() {
        assert_eq!(display.char_at(0, col).ascii, *glyph);
    }
    shell.handle_key(&mut display, b'x');
    assert_eq!((display.row(), display.column()), (0, 6));
    shell.handle_key(&mut display, 8);
    assert_eq!((display.row(), display.column()), (0, 5));
    assert_eq!(display.char_at(0, 5).ascii, b' ');
    shell.handle_key(&mut display, 8);
    assert_eq!((display.row(), display.column()), (0, 5));
    assert_eq!(display.char_at(0, 4).ascii, b' ');
    assert_eq!(display.char_at(0, 3).ascii, b'>');
}

#[test]
fn the_line_holds_one_byte_less_than_its_buffer() {
    let mut out = Recorder::new();
    let mut shell = Shell::new(&mut out);
    out.take();
    for _ in 0..127 {
        shell.handle_key(&mut out, b'a');
    }
    assert_eq!(out.take(), vec![b'a'; 127]);
    shell.handle_key(&mut out, b'b');
    shell.handle_key(&mut out, b'c');
    assert_eq!(out.take(), Vec::<u8>::new());
    shell.handle_key(&mut out, 8);
    assert_eq!(out.take(), b"\x08 \x08".to_vec());
    shell.handle_key(&mut out, b'd');
    assert_eq!(out.take(), b"d".to_vec());
    shell.handle_key(&mut out, b'\n');
    let expected = format!("\n{}tri> ", UNKNOWN);
    assert_eq!(out.take(), expected.into_bytes());
    shell.handle_key(&mut out, b'\n');
    out.take();
    type_keys(&mut shell, &mut out, b"history\n");
    let listing = String::from_utf8(out.take()).unwrap();
    let long: String = "a".repeat(126) + "d";
    assert_eq!(
        listing,
        format!("history\nHist\u{f3}rico de comandos:\n  1: {}\n  2: history\ntri> ", long)
    );
}

#[test]
fn every_line_that_is_not_empty_is_recorded_before_it_is_dispatched() {
    let mut out = Recorder::new();
    let mut shell = Shell::new(&mut out);
    type_keys(&mut shell, &mut out, b"one\n\n  \ntwo\n");
    out.take();
    type_keys(&mut shell, &mut out, b"history\n");
    let expected =
        "history\nHist\u{f3}rico de comandos:\n  1: one\n  2:   \n  3: two\n  4: history\ntri> ";
    assert_eq!(out.take(), expected.as_bytes().to_vec());
}

#[test]
fn the_shell_history_wraps_after_five_lines() {
    let mut out = Recorder::new();
    let mut shell = Shell::new(&mut out);
    type_keys(&mut shell, &mut out, b"c1\nc2\nc3\nc4\nc5\nc6\n");
    out.take();
    type_keys(&mut shell, &mut out, b"history\n");
    let expected = "history\nHist\u{f3}rico de comandos:\n  1: c3\n  2: c4\n  3: c5\n  4: c6\n  5: history\ntri> ";
    assert_eq!(out.take(), expected.as_bytes().to_vec());
}

#[test]
fn halt_is_terminal() {
    let mut out = Recorder::new();
    let mut shell = Shell::new(&mut out);
    out.take();
    assert!(type_keys(&mut shell, &mut out, b"halt\n"));
    assert!(shell.is_halted());
    let expected = format!("halt\n{}", HALTING);
    assert_eq!(out.take(), expected.into_bytes());
    assert!(type_keys(&mut shell, &mut out, b"help\n\x08x"));
    assert!(shell.is_halted());
    assert_eq!(out.calls, 0);
    assert_eq!(out.take(), Vec::<u8>::new());
}

#[test]
fn shell_loop_waits_on_an_empty_queue() {
    let mut out = Recorder::new();
    let mut shell = Shell::new(&mut out);
    let mut keys = RingBuffer::new();
    out.take();
    assert_eq!(shell_loop(&mut shell, &mut out, &mut keys), ShellAction::Wait);
    assert_eq!(out.take(), Vec::<u8>::new());
}

#[test]
fn shell_loop_takes_every_waiting_key_in_order() {
    let mut out = Recorder::new();
    let mut shell = Shell::new(&mut out);
    let mut keys = RingBuffer::new();
    out.take();
    for &key in b"hel" {
        keys.add(key);
    }
    assert_eq!(shell_loop(&mut shell, &mut out, &mut keys), ShellAction::Wait);
    assert_eq!(out.take(), b"hel".to_vec());
    assert_eq!(keys.get(), None);
    for &key in b"p\nzz" {
        keys.add(key);
    }
    assert_eq!(shell_loop(&mut shell, &mut out, &mut keys), ShellAction::Wait);
    let expected = format!("p\n{}tri> zz", HELP);
    assert_eq!(out.take(), expected.into_bytes());
    assert_eq!(keys.get(), None);
}

#[test]
fn shell_loop_stops_at_halt_and_leaves_the_rest_in_the_queue() {
    let mut out = Recorder::new();
    let mut shell = Shell::new(&mut out);
    let mut keys = RingBuffer::new();
    out.take();
    for &key in b"halt\nhelp\n" {
        keys.add(key);
    }
    assert_eq!(shell_loop(&mut shell, &mut out, &mut keys), ShellAction::Halt);
    let expected = format!("halt\n{}", HALTING);
    assert_eq!(out.take(), expected.into_bytes());
    assert_eq!(shell_loop(&mut shell, &mut out, &mut keys), ShellAction::Halt);
    assert_eq!(out.take(), Vec::<u8>::new());
    assert_eq!(keys.get(), Some(b'h'));
    assert_eq!(keys.get(), Some(b'e'));
}

#[test]
fn the_shell_on_the_display() {
    let mut display = Display::new();
    let mut shell = Shell::new(&mut display);
    for &key in b"hello\n" {
        shell.handle_key(&mut display, key);
    }
    let row0: Vec<u8> = (0..10).map(|c| display.char_at(0, c).ascii).collect();
    assert_eq!(row0, b"tri> hello".to_vec());
    let row1: Vec<u8> = (0..4).map(|c| display.char_at(1, c).ascii).collect();
    assert_eq!(row1, vec![b'O', b'l', 0xfe, 0xfe]);
    let row2: Vec<u8> = (0..5).map(|c| display.char_at(2, c).ascii).collect();
    assert_eq!(row2, b"tri> ".to_vec());
    assert_eq!((display.row(), display.column()), (2, 5));
}
