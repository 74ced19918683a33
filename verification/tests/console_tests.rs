use embedded_lib::console::Console;
use embedded_lib::console::MemoryPort;
use embedded_lib::console::MemorySink;

const ESC: u8 = 0x1b;
const CR: u8 = 0x0d;
const LF: u8 = 0x0a;
const DEL: u8 = 0x7f;

fn fresh_console(capacity: usize, prompt: &[u8]) -> Console<MemoryPort, MemorySink> {
    Console::new(
        capacity,
        prompt.to_vec(),
        MemoryPort::new(Vec::new()),
        Some(MemorySink::new()),
    )
}

fn feed(console: &mut Console<MemoryPort, MemorySink>, bytes: &[u8]) {
    for &b in bytes {
        console.input_byte(b);
    }
}

#[test]
fn printable_append_advances_both_positions() {
    let mut console = fresh_console(8, b"");
    let input = b"abc";
    for (i, &b) in input.iter().enumerate() {
        console.input_byte(b);
        assert_eq!(console.cursor_pos(), i + 1);
        assert_eq!(console.tail_pos(), i + 1);
    }
    assert_eq!(console.buffer_contents(), b"abc\0\0\0\0\0".to_vec());
}

#[test]
fn printable_append_echoes_each_byte() {
    let mut console = fresh_console(8, b"$ ");
    feed(&mut console, b"hi");
    assert_eq!(console.port().sent_bytes().as_slice(), b"$ hi");
}

#[test]
fn backspace_at_end_decrements_both_positions() {
    let mut console = fresh_console(8, b"");
    feed(&mut console, b"ab");
    console.input_byte(DEL);
    assert_eq!(console.cursor_pos(), 1);
    assert_eq!(console.tail_pos(), 1);
    assert_eq!(console.buffer_contents(), b"a\0\0\0\0\0\0\0".to_vec());
    console.input_byte(DEL);
    assert_eq!(console.cursor_pos(), 0);
    assert_eq!(console.tail_pos(), 0);
}

#[test]
fn backspace_on_empty_line_is_a_no_op() {
    let mut console = fresh_console(8, b"");
    console.input_byte(DEL);
    assert_eq!(console.cursor_pos(), 0);
    assert_eq!(console.tail_pos(), 0);
    assert_eq!(console.port().sent_bytes().len(), 0);
}

#[test]
fn backspace_mid_line_shifts_content_left() {
    let mut console = fresh_console(8, b"");
    feed(&mut console, b"abc");
    feed(&mut console, &[ESC, b'[', b'D']); // cursor between 'b' and 'c'
    console.input_byte(DEL); // rubs out 'b'
    assert_eq!(console.cursor_pos(), 1);
    assert_eq!(console.tail_pos(), 2);
    assert_eq!(console.buffer_contents(), b"ac\0\0\0\0\0\0".to_vec());
}

#[test]
fn backspace_mid_line_at_left_edge_is_a_no_op() {
    let mut console = fresh_console(8, b"");
    feed(&mut console, b"ab");
    feed(&mut console, &[ESC, b'[', b'D', ESC, b'[', b'D']); // cursor to 0
    console.input_byte(DEL);
    assert_eq!(console.cursor_pos(), 0);
    assert_eq!(console.tail_pos(), 2);
    assert_eq!(console.buffer_contents(), b"ab\0\0\0\0\0\0".to_vec());
}

#[test]
fn forward_delete_removes_byte_under_cursor() {
    let mut console = fresh_console(8, b"");
    feed(&mut console, b"abc");
    feed(&mut console, &[ESC, b'[', b'D', ESC, b'[', b'D']); // cursor to 1
    feed(&mut console, &[ESC, b'[', b'~']); // delete 'b'
    assert_eq!(console.cursor_pos(), 1);
    assert_eq!(console.tail_pos(), 2);
    assert_eq!(console.buffer_contents(), b"ac\0\0\0\0\0\0".to_vec());
}

#[test]
fn forward_delete_with_digit_parameter() {
    let mut console = fresh_console(8, b"");
    feed(&mut console, b"xy");
    feed(&mut console, &[ESC, b'[', b'D', ESC, b'[', b'D']); // cursor to 0
    feed(&mut console, &[ESC, b'[', b'3', b'~']); // delete 'x'
    assert_eq!(console.cursor_pos(), 0);
    assert_eq!(console.tail_pos(), 1);
    assert_eq!(console.buffer_contents(), b"y\0\0\0\0\0\0\0".to_vec());
}

#[test]
fn forward_delete_at_end_only_resets_mode() {
    let mut console = fresh_console(8, b"");
    feed(&mut console, b"ab");
    feed(&mut console, &[ESC, b'[', b'~']);
    assert_eq!(console.cursor_pos(), 2);
    assert_eq!(console.tail_pos(), 2);
    assert_eq!(console.buffer_contents(), b"ab\0\0\0\0\0\0".to_vec());
}

#[test]
fn cursor_left_stops_at_zero() {
    let mut console = fresh_console(8, b"");
    feed(&mut console, b"a");
    feed(&mut console, &[ESC, b'[', b'D']);
    assert_eq!(console.cursor_pos(), 0);
    feed(&mut console, &[ESC, b'[', b'D']); // already at 0: no move
    assert_eq!(console.cursor_pos(), 0);
    assert_eq!(console.tail_pos(), 1);
}

#[test]
fn cursor_right_stops_at_tail() {
    let mut console = fresh_console(8, b"");
    feed(&mut console, b"ab");
    feed(&mut console, &[ESC, b'[', b'D']);
    assert_eq!(console.cursor_pos(), 1);
    feed(&mut console, &[ESC, b'[', b'C']);
    assert_eq!(console.cursor_pos(), 2);
    feed(&mut console, &[ESC, b'[', b'C']); // already at tail: no move
    assert_eq!(console.cursor_pos(), 2);
    assert_eq!(console.tail_pos(), 2);
}

#[test]
fn cursor_moves_echo_escape_sequences() {
    let mut console = fresh_console(8, b"");
    feed(&mut console, b"ab");
    feed(&mut console, &[ESC, b'[', b'D']);
    feed(&mut console, &[ESC, b'[', b'C']);
    let mut expected = b"ab".to_vec();
    expected.extend_from_slice(&[ESC, b'[', b'1', b'D']);
    expected.extend_from_slice(&[ESC, b'[', b'1', b'C']);
    assert_eq!(console.port().sent_bytes(), &expected);
}

#[test]
fn submit_hands_content_to_sink_once_and_resets() {
    let mut console = fresh_console(8, b"> ");
    feed(&mut console, b"abc");
    console.input_byte(CR);
    let sink = console.sink().as_ref().unwrap();
    assert_eq!(sink.command_count(), 1);
    assert_eq!(sink.command_at(0).as_slice(), b"abc");
    assert_eq!(console.cursor_pos(), 0);
    assert_eq!(console.tail_pos(), 0);
    assert_eq!(console.buffer_contents(), vec![0u8; 8]);
}

#[test]
fn submit_echoes_line_feed_carriage_return_and_prompt() {
    let mut console = fresh_console(8, b"> ");
    feed(&mut console, b"ok");
    console.input_byte(CR);
    let mut expected = b"> ok".to_vec();
    expected.push(LF);
    expected.push(CR);
    expected.extend_from_slice(b"> ");
    assert_eq!(console.port().sent_bytes(), &expected);
}

#[test]
fn submit_of_multibyte_text_reaches_the_sink() {
    let mut console = fresh_console(8, b"> ");
    feed(&mut console, &[0xc3, 0xa9]); // a two-byte encoded character
    console.input_byte(CR);
    let sink = console.sink().as_ref().unwrap();
    assert_eq!(sink.command_count(), 1);
    assert_eq!(sink.command_at(0).as_slice(), &[0xc3, 0xa9]);
}

#[test]
fn submit_of_non_decodable_content_skips_the_sink_but_still_resets() {
    let mut console = fresh_console(8, b"> ");
    feed(&mut console, &[b'a', 0xff]); // 0xff can never appear in UTF-8
    console.input_byte(CR);
    let sink = console.sink().as_ref().unwrap();
    assert_eq!(sink.command_count(), 0);
    assert_eq!(console.cursor_pos(), 0);
    assert_eq!(console.tail_pos(), 0);
    assert_eq!(console.buffer_contents(), vec![0u8; 8]);
    let mut expected = b"> a".to_vec();
    expected.push(0xff); // the byte was echoed when typed
    expected.push(LF);
    expected.push(CR);
    expected.extend_from_slice(b"> ");
    assert_eq!(console.port().sent_bytes(), &expected);
}

#[test]
fn utf8_validation_accepts_well_formed_sequences() {
    assert!(embedded_lib::console::utf8_valid(b""));
    assert!(embedded_lib::console::utf8_valid(b"plain ascii"));
    assert!(embedded_lib::console::utf8_valid(&[0xc3, 0xa9])); // U+00E9
    assert!(embedded_lib::console::utf8_valid(&[0xe2, 0x82, 0xac])); // U+20AC
    assert!(embedded_lib::console::utf8_valid(&[0xf0, 0x9f, 0x99, 0x82])); // U+1F642
    assert!(embedded_lib::console::utf8_valid(&[0xed, 0x9f, 0xbf])); // U+D7FF
    assert!(embedded_lib::console::utf8_valid(&[0xf4, 0x8f, 0xbf, 0xbf])); // U+10FFFF
}

#[test]
fn utf8_validation_rejects_malformed_sequences() {
    assert!(!embedded_lib::console::utf8_valid(&[0xff]));
    assert!(!embedded_lib::console::utf8_valid(&[0x80])); // lone continuation
    assert!(!embedded_lib::console::utf8_valid(&[0xc3])); // truncated
    assert!(!embedded_lib::console::utf8_valid(&[0xc0, 0xaf])); // overlong
    assert!(!embedded_lib::console::utf8_valid(&[0xe0, 0x9f, 0xbf])); // overlong
    assert!(!embedded_lib::console::utf8_valid(&[0xed, 0xa0, 0x80])); // surrogate
    assert!(!embedded_lib::console::utf8_valid(&[0xf4, 0x90, 0x80, 0x80])); // beyond U+10FFFF
    assert!(!embedded_lib::console::utf8_valid(&[0xc3, 0x29])); // bad continuation
}

#[test]
fn submit_without_sink_still_resets() {
    let mut console: Console<MemoryPort, MemorySink> =
        Console::new(8, b"# ".to_vec(), MemoryPort::new(Vec::new()), None);
    feed(&mut console, b"abc");
    console.input_byte(CR);
    assert_eq!(console.cursor_pos(), 0);
    assert_eq!(console.tail_pos(), 0);
    assert_eq!(console.buffer_contents(), vec![0u8; 8]);
}

#[test]
fn empty_line_submit_hands_over_empty_command() {
    let mut console = fresh_console(8, b"");
    console.input_byte(CR);
    let sink = console.sink().as_ref().unwrap();
    assert_eq!(sink.command_count(), 1);
    assert_eq!(sink.command_at(0).len(), 0);
}

#[test]
fn insert_mid_line_shifts_and_echoes() {
    let mut console = fresh_console(8, b"");
    feed(&mut console, b"ac");
    feed(&mut console, &[ESC, b'[', b'D']); // cursor before 'c'
    console.input_byte(b'b');
    assert_eq!(console.cursor_pos(), 2);
    assert_eq!(console.tail_pos(), 3);
    assert_eq!(console.buffer_contents(), b"abc\0\0\0\0\0".to_vec());
    let mut expected = b"ac".to_vec();
    expected.extend_from_slice(&[ESC, b'[', b'1', b'D']);
    expected.extend_from_slice(b"bc");
    expected.extend_from_slice(&[ESC, b'[', b'1', b'D']);
    assert_eq!(console.port().sent_bytes(), &expected);
}

#[test]
fn insert_at_left_edge_shifts_whole_content() {
    let mut console = fresh_console(8, b"");
    feed(&mut console, b"bc");
    feed(&mut console, &[ESC, b'[', b'D', ESC, b'[', b'D']); // cursor to 0
    console.input_byte(b'a');
    assert_eq!(console.cursor_pos(), 1);
    assert_eq!(console.tail_pos(), 3);
    assert_eq!(console.buffer_contents(), b"abc\0\0\0\0\0".to_vec());
}

#[test]
fn at_capacity_every_byte_is_discarded() {
    let mut console = fresh_console(2, b"");
    feed(&mut console, b"abc");
    assert_eq!(console.tail_pos(), 2);
    assert_eq!(console.buffer_contents(), b"ab".to_vec());
    console.input_byte(CR); // discarded too: the buffer is at capacity
    let sink = console.sink().as_ref().unwrap();
    assert_eq!(sink.command_count(), 0);
}

#[test]
fn other_control_bytes_are_absorbed() {
    let mut console = fresh_console(8, b"");
    console.input_byte(0x07); // bell
    console.input_byte(0x09); // tab
    assert_eq!(console.tail_pos(), 0);
    assert_eq!(console.port().sent_bytes().len(), 0);
}

#[test]
fn unrecognized_escape_returns_to_normal_mode() {
    let mut console = fresh_console(8, b"");
    console.input_byte(ESC);
    console.input_byte(b'x'); // not '[': absorbed, back to normal
    assert_eq!(console.tail_pos(), 0);
    console.input_byte(b'y'); // normal again: appended
    assert_eq!(console.tail_pos(), 1);
    assert_eq!(console.buffer_contents(), b"y\0\0\0\0\0\0\0".to_vec());
}

#[test]
fn unrecognized_csi_byte_returns_to_normal_mode() {
    let mut console = fresh_console(8, b"");
    feed(&mut console, &[ESC, b'[', b'Z']);
    console.input_byte(b'q');
    assert_eq!(console.tail_pos(), 1);
    assert_eq!(console.buffer_contents(), b"q\0\0\0\0\0\0\0".to_vec());
}

#[test]
fn output_passes_bytes_through_untouched() {
    let mut console = fresh_console(8, b"");
    feed(&mut console, b"a");
    console.output(b"hello");
    assert_eq!(console.port().sent_bytes().as_slice(), b"ahello");
    assert_eq!(console.tail_pos(), 1);
    assert_eq!(console.buffer_contents(), b"a\0\0\0\0\0\0\0".to_vec());
}

#[test]
fn input_polls_one_byte_per_call() {
    let mut console: Console<MemoryPort, MemorySink> = Console::new(
        8,
        Vec::new(),
        MemoryPort::new(b"ab".to_vec()),
        Some(MemorySink::new()),
    );
    console.input();
    assert_eq!(console.tail_pos(), 1);
    console.input();
    assert_eq!(console.tail_pos(), 2);
    console.input(); // nothing left to read
    assert_eq!(console.tail_pos(), 2);
    assert_eq!(console.buffer_contents(), b"ab\0\0\0\0\0\0".to_vec());
}
