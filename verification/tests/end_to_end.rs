use embedded_lib::console::Console;
use embedded_lib::console::MemoryPort;
use embedded_lib::console::MemorySink;
use embedded_lib::shared_ringbuffer::LocalCriticalSection;
use embedded_lib::shared_ringbuffer::SharedRingBufferWithCS;

const ESC: u8 = 0x1b;
const CR: u8 = 0x0d;
const LF: u8 = 0x0a;

#[test]
fn edit_a_line_and_submit_it() {
    // Type "abc", move the cursor left once, insert "x", submit.
    let script = vec![b'a', b'b', b'c', ESC, b'[', b'D', b'x', CR];
    let rounds = script.len();
    let mut console: Console<MemoryPort, MemorySink> = Console::new(
        16,
        b"> ".to_vec(),
        MemoryPort::new(script),
        Some(MemorySink::new()),
    );
    for _ in 0..rounds {
        console.input();
    }

    let sink = console.sink().as_ref().unwrap();
    assert_eq!(sink.command_count(), 1);
    assert_eq!(sink.command_at(0).as_slice(), b"abxc");
    assert_eq!(console.cursor_pos(), 0);
    assert_eq!(console.tail_pos(), 0);
    assert_eq!(console.buffer_contents(), vec![0u8; 16]);

    let mut expected: Vec<u8> = Vec::new();
    expected.extend_from_slice(b"> "); // the prompt, written on construction
    expected.extend_from_slice(b"abc"); // three appended bytes, echoed directly
    expected.extend_from_slice(&[ESC, b'[', b'1', b'D']); // cursor left one cell
    expected.extend_from_slice(b"xc"); // the insertion re-echoes the tail
    expected.extend_from_slice(&[ESC, b'[', b'1', b'D']); // back over the tail
    expected.push(LF);
    expected.push(CR);
    expected.extend_from_slice(b"> "); // the prompt again
    assert_eq!(console.port().sent_bytes(), &expected);
}

#[test]
fn submitted_command_crosses_the_ring_to_the_other_side() {
    // One side edits and submits a command; the accepted line is forwarded
    // into a shared ring; the other side reads it out and displays it.
    let script = vec![b'r', b'u', b'n', CR];
    let rounds = script.len();
    let mut console: Console<MemoryPort, MemorySink> = Console::new(
        16,
        b"> ".to_vec(),
        MemoryPort::new(script),
        Some(MemorySink::new()),
    );
    for _ in 0..rounds {
        console.input();
    }

    let mut ring = SharedRingBufferWithCS::<16, 4, LocalCriticalSection>::assign(
        576,
        LocalCriticalSection::new(),
    );
    {
        let sink = console.sink().as_ref().unwrap();
        assert_eq!(sink.command_count(), 1);
        let command = sink.command_at(0).clone();
        assert!(command.len() <= 16);
        assert_eq!(ring.write(&command), Ok(()));
    }

    // The other side drains the ring and hands the text to its console for
    // display. The frame is fixed-size; trailing zeros mark the end.
    let mut frame = vec![0u8; 16];
    let n = ring.read(&mut frame).unwrap();
    assert_eq!(n, 16);
    let text: Vec<u8> = frame.iter().copied().take_while(|&b| b != 0).collect();
    assert_eq!(text, b"run".to_vec());

    let mut other: Console<MemoryPort, MemorySink> =
        Console::new(16, b"# ".to_vec(), MemoryPort::new(Vec::new()), None);
    other.output(&text);
    assert_eq!(other.port().sent_bytes().as_slice(), b"# run");
}
