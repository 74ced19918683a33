//! An interactive line-editing console.
//!
//! The console consumes one byte at a time from a byte-oriented transport,
//! maintains an editable line buffer with a cursor, echoes the visible
//! effect of every edit back through the transport, and hands each completed
//! line to an optional command sink. Recognized control input: carriage
//! return submits the line, 0x7f rubs out the byte before the cursor, and
//! the escape sequences `ESC [ D`, `ESC [ C` and `ESC [ <digit> ~` move the
//! cursor left, right, and delete forward.

use vstd::prelude::*;

verus! {

/// Rub-out (backspace) input byte.
pub const DEL: u8 = 0x7f;

/// Escape.
pub const ESC: u8 = 0x1b;

/// Carriage return.
pub const CR: u8 = 0x0d;

/// Line feed.
pub const LF: u8 = 0x0a;

/// Space, used to blank a stale glyph.
pub const SP: u8 = 0x20;

/// A byte-oriented transport: one capability to read a byte without
/// blocking and one to write a byte. The ghost `sent` sequence records
/// every byte written so far; the ghost `incoming` sequence holds the bytes
/// that are available to read, in arrival order, so that contracts can
/// state exactly what a console operation emits and consumes.
pub trait BytePort {
    /// All bytes written through this port so far.
    spec fn sent(&self) -> Seq<u8>;

    /// The bytes available to read, in the order they will be handed out.
    spec fn incoming(&self) -> Seq<u8>;

    /// Writes one byte.
    fn write_byte(&mut self, b: u8)
        ensures
            final(self).sent() == old(self).sent().push(b),
            final(self).incoming() == old(self).incoming(),
    ;

    /// Reads one byte if one is available; never blocks. A byte comes back
    /// exactly when one is available, and it is the oldest one.
    fn try_read_byte(&mut self) -> (r: Option<u8>)
        ensures
            final(self).sent() == old(self).sent(),
            match r {
                Option::Some(b) => {
                    &&& old(self).incoming().len() > 0
                    &&& b == old(self).incoming()[0]
                    &&& final(self).incoming() == old(self).incoming().skip(1)
                },
                Option::None => {
                    &&& old(self).incoming().len() == 0
                    &&& final(self).incoming() == old(self).incoming()
                },
            },
    ;
}

/// A consumer of completed lines. The ghost `commands` sequence records
/// every line handed over so far, oldest first.
pub trait CommandSink {
    /// All lines accepted so far.
    spec fn commands(&self) -> Seq<Seq<u8>>;

    /// Called once per completed line, with the line's bytes.
    fn on_command(&mut self, text: &[u8])
        ensures
            final(self).commands() == old(self).commands().push(text@),
    ;
}

/// The console's input mode: a three-state machine driven by escape
/// sequences. `Esc` is entered on an escape byte, `CsiFirst` on the `[`
/// that follows it; any unrecognized byte falls back to `Normal`.
#[derive(Clone, Copy, Debug, PartialEq, Eq, Structural)]
pub enum InputMode {
    Normal,
    Esc,
    CsiFirst,
}

/// Mathematical state of a console: the full line buffer (always at its
/// fixed capacity, zero beyond the content), the insertion point, the
/// content length, the input mode, the last CSI numeric parameter, and the
/// prompt bytes.
#[verifier::ext_equal]
pub ghost struct ConsoleModel {
    pub line: Seq<u8>,
    pub cursor: int,
    pub tail: int,
    pub mode: InputMode,
    pub csi_pn: int,
    pub prompt: Seq<u8>,
}

/// Well-formedness: the cursor never leaves `[0, tail]`, the content never
/// exceeds the capacity, bytes beyond the content are zero, and the CSI
/// parameter holds a single digit.
pub open spec fn model_wf(m: ConsoleModel) -> bool {
    &&& 0 <= m.cursor <= m.tail <= m.line.len()
    &&& forall|i: int| m.tail <= i < m.line.len() ==> m.line[i] == 0
    &&& 0 <= m.csi_pn <= 9
}

/// A sequence of `len` zero bytes.
pub open spec fn zeroed(len: int) -> Seq<u8> {
    Seq::new(len as nat, |i: int| 0u8)
}

/// The four-byte escape sequence that moves the terminal cursor back one
/// cell: `ESC [ 1 D`.
pub open spec fn cursor_prev_echo() -> Seq<u8> {
    seq![0x1bu8, 0x5bu8, 0x31u8, 0x44u8]
}

/// The four-byte escape sequence that moves the terminal cursor forward one
/// cell: `ESC [ 1 C`.
pub open spec fn cursor_next_echo() -> Seq<u8> {
    seq![0x1bu8, 0x5bu8, 0x31u8, 0x43u8]
}

/// `s` repeated `k` times.
pub open spec fn repeat_echo(s: Seq<u8>, k: int) -> Seq<u8>
    decreases k,
{
    if k <= 0 {
        Seq::empty()
    } else {
        repeat_echo(s, k - 1) + s
    }
}

/// Control bytes are the ASCII range below space, plus 0x7f.
pub open spec fn is_control_byte(c: u8) -> bool {
    c < 0x20 || c == 0x7f
}

/// A UTF-8 continuation byte: the range 0x80 to 0xbf.
pub open spec fn is_utf8_continuation(b: u8) -> bool {
    0x80 <= b <= 0xbf
}

/// Whether `s` is well-formed UTF-8: a sequence of one- to four-byte
/// encodings with the standard second-byte restrictions, which rule out
/// overlong forms, surrogates, and code points beyond 0x10FFFF.
pub open spec fn is_utf8(s: Seq<u8>) -> bool
    decreases s.len(),
{
    if s.len() == 0 {
        true
    } else {
        let b0 = s[0];
        if b0 < 0x80 {
            is_utf8(s.skip(1))
        } else if 0xc2 <= b0 <= 0xdf {
            s.len() >= 2 && is_utf8_continuation(s[1]) && is_utf8(s.skip(2))
        } else if b0 == 0xe0 {
            s.len() >= 3 && 0xa0 <= s[1] <= 0xbf && is_utf8_continuation(s[2]) && is_utf8(
                s.skip(3),
            )
        } else if 0xe1 <= b0 <= 0xec || 0xee <= b0 <= 0xef {
            s.len() >= 3 && is_utf8_continuation(s[1]) && is_utf8_continuation(s[2]) && is_utf8(
                s.skip(3),
            )
        } else if b0 == 0xed {
            s.len() >= 3 && 0x80 <= s[1] <= 0x9f && is_utf8_continuation(s[2]) && is_utf8(
                s.skip(3),
            )
        } else if b0 == 0xf0 {
            s.len() >= 4 && 0x90 <= s[1] <= 0xbf && is_utf8_continuation(s[2])
                && is_utf8_continuation(s[3]) && is_utf8(s.skip(4))
        } else if 0xf1 <= b0 <= 0xf3 {
            s.len() >= 4 && is_utf8_continuation(s[1]) && is_utf8_continuation(s[2])
                && is_utf8_continuation(s[3]) && is_utf8(s.skip(4))
        } else if b0 == 0xf4 {
            s.len() >= 4 && 0x80 <= s[1] <= 0x8f && is_utf8_continuation(s[2])
                && is_utf8_continuation(s[3]) && is_utf8(s.skip(4))
        } else {
            false
        }
    }
}

/// A sequence of plain ASCII bytes is well-formed UTF-8.
pub proof fn lemma_ascii_is_utf8(s: Seq<u8>)
    requires
        forall|i: int| 0 <= i < s.len() ==> s[i] < 0x80,
    ensures
        is_utf8(s),
    decreases s.len(),
{
    if s.len() > 0 {
        lemma_ascii_is_utf8(s.skip(1));
    }
}

/// What one byte of input does to a console: the state afterwards, the
/// bytes echoed to the transport, and the completed line if the byte
/// submitted one.
pub ghost struct StepEffect {
    pub post: ConsoleModel,
    pub echo: Seq<u8>,
    pub submit: Option<Seq<u8>>,
}

/// An effect that changes nothing and emits nothing.
pub open spec fn no_effect(m: ConsoleModel) -> StepEffect {
    StepEffect { post: m, echo: Seq::empty(), submit: Option::None }
}

/// The effect of one input byte. A console whose line buffer is at capacity
/// discards every byte without any visible effect; otherwise the byte is
/// dispatched on the input mode.
pub open spec fn console_step(m: ConsoleModel, c: u8) -> StepEffect {
    if m.tail >= m.line.len() {
        no_effect(m)
    } else {
        match m.mode {
            InputMode::Normal => step_normal(m, c),
            InputMode::Esc => step_esc(m, c),
            InputMode::CsiFirst => step_csi_first(m, c),
        }
    }
}

/// Normal mode. A carriage return submits the content if it decodes as
/// text — content that is not well-formed UTF-8 is treated as absent input
/// and nothing is submitted — then echoes line feed plus carriage return,
/// clears the line and re-emits the prompt either way. A rub-out deletes
/// before the cursor. An escape byte switches modes. Every other control
/// byte is absorbed. A printable byte is inserted at the cursor.
pub open spec fn step_normal(m: ConsoleModel, c: u8) -> StepEffect {
    if is_control_byte(c) {
        if c == CR {
            StepEffect {
                post: ConsoleModel {
                    line: zeroed(m.line.len() as int),
                    cursor: 0,
                    tail: 0,
                    mode: InputMode::Normal,
                    csi_pn: m.csi_pn,
                    prompt: m.prompt,
                },
                echo: seq![LF, CR] + m.prompt,
                submit: if is_utf8(m.line.take(m.tail)) {
                    Option::Some(m.line.take(m.tail))
                } else {
                    Option::None
                },
            }
        } else if c == DEL {
            step_backspace(m)
        } else if c == ESC {
            StepEffect {
                post: ConsoleModel {
                    line: m.line,
                    cursor: m.cursor,
                    tail: m.tail,
                    mode: InputMode::Esc,
                    csi_pn: m.csi_pn,
                    prompt: m.prompt,
                },
                echo: Seq::empty(),
                submit: Option::None,
            }
        } else {
            no_effect(m)
        }
    } else {
        step_insert(m, c)
    }
}

/// Rub-out. With the cursor mid-line and not at the left edge, the bytes
/// from the cursor on shift left by one, the vacated content byte is
/// cleared, and the shifted substring is re-echoed followed by a blank and
/// enough cursor-back moves to return to the insertion point. With the
/// cursor at the end of the line, the last byte is cleared and blanked on
/// screen. An empty line, or a cursor mid-line at the left edge, absorbs
/// the byte.
pub open spec fn step_backspace(m: ConsoleModel) -> StepEffect {
    if m.tail > 0 {
        if m.cursor < m.tail {
            if m.cursor > 0 {
                StepEffect {
                    post: ConsoleModel {
                        line: m.line.take(m.cursor - 1) + m.line.subrange(m.cursor, m.tail)
                            + seq![0u8] + m.line.skip(m.tail),
                        cursor: m.cursor - 1,
                        tail: m.tail - 1,
                        mode: InputMode::Normal,
                        csi_pn: m.csi_pn,
                        prompt: m.prompt,
                    },
                    echo: cursor_prev_echo() + m.line.subrange(m.cursor, m.tail) + seq![SP]
                        + repeat_echo(cursor_prev_echo(), m.tail - m.cursor + 1),
                    submit: Option::None,
                }
            } else {
                no_effect(m)
            }
        } else {
            StepEffect {
                post: ConsoleModel {
                    line: m.line.update(m.tail - 1, 0u8),
                    cursor: m.tail - 1,
                    tail: m.tail - 1,
                    mode: InputMode::Normal,
                    csi_pn: m.csi_pn,
                    prompt: m.prompt,
                },
                echo: cursor_prev_echo() + seq![SP] + cursor_prev_echo(),
                submit: Option::None,
            }
        }
    } else {
        no_effect(m)
    }
}

/// Insertion of a printable byte. Mid-line, the bytes from the cursor on
/// shift right by one to make room, the new byte and the shifted substring
/// are echoed, and the terminal cursor moves back over the shifted part. At
/// the end of the line, the byte is stored and echoed directly.
pub open spec fn step_insert(m: ConsoleModel, c: u8) -> StepEffect {
    if m.cursor < m.tail {
        StepEffect {
            post: ConsoleModel {
                line: m.line.take(m.cursor) + seq![c] + m.line.subrange(m.cursor, m.tail)
                    + m.line.skip(m.tail + 1),
                cursor: m.cursor + 1,
                tail: m.tail + 1,
                mode: InputMode::Normal,
                csi_pn: m.csi_pn,
                prompt: m.prompt,
            },
            echo: seq![c] + m.line.subrange(m.cursor, m.tail) + repeat_echo(
                cursor_prev_echo(),
                m.tail - m.cursor,
            ),
            submit: Option::None,
        }
    } else {
        StepEffect {
            post: ConsoleModel {
                line: m.line.update(m.cursor, c),
                cursor: m.cursor + 1,
                tail: m.tail + 1,
                mode: InputMode::Normal,
                csi_pn: m.csi_pn,
                prompt: m.prompt,
            },
            echo: seq![c],
            submit: Option::None,
        }
    }
}

/// Escape mode: `[` opens a control sequence and resets the numeric
/// parameter; anything else is an unrecognized escape and returns to normal
/// mode. Nothing is echoed.
pub open spec fn step_esc(m: ConsoleModel, c: u8) -> StepEffect {
    if c == 0x5b {
        StepEffect {
            post: ConsoleModel {
                line: m.line,
                cursor: m.cursor,
                tail: m.tail,
                mode: InputMode::CsiFirst,
                csi_pn: 0,
                prompt: m.prompt,
            },
            echo: Seq::empty(),
            submit: Option::None,
        }
    } else {
        StepEffect {
            post: ConsoleModel {
                line: m.line,
                cursor: m.cursor,
                tail: m.tail,
                mode: InputMode::Normal,
                csi_pn: m.csi_pn,
                prompt: m.prompt,
            },
            echo: Seq::empty(),
            submit: Option::None,
        }
    }
}

/// Control-sequence mode. A digit is recorded as the numeric parameter
/// (one digit only; it is never consulted by the recognized actions) and
/// the mode is kept. `D` moves the cursor left, `C` moves it right, `~`
/// deletes the byte under the cursor; each returns to normal mode, as does
/// any unrecognized byte.
pub open spec fn step_csi_first(m: ConsoleModel, c: u8) -> StepEffect {
    if 0x30 <= c <= 0x39 {
        StepEffect {
            post: ConsoleModel {
                line: m.line,
                cursor: m.cursor,
                tail: m.tail,
                mode: InputMode::CsiFirst,
                csi_pn: (c - 0x30) as int,
                prompt: m.prompt,
            },
            echo: Seq::empty(),
            submit: Option::None,
        }
    } else if c == 0x44 {
        StepEffect {
            post: ConsoleModel {
                line: m.line,
                cursor: if m.cursor > 0 {
                    m.cursor - 1
                } else {
                    0
                },
                tail: m.tail,
                mode: InputMode::Normal,
                csi_pn: m.csi_pn,
                prompt: m.prompt,
            },
            echo: if m.cursor > 0 {
                cursor_prev_echo()
            } else {
                Seq::empty()
            },
            submit: Option::None,
        }
    } else if c == 0x43 {
        StepEffect {
            post: ConsoleModel {
                line: m.line,
                cursor: if m.cursor < m.tail {
                    m.cursor + 1
                } else {
                    m.cursor
                },
                tail: m.tail,
                mode: InputMode::Normal,
                csi_pn: m.csi_pn,
                prompt: m.prompt,
            },
            echo: if m.cursor < m.tail {
                cursor_next_echo()
            } else {
                Seq::empty()
            },
            submit: Option::None,
        }
    } else if c == 0x7e {
        step_forward_delete(m)
    } else {
        StepEffect {
            post: ConsoleModel {
                line: m.line,
                cursor: m.cursor,
                tail: m.tail,
                mode: InputMode::Normal,
                csi_pn: m.csi_pn,
                prompt: m.prompt,
            },
            echo: Seq::empty(),
            submit: Option::None,
        }
    }
}

/// Forward delete (`~` in a control sequence). With content under the
/// cursor, the bytes after it shift left by one, the content shrinks by
/// one, and the shifted substring is re-echoed followed by a blank and
/// enough cursor-back moves to return to the cursor cell. Otherwise nothing
/// happens but the return to normal mode.
pub open spec fn step_forward_delete(m: ConsoleModel) -> StepEffect {
    if m.cursor < m.tail {
        StepEffect {
            post: ConsoleModel {
                line: m.line.take(m.cursor) + m.line.subrange(m.cursor + 1, m.tail + 1)
                    + m.line.skip(m.tail),
                cursor: m.cursor,
                tail: m.tail - 1,
                mode: InputMode::Normal,
                csi_pn: m.csi_pn,
                prompt: m.prompt,
            },
            echo: m.line.subrange(m.cursor + 1, m.tail) + seq![SP] + repeat_echo(
                cursor_prev_echo(),
                m.tail - m.cursor,
            ),
            submit: Option::None,
        }
    } else {
        StepEffect {
            post: ConsoleModel {
                line: m.line,
                cursor: m.cursor,
                tail: m.tail,
                mode: InputMode::Normal,
                csi_pn: m.csi_pn,
                prompt: m.prompt,
            },
            echo: Seq::empty(),
            submit: Option::None,
        }
    }
}

/// The state after every byte of `cs` is consumed, in order.
pub open spec fn console_run(m: ConsoleModel, cs: Seq<u8>) -> ConsoleModel
    decreases cs.len(),
{
    if cs.len() == 0 {
        m
    } else {
        console_run(console_step(m, cs[0]).post, cs.skip(1))
    }
}

/// Every input byte leaves a well-formed console well formed, at its
/// capacity and with its prompt; in particular the insertion point never
/// leaves `[0, tail]`, whatever cursor movement the byte causes.
pub proof fn lemma_step_preserves_wf(m: ConsoleModel, c: u8)
    requires
        model_wf(m),
    ensures
        model_wf(console_step(m, c).post),
        console_step(m, c).post.line.len() == m.line.len(),
        console_step(m, c).post.prompt == m.prompt,
{
    let post = console_step(m, c).post;
    assert forall|i: int| post.tail <= i < post.line.len() implies post.line[i] == 0 by {
        assert(model_wf(m));
    }
}

/// A printable byte appended with the cursor at the end of a line with room
/// stores the byte there and moves both positions up by exactly one,
/// keeping them equal.
pub proof fn lemma_printable_append_step(m: ConsoleModel, c: u8)
    requires
        model_wf(m),
        m.mode == InputMode::Normal,
        m.cursor == m.tail,
        m.tail < m.line.len(),
        !is_control_byte(c),
    ensures
        ({
            let post = console_step(m, c).post;
            &&& model_wf(post)
            &&& post.cursor == m.cursor + 1
            &&& post.tail == m.tail + 1
            &&& post.cursor == post.tail
            &&& post.line == m.line.update(m.tail, c)
            &&& post.mode == InputMode::Normal
        }),
{
    lemma_step_preserves_wf(m, c);
}

/// A whole run of printable bytes that fits in the buffer appends byte for
/// byte: after each one the cursor and the content length coincide and have
/// grown by one, so at the end both have grown by the run's length and the
/// bytes sit where they were typed.
pub proof fn lemma_printable_run_appends(m: ConsoleModel, cs: Seq<u8>)
    requires
        model_wf(m),
        m.mode == InputMode::Normal,
        m.cursor == m.tail,
        m.tail + cs.len() <= m.line.len(),
        forall|i: int| 0 <= i < cs.len() ==> !is_control_byte(#[trigger] cs[i]),
    ensures
        ({
            let e = console_run(m, cs);
            &&& model_wf(e)
            &&& e.cursor == m.tail + cs.len()
            &&& e.tail == m.tail + cs.len()
            &&& e.cursor == e.tail
            &&& e.mode == InputMode::Normal
            &&& e.line == m.line.take(m.tail) + cs + zeroed(m.line.len() - m.tail - cs.len())
            &&& e.prompt == m.prompt
        }),
    decreases cs.len(),
{
    if cs.len() == 0 {
        assert(console_run(m, cs).line =~= m.line.take(m.tail) + cs + zeroed(
            m.line.len() - m.tail - cs.len(),
        ));
    } else {
        lemma_printable_append_step(m, cs[0]);
        let m1 = console_step(m, cs[0]).post;
        lemma_printable_run_appends(m1, cs.skip(1));
        assert(console_run(m, cs) == console_run(m1, cs.skip(1)));
        assert(console_run(m, cs).line =~= m.line.take(m.tail) + cs + zeroed(
            m.line.len() - m.tail - cs.len(),
        ));
    }
}

/// Rub-out with the cursor at the end of the line: with content present
/// both positions drop by exactly one; with an empty line nothing at all
/// happens.
pub proof fn lemma_backspace_at_line_end(m: ConsoleModel)
    requires
        model_wf(m),
        m.mode == InputMode::Normal,
        m.cursor == m.tail,
        m.tail < m.line.len(),
    ensures
        m.tail > 0 ==> {
            &&& console_step(m, DEL).post.cursor == m.cursor - 1
            &&& console_step(m, DEL).post.tail == m.tail - 1
            &&& model_wf(console_step(m, DEL).post)
        },
        m.tail == 0 ==> console_step(m, DEL) == no_effect(m),
{
    lemma_step_preserves_wf(m, DEL);
}

/// The forward-delete sequence `ESC [ ~` with content under the cursor:
/// the content shrinks by one, the insertion point stays put, and the
/// bytes after the cursor shift left by one.
pub proof fn lemma_forward_delete_sequence(m: ConsoleModel)
    requires
        model_wf(m),
        m.mode == InputMode::Normal,
        m.cursor < m.tail,
        m.tail < m.line.len(),
    ensures
        ({
            let e = console_run(m, seq![ESC, 0x5bu8, 0x7eu8]);
            &&& model_wf(e)
            &&& e.tail == m.tail - 1
            &&& e.cursor == m.cursor
            &&& e.mode == InputMode::Normal
            &&& e.line == m.line.take(m.cursor) + m.line.subrange(m.cursor + 1, m.tail + 1)
                + m.line.skip(m.tail)
        }),
{
    let s = seq![ESC, 0x5bu8, 0x7eu8];
    let m1 = console_step(m, ESC).post;
    let m2 = console_step(m1, 0x5bu8).post;
    let m3 = console_step(m2, 0x7eu8).post;
    assert(s[0] == ESC && s.skip(1) =~= seq![0x5bu8, 0x7eu8]);
    assert(seq![0x5bu8, 0x7eu8][0] == 0x5bu8 && seq![0x5bu8, 0x7eu8].skip(1) =~= seq![0x7eu8]);
    assert(seq![0x7eu8][0] == 0x7eu8 && seq![0x7eu8].skip(1) =~= Seq::<u8>::empty());
    assert(console_run(m, s) == console_run(m1, seq![0x5bu8, 0x7eu8]));
    assert(console_run(m1, seq![0x5bu8, 0x7eu8]) == console_run(m2, seq![0x7eu8]));
    assert(console_run(m2, seq![0x7eu8]) == console_run(m3, Seq::<u8>::empty()));
    assert(console_run(m, s) == m3);
    lemma_step_preserves_wf(m, ESC);
    lemma_step_preserves_wf(m1, 0x5bu8);
    lemma_step_preserves_wf(m2, 0x7eu8);
}

/// A carriage return submits exactly the current content when it decodes
/// as text, and submits nothing when it is not well-formed UTF-8; either
/// way it echoes line feed, carriage return and the prompt, and resets the
/// console: both positions to zero, every buffer byte to zero.
pub proof fn lemma_submit_resets(m: ConsoleModel)
    requires
        model_wf(m),
        m.mode == InputMode::Normal,
        m.tail < m.line.len(),
    ensures
        ({
            let eff = console_step(m, CR);
            &&& is_utf8(m.line.take(m.tail)) ==> eff.submit == Option::Some(m.line.take(m.tail))
            &&& !is_utf8(m.line.take(m.tail)) ==> eff.submit == Option::<Seq<u8>>::None
            &&& eff.post.cursor == 0
            &&& eff.post.tail == 0
            &&& eff.post.line == zeroed(m.line.len() as int)
            &&& eff.post.mode == InputMode::Normal
            &&& eff.echo == seq![LF, CR] + m.prompt
        }),
{
}

/// An interactive line-editing console over a byte transport `P`, feeding
/// completed lines to an optional command sink `S`.
pub struct Console<P: BytePort, S: CommandSink> {
    cursor_pos: usize,
    tail_pos: usize,
    input_mode: InputMode,
    csi_pn: usize,
    buffer: Vec<u8>,
    prompt: Vec<u8>,
    port: P,
    sink: Option<S>,
}

impl<P: BytePort, S: CommandSink> Console<P, S> {
    /// The mathematical state of this console.
    pub closed spec fn model(&self) -> ConsoleModel {
        ConsoleModel {
            line: self.buffer@,
            cursor: self.cursor_pos as int,
            tail: self.tail_pos as int,
            mode: self.input_mode,
            csi_pn: self.csi_pn as int,
            prompt: self.prompt@,
        }
    }

    /// The console state is well formed.
    pub open spec fn wf(&self) -> bool {
        model_wf(self.model())
    }

    /// All bytes this console has written to its transport.
    pub closed spec fn port_sent(&self) -> Seq<u8> {
        self.port.sent()
    }

    /// The bytes still waiting to be read from the transport.
    pub closed spec fn port_incoming(&self) -> Seq<u8> {
        self.port.incoming()
    }

    /// Whether a command sink is attached.
    pub closed spec fn has_sink(&self) -> bool {
        self.sink is Some
    }

    /// All lines handed to the command sink so far; empty without a sink.
    pub closed spec fn commands(&self) -> Seq<Seq<u8>> {
        match self.sink {
            Option::Some(sink) => sink.commands(),
            Option::None => Seq::empty(),
        }
    }

    /// The console moved from `pre` to `post` by consuming the byte `c`:
    /// the state follows the step function, exactly the step's echo was
    /// written to the transport, and the step's submitted line, if any and
    /// if a sink is attached, was handed over.
    pub open spec fn steps_on(pre: Self, post: Self, c: u8) -> bool {
        let eff = console_step(pre.model(), c);
        &&& post.model() == eff.post
        &&& post.port_sent() == pre.port_sent() + eff.echo
        &&& post.commands() == (match eff.submit {
            Option::Some(line) => if pre.has_sink() {
                pre.commands().push(line)
            } else {
                pre.commands()
            },
            Option::None => pre.commands(),
        })
        &&& post.has_sink() == pre.has_sink()
    }

    /// Nothing observable distinguishes `post` from `pre`.
    pub open spec fn observably_unchanged(pre: Self, post: Self) -> bool {
        &&& post.model() == pre.model()
        &&& post.port_sent() == pre.port_sent()
        &&& post.commands() == pre.commands()
        &&& post.has_sink() == pre.has_sink()
    }

    /// Builds a console with a zeroed line buffer of `capacity` bytes and
    /// immediately writes the prompt out.
    pub fn new(capacity: usize, prompt: Vec<u8>, port: P, sink: Option<S>) -> (r: Self)
        ensures
            r.wf(),
            r.model() == (ConsoleModel {
                line: zeroed(capacity as int),
                cursor: 0,
                tail: 0,
                mode: InputMode::Normal,
                csi_pn: 0,
                prompt: prompt@,
            }),
            r.port_sent() == port.sent() + prompt@,
            r.port_incoming() == port.incoming(),
            r.has_sink() == (sink is Some),
            r.commands() == (match sink {
                Option::Some(s) => s.commands(),
                Option::None => Seq::<Seq<u8>>::empty(),
            }),
    {
        let mut port = port;
        emit_slice(&mut port, prompt.as_slice());
        let buffer = zeroed_vec(capacity);
        Console {
            cursor_pos: 0,
            tail_pos: 0,
            input_mode: InputMode::Normal,
            csi_pn: 0,
            buffer,
            prompt,
            port,
            sink,
        }
    }

    /// Writes every byte of `message` through the transport; a pure
    /// pass-through with no effect on the line buffer.
    pub fn output(&mut self, message: &[u8])
        ensures
            final(self).model() == old(self).model(),
            final(self).port_sent() == old(self).port_sent() + message@,
            final(self).port_incoming() == old(self).port_incoming(),
            final(self).commands() == old(self).commands(),
            final(self).has_sink() == old(self).has_sink(),
    {
        emit_slice(&mut self.port, message);
    }

    /// The insertion point.
    pub fn cursor_pos(&self) -> (r: usize)
        ensures
            r as int == self.model().cursor,
    {
        self.cursor_pos
    }

    /// The content length.
    pub fn tail_pos(&self) -> (r: usize)
        ensures
            r as int == self.model().tail,
    {
        self.tail_pos
    }

    /// A copy of the whole line buffer, content and zero filler alike.
    pub fn buffer_contents(&self) -> (r: Vec<u8>)
        ensures
            r@ == self.model().line,
    {
        let r = copy_prefix(&self.buffer, self.buffer.len());
        proof {
            assert(r@ =~= self.model().line);
        }
        r
    }

    /// Handles one byte in escape mode.
    fn input_esc(&mut self, c: u8)
        requires
            old(self).wf(),
            old(self).model().mode == InputMode::Esc,
            old(self).model().tail < old(self).model().line.len(),
        ensures
            final(self).wf(),
            Self::steps_on(*old(self), *final(self), c),
            final(self).port_incoming() == old(self).port_incoming(),
    {
        if c == 0x5b {
            self.input_mode = InputMode::CsiFirst;
            self.csi_pn = 0;
        } else {
            self.input_mode = InputMode::Normal;
        }
        proof {
            assert(self.model() =~= console_step(old(self).model(), c).post);
            assert(self.port_sent() =~= old(self).port_sent() + console_step(
                old(self).model(),
                c,
            ).echo);
        }
    }

    /// Handles one byte in control-sequence mode.
    fn input_csi_first(&mut self, c: u8)
        requires
            old(self).wf(),
            old(self).model().mode == InputMode::CsiFirst,
            old(self).model().tail < old(self).model().line.len(),
        ensures
            final(self).wf(),
            Self::steps_on(*old(self), *final(self), c),
            final(self).port_incoming() == old(self).port_incoming(),
    {
        let ghost eff = console_step(old(self).model(), c);
        if c >= 0x30 && c <= 0x39 {
            self.csi_pn = (c - 0x30) as usize;
        } else if c == 0x44 {
            if self.cursor_pos > 0 {
                emit_cursor_prev(&mut self.port);
                self.cursor_pos = self.cursor_pos - 1;
            }
            self.input_mode = InputMode::Normal;
        } else if c == 0x43 {
            if self.cursor_pos < self.tail_pos {
                emit_cursor_next(&mut self.port);
                self.cursor_pos = self.cursor_pos + 1;
            }
            self.input_mode = InputMode::Normal;
        } else if c == 0x7e {
            if self.cursor_pos < self.tail_pos {
                delete_at_cursor(&mut self.buffer, self.cursor_pos, self.tail_pos);
                self.tail_pos = self.tail_pos - 1;
                emit_range(&mut self.port, &self.buffer, self.cursor_pos, self.tail_pos);
                self.port.write_byte(SP);
                emit_cursor_prev_times(&mut self.port, self.tail_pos - self.cursor_pos + 1);
                proof {
                    assert(self.buffer@.subrange(
                        self.cursor_pos as int,
                        self.tail_pos as int,
                    ) =~= old(self).buffer@.subrange(
                        self.cursor_pos + 1,
                        old(self).tail_pos as int,
                    ));
                    assert(self.port_sent() =~= old(self).port_sent() + eff.echo);
                }
            }
            self.input_mode = InputMode::Normal;
        } else {
            self.input_mode = InputMode::Normal;
        }
        proof {
            assert(self.model() =~= eff.post);
            assert(self.port_sent() =~= old(self).port_sent() + eff.echo);
        }
    }

    /// Handles one byte in normal mode.
    fn input_normal(&mut self, c: u8)
        requires
            old(self).wf(),
            old(self).model().mode == InputMode::Normal,
            old(self).model().tail < old(self).model().line.len(),
        ensures
            final(self).wf(),
            Self::steps_on(*old(self), *final(self), c),
            final(self).port_incoming() == old(self).port_incoming(),
    {
        let ghost eff = console_step(old(self).model(), c);
        if c < 0x20 || c == DEL {
            if c == CR {
                let content = copy_prefix(&self.buffer, self.tail_pos);
                if utf8_valid(content.as_slice()) {
                    match &mut self.sink {
                        Option::Some(sink) => sink.on_command(content.as_slice()),
                        Option::None => (),
                    }
                }
                self.port.write_byte(LF);
                self.port.write_byte(CR);
                self.cursor_pos = 0;
                self.tail_pos = 0;
                zero_fill(&mut self.buffer);
                emit_slice(&mut self.port, self.prompt.as_slice());
                proof {
                    assert(self.port_sent() =~= old(self).port_sent() + eff.echo);
                }
            } else if c == DEL {
                if self.tail_pos > 0 {
                    if self.cursor_pos < self.tail_pos {
                        if self.cursor_pos > 0 {
                            shift_left_before_cursor(
                                &mut self.buffer,
                                self.cursor_pos,
                                self.tail_pos,
                            );
                            emit_cursor_prev(&mut self.port);
                            self.cursor_pos = self.cursor_pos - 1;
                            self.tail_pos = self.tail_pos - 1;
                            emit_range(
                                &mut self.port,
                                &self.buffer,
                                self.cursor_pos,
                                self.tail_pos,
                            );
                            self.port.write_byte(SP);
                            emit_cursor_prev_times(
                                &mut self.port,
                                self.tail_pos - self.cursor_pos + 1,
                            );
                            proof {
                                assert(self.buffer@.subrange(
                                    self.cursor_pos as int,
                                    self.tail_pos as int,
                                ) =~= old(self).buffer@.subrange(
                                    old(self).cursor_pos as int,
                                    old(self).tail_pos as int,
                                ));
                                assert(self.port_sent() =~= old(self).port_sent() + eff.echo);
                            }
                        }
                    } else {
                        emit_cursor_prev(&mut self.port);
                        self.port.write_byte(SP);
                        emit_cursor_prev(&mut self.port);
                        self.buffer.set(self.tail_pos - 1, 0u8);
                        self.cursor_pos = self.tail_pos - 1;
                        self.tail_pos = self.tail_pos - 1;
                        proof {
                            assert(self.port_sent() =~= old(self).port_sent() + eff.echo);
                        }
                    }
                }
            } else if c == ESC {
                self.input_mode = InputMode::Esc;
            }
        } else {
            let cap = self.buffer.len();
            proof {
                assert(self.tail_pos < cap);
            }
            if self.cursor_pos < self.tail_pos {
                insert_at_cursor(&mut self.buffer, self.cursor_pos, self.tail_pos, c);
                emit_range(&mut self.port, &self.buffer, self.cursor_pos, self.tail_pos + 1);
                emit_cursor_prev_times(&mut self.port, self.tail_pos - self.cursor_pos);
                self.tail_pos = self.tail_pos + 1;
                self.cursor_pos = self.cursor_pos + 1;
                proof {
                    assert(self.buffer@.subrange(
                        old(self).cursor_pos as int,
                        old(self).tail_pos + 1,
                    ) =~= seq![c] + old(self).buffer@.subrange(
                        old(self).cursor_pos as int,
                        old(self).tail_pos as int,
                    ));
                    assert(self.port_sent() =~= old(self).port_sent() + eff.echo);
                }
            } else {
                self.buffer.set(self.cursor_pos, c);
                self.cursor_pos = self.cursor_pos + 1;
                self.tail_pos = self.tail_pos + 1;
                self.port.write_byte(c);
                proof {
                    assert(self.port_sent() =~= old(self).port_sent() + eff.echo);
                }
            }
        }
        proof {
            assert(self.model() =~= eff.post);
            assert(self.port_sent() =~= old(self).port_sent() + eff.echo);
        }
    }

    /// Consumes one byte: the console takes exactly one step on it, as the
    /// step function describes.
    pub fn input_byte(&mut self, c: u8)
        requires
            old(self).wf(),
        ensures
            final(self).wf(),
            Self::steps_on(*old(self), *final(self), c),
            final(self).port_incoming() == old(self).port_incoming(),
    {
        if self.tail_pos >= self.buffer.len() {
            return ;
        }
        match self.input_mode {
            InputMode::Normal => self.input_normal(c),
            InputMode::Esc => self.input_esc(c),
            InputMode::CsiFirst => self.input_csi_first(c),
        }
    }

    /// Polls the transport and consumes at most one byte. With no byte
    /// available nothing at all happens; with one available the console
    /// takes exactly one step on the oldest waiting byte, which is
    /// consumed. Meant to be called from the application's poll loop.
    pub fn input(&mut self)
        requires
            old(self).wf(),
        ensures
            final(self).wf(),
            old(self).port_incoming().len() == 0 ==> {
                &&& Self::observably_unchanged(*old(self), *final(self))
                &&& final(self).port_incoming() == old(self).port_incoming()
            },
            old(self).port_incoming().len() > 0 ==> {
                &&& Self::steps_on(*old(self), *final(self), old(self).port_incoming()[0])
                &&& final(self).port_incoming() == old(self).port_incoming().skip(1)
            },
    {
        let r = self.port.try_read_byte();
        match r {
            Option::None => (),
            Option::Some(c) => {
                self.input_byte(c);
            },
        }
    }

    /// The transport, for inspection.
    pub fn port(&self) -> (r: &P)
        ensures
            r.sent() == self.port_sent(),
            r.incoming() == self.port_incoming(),
    {
        &self.port
    }

    /// The command sink, for inspection.
    pub fn sink(&self) -> (r: &Option<S>)
        ensures
            match r {
                Option::Some(s) => self.has_sink() && s.commands() == self.commands(),
                Option::None => !self.has_sink(),
            },
    {
        &self.sink
    }
}

/// A byte transport held in memory: reading hands out a scripted sequence
/// of incoming bytes, one per call, and writing records every byte. Serves
/// as an in-process stand-in for a serial port, and as the transport in
/// tests.
pub struct MemoryPort {
    inbox: Vec<u8>,
    next: usize,
    outgoing: Vec<u8>,
}

impl MemoryPort {
    /// A port that will hand out the bytes of `incoming`, in order.
    pub fn new(incoming: Vec<u8>) -> (r: Self)
        ensures
            r.sent() == Seq::<u8>::empty(),
            r.incoming() == incoming@,
    {
        let r = MemoryPort { inbox: incoming, next: 0, outgoing: Vec::new() };
        proof {
            assert(r.incoming() =~= r.inbox@);
        }
        r
    }

    /// Every byte written to this port so far.
    pub fn sent_bytes(&self) -> (r: &Vec<u8>)
        ensures
            r@ == self.sent(),
    {
        &self.outgoing
    }

}

impl BytePort for MemoryPort {
    closed spec fn sent(&self) -> Seq<u8> {
        self.outgoing@
    }

    closed spec fn incoming(&self) -> Seq<u8> {
        if self.next <= self.inbox@.len() {
            self.inbox@.skip(self.next as int)
        } else {
            Seq::empty()
        }
    }

    fn write_byte(&mut self, b: u8) {
        self.outgoing.push(b);
    }

    fn try_read_byte(&mut self) -> (r: Option<u8>) {
        if self.next < self.inbox.len() {
            let b = self.inbox[self.next];
            self.next = self.next + 1;
            proof {
                assert(b == old(self).incoming()[0]);
                assert(self.incoming() =~= old(self).incoming().skip(1));
            }
            Option::Some(b)
        } else {
            Option::None
        }
    }
}

/// A command sink held in memory: it records every accepted line. Serves as
/// an in-process stand-in for a cross-core forwarder, and as the sink in
/// tests.
pub struct MemorySink {
    received: Vec<Vec<u8>>,
}

impl MemorySink {
    /// A sink with nothing received yet.
    pub fn new() -> (r: Self)
        ensures
            r.commands() == Seq::<Seq<u8>>::empty(),
    {
        MemorySink { received: Vec::new() }
    }

    /// How many lines have been accepted.
    pub fn command_count(&self) -> (r: usize)
        ensures
            r == self.commands().len(),
    {
        self.received.len()
    }

    /// The `i`-th accepted line, oldest first.
    pub fn command_at(&self, i: usize) -> (r: &Vec<u8>)
        requires
            i < self.commands().len(),
        ensures
            r@ == self.commands()[i as int],
    {
        &self.received[i]
    }
}

impl CommandSink for MemorySink {
    closed spec fn commands(&self) -> Seq<Seq<u8>> {
        self.received@.map_values(|v: Vec<u8>| v@)
    }

    fn on_command(&mut self, text: &[u8]) {
        let mut line: Vec<u8> = Vec::new();
        let mut i: usize = 0;
        let n = text.len();
        while i < n
            invariant
                i <= n == text@.len(),
                line@ =~= text@.take(i as int),
            decreases n - i,
        {
            line.push(text[i]);
            i = i + 1;
            proof {
                assert(line@ =~= text@.take(i as int));
            }
        }
        self.received.push(line);
        proof {
            assert(line@ =~= text@);
            assert(self.commands() =~= old(self).commands().push(text@));
        }
    }
}

/// Emits the cursor-back escape sequence.
fn emit_cursor_prev<P: BytePort>(port: &mut P)
    ensures
        final(port).sent() == old(port).sent() + cursor_prev_echo(),
        final(port).incoming() == old(port).incoming(),
{
    port.write_byte(0x1b);
    port.write_byte(0x5b);
    port.write_byte(0x31);
    port.write_byte(0x44);
    proof {
        assert(port.sent() =~= old(port).sent() + cursor_prev_echo());
    }
}

/// Emits the cursor-forward escape sequence.
fn emit_cursor_next<P: BytePort>(port: &mut P)
    ensures
        final(port).sent() == old(port).sent() + cursor_next_echo(),
        final(port).incoming() == old(port).incoming(),
{
    port.write_byte(0x1b);
    port.write_byte(0x5b);
    port.write_byte(0x31);
    port.write_byte(0x43);
    proof {
        assert(port.sent() =~= old(port).sent() + cursor_next_echo());
    }
}

/// Emits the cursor-back escape sequence `k` times.
#[verifier::loop_isolation(false)]
fn emit_cursor_prev_times<P: BytePort>(port: &mut P, k: usize)
    ensures
        final(port).sent() == old(port).sent() + repeat_echo(cursor_prev_echo(), k as int),
        final(port).incoming() == old(port).incoming(),
{
    let mut i: usize = 0;
    while i < k
        invariant
            i <= k,
            port.sent() == old(port).sent() + repeat_echo(cursor_prev_echo(), i as int),
            port.incoming() == old(port).incoming(),
        decreases k - i,
    {
        emit_cursor_prev(port);
        i = i + 1;
        proof {
            assert(port.sent() =~= old(port).sent() + repeat_echo(cursor_prev_echo(), i as int));
        }
    }
}

/// Emits the bytes of `buf` at positions `[from, to)`, in order.
#[verifier::loop_isolation(false)]
fn emit_range<P: BytePort>(port: &mut P, buf: &Vec<u8>, from: usize, to: usize)
    requires
        from <= to <= buf@.len(),
    ensures
        final(port).sent() == old(port).sent() + buf@.subrange(from as int, to as int),
        final(port).incoming() == old(port).incoming(),
{
    let mut p: usize = from;
    while p < to
        invariant
            from <= p <= to,
            port.sent() == old(port).sent() + buf@.subrange(from as int, p as int),
            port.incoming() == old(port).incoming(),
        decreases to - p,
    {
        port.write_byte(buf[p]);
        p = p + 1;
        proof {
            assert(port.sent() =~= old(port).sent() + buf@.subrange(from as int, p as int));
        }
    }
}

/// Emits every byte of `bytes`, in order.
#[verifier::loop_isolation(false)]
fn emit_slice<P: BytePort>(port: &mut P, bytes: &[u8])
    ensures
        final(port).sent() == old(port).sent() + bytes@,
        final(port).incoming() == old(port).incoming(),
{
    let mut p: usize = 0;
    let n = bytes.len();
    while p < n
        invariant
            p <= n == bytes@.len(),
            port.sent() == old(port).sent() + bytes@.take(p as int),
            port.incoming() == old(port).incoming(),
        decreases n - p,
    {
        port.write_byte(bytes[p]);
        p = p + 1;
        proof {
            assert(port.sent() =~= old(port).sent() + bytes@.take(p as int));
        }
    }
    proof {
        assert(port.sent() =~= old(port).sent() + bytes@);
    }
}

/// A vector of `len` zero bytes.
#[verifier::loop_isolation(false)]
fn zeroed_vec(len: usize) -> (v: Vec<u8>)
    ensures
        v@ == zeroed(len as int),
{
    let mut v: Vec<u8> = Vec::new();
    let mut i: usize = 0;
    while i < len
        invariant
            i <= len,
            v@ =~= zeroed(i as int),
        decreases len - i,
    {
        v.push(0u8);
        i = i + 1;
        proof {
            assert(v@ =~= zeroed(i as int));
        }
    }
    proof {
        assert(v@ =~= zeroed(len as int));
    }
    v
}

/// Overwrites every byte of `buf` with zero, keeping its length.
#[verifier::loop_isolation(false)]
fn zero_fill(buf: &mut Vec<u8>)
    ensures
        final(buf)@ == zeroed(old(buf)@.len() as int),
{
    let n = buf.len();
    let mut i: usize = 0;
    while i < n
        invariant
            i <= n == buf@.len() == old(buf)@.len(),
            forall|j: int| 0 <= j < i ==> buf@[j] == 0,
        decreases n - i,
    {
        buf.set(i, 0u8);
        i = i + 1;
    }
    proof {
        assert(buf@ =~= zeroed(old(buf)@.len() as int));
    }
}

/// Decides whether `s` is well-formed UTF-8, walking the bytes one encoded
/// sequence at a time.
#[verifier::loop_isolation(false)]
#[verifier::rlimit(30)]
pub fn utf8_valid(s: &[u8]) -> (r: bool)
    ensures
        r == is_utf8(s@),
{
    let n = s.len();
    let mut i: usize = 0;
    proof {
        assert(s@.skip(0) =~= s@);
    }
    while i < n
        invariant
            i <= n == s@.len(),
            is_utf8(s@) == is_utf8(s@.skip(i as int)),
        decreases n - i,
    {
        let b0 = s[i];
        proof {
            assert(s@.skip(i as int)[0] == s@[i as int]);
            assert(s@.skip(i as int).len() == n - i);
        }
        if b0 < 0x80 {
            proof {
                assert(s@.skip(i as int).skip(1) =~= s@.skip(i + 1));
            }
            i = i + 1;
        } else if 0xc2 <= b0 && b0 <= 0xdf {
            if n - i < 2 {
                return false;
            }
            let b1 = s[i + 1];
            proof {
                assert(s@.skip(i as int)[1] == s@[i + 1]);
            }
            if !(0x80 <= b1 && b1 <= 0xbf) {
                return false;
            }
            proof {
                assert(s@.skip(i as int).skip(2) =~= s@.skip(i + 2));
            }
            i = i + 2;
        } else if 0xe0 <= b0 && b0 <= 0xef {
            if n - i < 3 {
                return false;
            }
            let b1 = s[i + 1];
            let b2 = s[i + 2];
            proof {
                assert(s@.skip(i as int)[1] == s@[i + 1]);
                assert(s@.skip(i as int)[2] == s@[i + 2]);
            }
            let b1_ok = if b0 == 0xe0 {
                0xa0 <= b1 && b1 <= 0xbf
            } else if b0 == 0xed {
                0x80 <= b1 && b1 <= 0x9f
            } else {
                0x80 <= b1 && b1 <= 0xbf
            };
            if !b1_ok || !(0x80 <= b2 && b2 <= 0xbf) {
                return false;
            }
            proof {
                assert(s@.skip(i as int).skip(3) =~= s@.skip(i + 3));
            }
            i = i + 3;
        } else if 0xf0 <= b0 && b0 <= 0xf4 {
            if n - i < 4 {
                return false;
            }
            let b1 = s[i + 1];
            let b2 = s[i + 2];
            let b3 = s[i + 3];
            proof {
                assert(s@.skip(i as int)[1] == s@[i + 1]);
                assert(s@.skip(i as int)[2] == s@[i + 2]);
                assert(s@.skip(i as int)[3] == s@[i + 3]);
            }
            let b1_ok = if b0 == 0xf0 {
                0x90 <= b1 && b1 <= 0xbf
            } else if b0 == 0xf4 {
                0x80 <= b1 && b1 <= 0x8f
            } else {
                0x80 <= b1 && b1 <= 0xbf
            };
            if !b1_ok || !(0x80 <= b2 && b2 <= 0xbf) || !(0x80 <= b3 && b3 <= 0xbf) {
                return false;
            }
            proof {
                assert(s@.skip(i as int).skip(4) =~= s@.skip(i + 4));
            }
            i = i + 4;
        } else {
            return false;
        }
    }
    proof {
        assert(s@.skip(n as int) =~= Seq::<u8>::empty());
    }
    true
}

/// Copies the first `n` bytes of `buf` into a fresh vector.
#[verifier::loop_isolation(false)]
fn copy_prefix(buf: &Vec<u8>, n: usize) -> (r: Vec<u8>)
    requires
        n <= buf@.len(),
    ensures
        r@ == buf@.take(n as int),
{
    let mut r: Vec<u8> = Vec::new();
    let mut i: usize = 0;
    while i < n
        invariant
            i <= n,
            r@ =~= buf@.take(i as int),
        decreases n - i,
    {
        r.push(buf[i]);
        i = i + 1;
        proof {
            assert(r@ =~= buf@.take(i as int));
        }
    }
    r
}

/// Shifts the bytes at `[cursor, tail)` left by one and clears the vacated
/// byte at `tail - 1`.
#[verifier::loop_isolation(false)]
fn shift_left_before_cursor(buf: &mut Vec<u8>, cursor: usize, tail: usize)
    requires
        1 <= cursor < tail <= old(buf)@.len(),
    ensures
        final(buf)@ == old(buf)@.take(cursor - 1) + old(buf)@.subrange(cursor as int, tail as int)
            + seq![0u8] + old(buf)@.skip(tail as int),
{
    let mut p: usize = cursor;
    while p < tail
        invariant
            cursor <= p <= tail,
            buf@.len() == old(buf)@.len(),
            buf@ =~= old(buf)@.take(cursor - 1) + old(buf)@.subrange(cursor as int, p as int)
                + old(buf)@.skip(p - 1),
        decreases tail - p,
    {
        let b = buf[p];
        buf.set(p - 1, b);
        p = p + 1;
        proof {
            assert(buf@ =~= old(buf)@.take(cursor - 1) + old(buf)@.subrange(cursor as int, p as int)
                + old(buf)@.skip(p - 1));
        }
    }
    buf.set(tail - 1, 0u8);
    proof {
        assert(buf@ =~= old(buf)@.take(cursor - 1) + old(buf)@.subrange(cursor as int, tail as int)
            + seq![0u8] + old(buf)@.skip(tail as int));
    }
}

/// Shifts the bytes at `[cursor, tail)` right by one and stores `c` at
/// `cursor`.
#[verifier::loop_isolation(false)]
fn insert_at_cursor(buf: &mut Vec<u8>, cursor: usize, tail: usize, c: u8)
    requires
        cursor <= tail < old(buf)@.len(),
    ensures
        final(buf)@ == old(buf)@.take(cursor as int) + seq![c] + old(buf)@.subrange(
            cursor as int,
            tail as int,
        ) + old(buf)@.skip(tail + 1),
{
    let mut p: usize = tail;
    while p > cursor
        invariant
            cursor <= p <= tail,
            buf@.len() == old(buf)@.len(),
            buf@ =~= old(buf)@.take(p + 1) + old(buf)@.subrange(p as int, tail as int) + old(
                buf,
            )@.skip(tail + 1),
        decreases p,
    {
        let b = buf[p - 1];
        buf.set(p, b);
        p = p - 1;
        proof {
            assert(buf@ =~= old(buf)@.take(p + 1) + old(buf)@.subrange(p as int, tail as int) + old(
                buf,
            )@.skip(tail + 1));
        }
    }
    buf.set(cursor, c);
    proof {
        assert(buf@ =~= old(buf)@.take(cursor as int) + seq![c] + old(buf)@.subrange(
            cursor as int,
            tail as int,
        ) + old(buf)@.skip(tail + 1));
    }
}

/// Shifts the bytes at `(cursor, tail)` left by one, pulling the byte after
/// `tail - 1` in at the end of the shifted range.
#[verifier::loop_isolation(false)]
fn delete_at_cursor(buf: &mut Vec<u8>, cursor: usize, tail: usize)
    requires
        cursor < tail < old(buf)@.len(),
    ensures
        final(buf)@ == old(buf)@.take(cursor as int) + old(buf)@.subrange(cursor + 1, tail + 1)
            + old(buf)@.skip(tail as int),
{
    let mut p: usize = cursor;
    while p < tail
        invariant
            cursor <= p <= tail,
            buf@.len() == old(buf)@.len(),
            buf@ =~= old(buf)@.take(cursor as int) + old(buf)@.subrange(cursor + 1, p + 1) + old(
                buf,
            )@.skip(p as int),
        decreases tail - p,
    {
        let b = buf[p + 1];
        buf.set(p, b);
        p = p + 1;
        proof {
            assert(buf@ =~= old(buf)@.take(cursor as int) + old(buf)@.subrange(cursor + 1, p + 1)
                + old(buf)@.skip(p as int));
        }
    }
}

} // verus!
