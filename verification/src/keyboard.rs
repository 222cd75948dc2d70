//! Keyboard input: the scancode table and the ring buffer between the
//! interrupt handler and the shell.

use crate::serial::{serial_println, PortWrite};
use crate::shell::{strings_written, Writer};
use vstd::prelude::*;

verus! {

/// Capacity of the ring buffer in slots; one slot always stays free.
pub const BUFFER_SIZE: usize = 128;

/// Make code to ASCII, for an unshifted US layout; zero where a code has no
/// printable meaning.
pub const SC_ASCII: [u8; 128] = [
    0, 27, 49, 50, 51, 52, 53, 54, 55, 56, 57, 48, 45, 61, 8,
    9, 113, 119, 101, 114, 116, 121, 117, 105, 111, 112, 91, 93, 10, 0,
    97, 115, 100, 102, 103, 104, 106, 107, 108, 59, 39, 96, 0, 92,
    122, 120, 99, 118, 98, 110, 109, 44, 46, 47, 0, 42, 0, 32, 0,
    0, 0, 0, 0, 0, 0, 0, 0, 0, 0, 0, 0, 0, 0, 0, 0, 0, 0, 0, 0, 0, 0, 0,
    0, 0, 0, 0, 0, 0, 0, 0, 0, 0, 0, 0, 0, 0, 0, 0, 0, 0, 0, 0, 0, 0, 0,
    0, 0, 0, 0, 0, 0, 0, 0, 0, 0, 0, 0, 0, 0, 0, 0, 0, 0, 0, 0, 0, 0, 0,
];

/// The command port of the keyboard controller.
pub const KEYBOARD_COMMAND: u16 = 0x64;

/// The command that enables the keyboard's scanning.
pub const ENABLE_SCANNING: u8 = 0xae;

/// Starts the keyboard driver: reports on the serial sink and returns the
/// one command that the caller has to write to the keyboard controller.
pub fn init<W: Writer>(serial: &mut W) -> (command: PortWrite)
    requires
        old(serial).wf(),
    ensures
        final(serial).wf(),
        command == (PortWrite { port: KEYBOARD_COMMAND, value: ENABLE_SCANNING }),
        strings_written(
            *old(serial),
            seq!["Keyboard driver init: Simple map table loaded (no shift yet)"@, "\n"@],
            *final(serial),
        ),
{
    serial_println(serial, "Keyboard driver init: Simple map table loaded (no shift yet)");
    PortWrite { port: KEYBOARD_COMMAND, value: ENABLE_SCANNING }
}

/// The byte that a scancode stands for: the table entry for a make code, zero
/// for a release code (above 127).
pub open spec fn translated(scancode: u8) -> u8 {
    if scancode > 127 {
        0
    } else {
        SC_ASCII@[scancode as int]
    }
}

/// Translates a scancode; zero means that the code is dropped.
pub fn translate(scancode: u8) -> (ch: u8)
    ensures
        ch == translated(scancode),
{
    if scancode > 127 {
        return 0;
    }
    SC_ASCII[scancode as usize]
}

/// The unread bytes after an `add`: the byte joins at the end while fewer
/// than `BUFFER_SIZE - 1` are waiting, and is dropped otherwise.
pub open spec fn enqueued(q: Seq<u8>, byte: u8) -> Seq<u8> {
    if q.len() < BUFFER_SIZE - 1 {
        q.push(byte)
    } else {
        q
    }
}

/// What a `get` returns: the oldest unread byte, if there is one.
pub open spec fn front(q: Seq<u8>) -> Option<u8> {
    if q.len() > 0 {
        Some(q[0])
    } else {
        None
    }
}

/// The unread bytes after a `get`.
pub open spec fn dequeued(q: Seq<u8>) -> Seq<u8> {
    if q.len() > 0 {
        q.drop_first()
    } else {
        q
    }
}

/// The unread bytes after an `add` of each byte of `bytes` in turn.
pub open spec fn enqueued_all(q: Seq<u8>, bytes: Seq<u8>) -> Seq<u8>
    decreases bytes.len(),
{
    if bytes.len() == 0 {
        q
    } else {
        enqueued(enqueued_all(q, bytes.drop_last()), bytes.last())
    }
}

/// The results of `n` successive `get`s.
pub open spec fn got(q: Seq<u8>, n: nat) -> Seq<Option<u8>>
    decreases n,
{
    if n == 0 {
        Seq::empty()
    } else {
        seq![front(q)] + got(dequeued(q), (n - 1) as nat)
    }
}

/// The unread bytes after `n` successive `get`s.
pub open spec fn drained(q: Seq<u8>, n: nat) -> Seq<u8>
    decreases n,
{
    if n == 0 {
        q
    } else {
        drained(dequeued(q), (n - 1) as nat)
    }
}

/// A fixed-capacity byte queue for one producer and one consumer. `head` is
/// the next slot to write, `tail` the next slot to read; the queue is empty
/// when they are equal, and full when advancing `head` would make them equal.
pub struct RingBuffer {
    slots: [u8; 128],
    head: usize,
    tail: usize,
}

impl View for RingBuffer {
    type V = Seq<u8>;

    /// The unread bytes, oldest first.
    closed spec fn view(&self) -> Seq<u8> {
        Seq::new(self.unread(), |i: int| self.slots@[(self.tail + i) % 128])
    }
}

impl RingBuffer {
    /// Both indices are slot numbers.
    pub closed spec fn wf(&self) -> bool {
        self.head < BUFFER_SIZE && self.tail < BUFFER_SIZE
    }

    /// The slot that the next `add` writes.
    pub closed spec fn head(&self) -> int {
        self.head as int
    }

    /// The slot that the next `get` reads.
    pub closed spec fn tail(&self) -> int {
        self.tail as int
    }

    /// The backing storage, slot by slot.
    pub closed spec fn slots(&self) -> Seq<u8> {
        self.slots@
    }

    closed spec fn unread(&self) -> nat {
        if self.head >= self.tail {
            (self.head - self.tail) as nat
        } else {
            (self.head + 128 - self.tail) as nat
        }
    }

    /// The indices are slot numbers, at most 127 bytes are unread, the queue
    /// is empty exactly when the indices are equal, and the unread bytes sit in
    /// the slots from `tail` up to `head`, wrapping at the end of the storage.
    pub proof fn law_layout(&self)
        requires
            self.wf(),
        ensures
            0 <= self.head() < BUFFER_SIZE,
            0 <= self.tail() < BUFFER_SIZE,
            self.slots().len() == BUFFER_SIZE,
            self@.len() < BUFFER_SIZE,
            self@.len() == 0 <==> self.head() == self.tail(),
            self@.len() == (self.head() - self.tail() + 128) % 128,
            forall|i: int|
                0 <= i < self@.len() ==> #[trigger] self@[i] == self.slots()[(self.tail() + i)
                    % 128],
    {
    }

    /// An empty queue: both indices at slot 0, every slot of the storage
    /// zero.
    pub fn new() -> (buffer: RingBuffer)
        ensures
            buffer.wf(),
            buffer@ == Seq::<u8>::empty(),
            buffer.head() == 0,
            buffer.tail() == 0,
            buffer.slots() == Seq::new(BUFFER_SIZE as nat, |i: int| 0u8),
    {
        let buffer = RingBuffer { slots: [0u8;128], head: 0, tail: 0 };
        assert(buffer@ =~= Seq::<u8>::empty());
        assert(buffer.slots() =~= Seq::new(BUFFER_SIZE as nat, |i: int| 0u8));
        buffer
    }

    /// Appends a byte. A full queue drops the byte and stays as it was:
    /// storage, `head` and `tail` included.
    pub fn add(&mut self, byte: u8)
        requires
            old(self).wf(),
        ensures
            final(self).wf(),
            final(self)@ == enqueued(old(self)@, byte),
            final(self).tail() == old(self).tail(),
            old(self)@.len() == BUFFER_SIZE - 1 ==> *final(self) == *old(self),
            old(self)@.len() < BUFFER_SIZE - 1 ==> final(self).head() == (old(self).head() + 1)
                % 128 && final(self).slots() == old(self).slots().update(old(self).head(), byte),
    {
        let next_head = (self.head + 1) % BUFFER_SIZE;
        if next_head != self.tail {
            self.slots[self.head] = byte;
            self.head = next_head;
            proof {
                let before = old(self)@;
                let after = self@;
                assert(after.len() == before.len() + 1);
                assert forall|i: int| 0 <= i < after.len() implies after[i] == before.push(
                    byte,
                )[i] by {
                    let slot = (self.tail + i) % 128;
                    if i < before.len() {
                        assert(slot != old(self).head);
                    } else {
                        assert(slot == old(self).head);
                    }
                }
                assert(after =~= before.push(byte));
            }
        }
    }

    /// Takes the oldest unread byte; `None` where the queue is empty, which
    /// then stays as it was. The storage is never written.
    pub fn get(&mut self) -> (byte: Option<u8>)
        requires
            old(self).wf(),
        ensures
            final(self).wf(),
            byte == front(old(self)@),
            final(self)@ == dequeued(old(self)@),
            final(self).head() == old(self).head(),
            final(self).slots() == old(self).slots(),
            byte is None ==> *final(self) == *old(self),
            byte is Some ==> final(self).tail() == (old(self).tail() + 1) % 128,
    {
        let tail = self.tail;
        if tail == self.head {
            None
        } else {
            let c = self.slots[tail];
            self.tail = (tail + 1) % BUFFER_SIZE;
            proof {
                let before = old(self)@;
                let after = self@;
                assert(before.len() > 0);
                assert(after.len() == before.len() - 1);
                assert(c == before[0]);
                assert forall|i: int| 0 <= i < after.len() implies after[i] == before.drop_first()[i] by {
                    assert((self.tail + i) % 128 == (tail + (i + 1)) % 128);
                    assert(before.drop_first()[i] == before[i + 1]);
                }
                assert(after =~= before.drop_first());
            }
            Some(c)
        }
    }
}

/// Handles one scancode from the keyboard: a code that translates to a
/// non-zero byte is appended to the queue, any other code is dropped. A full
/// queue drops the byte too. A byte that is appended goes to the slot at
/// `head`, and `head` moves on by one; `tail` and the other slots stay.
pub fn add_scancode(buffer: &mut RingBuffer, scancode: u8)
    requires
        old(buffer).wf(),
    ensures
        final(buffer).wf(),
        translated(scancode) == 0 ==> *final(buffer) == *old(buffer),
        translated(scancode) != 0 ==> final(buffer)@ == enqueued(
            old(buffer)@,
            translated(scancode),
        ),
        old(buffer)@.len() == BUFFER_SIZE - 1 ==> *final(buffer) == *old(buffer),
        final(buffer).tail() == old(buffer).tail(),
        translated(scancode) != 0 && old(buffer)@.len() < BUFFER_SIZE - 1
            ==> final(buffer).head() == (old(buffer).head() + 1) % 128,
        translated(scancode) != 0 && old(buffer)@.len() < BUFFER_SIZE - 1
            ==> final(buffer).slots()
            == old(buffer).slots().update(old(buffer).head(), translated(scancode)),
{
    let ch = translate(scancode);
    if ch > 0 {
        buffer.add(ch);
    }
}

/// Takes the oldest unread key, if there is one: `tail` moves on by one,
/// `head` and the storage stay.
pub fn get_key(buffer: &mut RingBuffer) -> (key: Option<u8>)
    requires
        old(buffer).wf(),
    ensures
        final(buffer).wf(),
        key == front(old(buffer)@),
        final(buffer)@ == dequeued(old(buffer)@),
        key is None ==> *final(buffer) == *old(buffer),
        final(buffer).head() == old(buffer).head(),
        final(buffer).slots() == old(buffer).slots(),
        key is Some ==> final(buffer).tail() == (old(buffer).tail() + 1) % 128,
{
    buffer.get()
}

/// Bytes that are added while there is room join the queue in order.
pub proof fn lemma_enqueued_all(q: Seq<u8>, bytes: Seq<u8>)
    requires
        q.len() + bytes.len() < BUFFER_SIZE,
    ensures
        enqueued_all(q, bytes) == q + bytes,
    decreases bytes.len(),
{
    if bytes.len() > 0 {
        lemma_enqueued_all(q, bytes.drop_last());
        assert((q + bytes.drop_last()).push(bytes.last()) =~= q + bytes);
    } else {
        assert(q + bytes =~= q);
    }
}

/// `n` gets on a queue that holds at least `n` bytes return its first `n`
/// bytes in order and leave the rest.
pub proof fn lemma_got(q: Seq<u8>, n: nat)
    requires
        n <= q.len(),
    ensures
        got(q, n).len() == n,
        forall|i: int| 0 <= i < n ==> #[trigger] got(q, n)[i] == Some(q[i]),
        drained(q, n) == q.skip(n as int),
    decreases n,
{
    if n > 0 {
        lemma_got(q.drop_first(), (n - 1) as nat);
        assert(q.drop_first().skip(n - 1) =~= q.skip(n as int));
        assert forall|i: int| 0 <= i < n implies #[trigger] got(q, n)[i] == Some(q[i]) by {
            if i > 0 {
                assert(got(q, n)[i] == got(q.drop_first(), (n - 1) as nat)[i - 1]);
            }
        }
    } else {
        assert(q.skip(0) =~= q);
    }
}

/// First in, first out: fewer than `BUFFER_SIZE` bytes added to an empty
/// queue and then taken out again come out in the order in which they went
/// in, none missing, and leave the queue empty.
pub proof fn law_fifo(bytes: Seq<u8>)
    requires
        bytes.len() < BUFFER_SIZE,
    ensures
        got(enqueued_all(Seq::empty(), bytes), bytes.len()).len() == bytes.len(),
        forall|i: int|
            0 <= i < bytes.len() ==> #[trigger] got(
                enqueued_all(Seq::empty(), bytes),
                bytes.len(),
            )[i] == Some(bytes[i]),
        drained(enqueued_all(Seq::empty(), bytes), bytes.len()) == Seq::<u8>::empty(),
{
    lemma_enqueued_all(Seq::empty(), bytes);
    assert(Seq::<u8>::empty() + bytes =~= bytes);
    lemma_got(bytes, bytes.len());
    assert(bytes.skip(bytes.len() as int) =~= Seq::<u8>::empty());
}

/// Drop on full: an `add` to a queue that holds `BUFFER_SIZE - 1` unread
/// bytes changes nothing, whatever the byte.
pub proof fn law_drop_on_full(q: Seq<u8>, byte: u8)
    requires
        q.len() == BUFFER_SIZE - 1,
    ensures
        enqueued(q, byte) == q,
{
}

} // verus!
