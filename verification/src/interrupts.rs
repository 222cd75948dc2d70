//! Interrupt vectors, the two steps that set interrupt delivery up, and the
//! two interrupt handlers.

use crate::boot::{Boot, BootError, BootStage, BootStep};
use crate::shell::{lemma_written_push, print, string_push, strings_written, Writer};
use vstd::prelude::*;

verus! {

/// The vector of the first line of the primary controller.
pub const PIC_1_OFFSET: u8 = 32;

/// The vector of the first line of the secondary controller.
pub const PIC_2_OFFSET: u8 = 40;

/// The interrupt lines in use.
#[derive(Debug, Clone, Copy, PartialEq, Eq, Structural)]
pub enum InterruptIndex {
    Timer,
    Keyboard,
}

impl InterruptIndex {
    /// The vector of the line: the timer has the first vector of the primary
    /// controller, the keyboard the one after it.
    pub open spec fn vector(self) -> u8 {
        match self {
            InterruptIndex::Timer => PIC_1_OFFSET,
            InterruptIndex::Keyboard => (PIC_1_OFFSET + 1) as u8,
        }
    }

    /// The vector of the line.
    pub fn as_u8(self) -> (v: u8)
        ensures
            v == self.vector(),
            v >= 32,
    {
        match self {
            InterruptIndex::Timer => PIC_1_OFFSET,
            InterruptIndex::Keyboard => PIC_1_OFFSET + 1,
        }
    }

    /// The vector of the line as an index into the interrupt table.
    pub fn as_usize(self) -> (v: usize)
        ensures
            v == self.vector(),
            32 <= v < 256,
    {
        match self {
            InterruptIndex::Timer => 32,
            InterruptIndex::Keyboard => 33,
        }
    }
}

/// The vector bases that the two chained controllers are remapped to.
#[derive(Debug, Clone, Copy, PartialEq, Eq, Structural)]
pub struct PicOffsets {
    pub primary: u8,
    pub secondary: u8,
}

/// First step of bringing interrupts up: the controllers are to be remapped.
/// Accepted on a machine that has just been reset; returns the vector bases
/// for the caller to program, both above the vectors that the processor
/// reserves.
pub fn init_pics(boot: &mut Boot) -> (result: Result<PicOffsets, BootError>)
    requires
        old(boot).wf(),
    ensures
        final(boot).wf(),
        final(boot)@ == old(boot)@.after_step(BootStep::InitController),
        result is Ok <==> old(boot)@.stage == BootStage::Reset,
        result is Ok ==> result == Ok::<PicOffsets, BootError>(
            PicOffsets { primary: PIC_1_OFFSET, secondary: PIC_2_OFFSET },
        ),
        result is Err ==> *final(boot) == *old(boot) && result == Err::<PicOffsets, BootError>(
            BootError::AlreadyDone,
        ),
{
    match boot.advance(BootStep::InitController) {
        Ok(()) => Ok(PicOffsets { primary: PIC_1_OFFSET, secondary: PIC_2_OFFSET }),
        Err(e) => Err(e),
    }
}

/// Second step: the interrupt table is to be built and loaded. Accepted
/// once the controllers are remapped; returns the lines whose handlers the
/// caller has to register, the timer and the keyboard.
pub fn init_idt(boot: &mut Boot) -> (result: Result<[InterruptIndex; 2], BootError>)
    requires
        old(boot).wf(),
    ensures
        final(boot).wf(),
        final(boot)@ == old(boot)@.after_step(BootStep::LoadTable),
        result is Ok <==> old(boot)@.stage == BootStage::ControllerReady,
        result is Ok ==> result->Ok_0@ == seq![InterruptIndex::Timer, InterruptIndex::Keyboard],
        result is Err ==> *final(boot) == *old(boot),
        result == Err::<[InterruptIndex; 2], BootError>(BootError::TooEarly) <==> old(
            boot,
        )@.stage == BootStage::Reset,
        result == Err::<[InterruptIndex; 2], BootError>(BootError::AlreadyDone) <==> old(
            boot,
        )@.stage.rank() > 1,
{
    match boot.advance(BootStep::LoadTable) {
        Ok(()) => {
            let lines = [InterruptIndex::Timer, InterruptIndex::Keyboard];
            assert(lines@ =~= seq![InterruptIndex::Timer, InterruptIndex::Keyboard]);
            Ok(lines)
        },
        Err(e) => Err(e),
    }
}

/// The timer's handler: there is nothing to do but to acknowledge. Returns
/// the line that the caller has to acknowledge at the controller; refused
/// before interrupts are enabled.
pub fn timer_handler(boot: &Boot) -> (result: Result<InterruptIndex, BootError>)
    ensures
        boot@.stage == BootStage::Running ==> result == Ok::<InterruptIndex, BootError>(
            InterruptIndex::Timer,
        ),
        boot@.stage != BootStage::Running ==> result == Err::<InterruptIndex, BootError>(
            BootError::NotRunning,
        ),
{
    match boot.stage() {
        BootStage::Running => Ok(InterruptIndex::Timer),
        _ => Err(BootError::NotRunning),
    }
}

/// The character for a value below sixteen as a hexadecimal digit, in upper
/// case.
pub open spec fn hex_digit(n: int) -> char {
    if n < 10 {
        (0x30 + n) as u8 as char
    } else {
        (0x41 + n - 10) as u8 as char
    }
}

/// The two hexadecimal digits of a byte.
pub open spec fn hex_text(byte: u8) -> Seq<char> {
    seq![hex_digit(byte as int / 16), hex_digit(byte as int % 16)]
}

/// Prints a byte as two hexadecimal digits.
pub fn print_hex<W: Writer>(port: &mut W, byte: u8)
    requires
        old(port).wf(),
    ensures
        final(port).wf(),
        W::string_written(*old(port), hex_text(byte), *final(port)),
{
    let high = byte >> 4;
    let low = byte & 0xf;
    assert(high == byte / 16 && low == byte % 16) by (bit_vector)
        requires
            high == byte >> 4,
            low == byte & 0xf,
    ;
    let mut text = String::new();
    let first = if high < 10 {
        0x30 + high
    } else {
        0x41 + (high - 10)
    };
    let second = if low < 10 {
        0x30 + low
    } else {
        0x41 + (low - 10)
    };
    string_push(&mut text, first as char);
    string_push(&mut text, second as char);
    assert(text@ =~= hex_text(byte));
    print(port, text.as_str());
}

/// What the keyboard's handler reports for a scancode.
pub open spec fn scancode_report(scancode: u8) -> Seq<Seq<char>> {
    seq!["Scancode: 0x"@, hex_text(scancode), "\n"@]
}

/// The keyboard's handler, for the scancode that the caller has read from
/// the keyboard: reports the scancode on the serial sink and queues the key
/// that it stands for, if any. Returns the line that the caller has to
/// acknowledge at the controller. Before interrupts are enabled the scancode
/// is refused: nothing is reported and nothing is queued.
pub fn keyboard_handler<W: Writer>(boot: &mut Boot, serial: &mut W, scancode: u8) -> (result:
    Result<InterruptIndex, BootError>)
    requires
        old(boot).wf(),
        old(serial).wf(),
    ensures
        final(boot).wf(),
        final(serial).wf(),
        final(boot)@ == old(boot)@.after_key(scancode),
        old(boot)@.stage == BootStage::Running ==> result == Ok::<InterruptIndex, BootError>(
            InterruptIndex::Keyboard,
        ) && strings_written(*old(serial), scancode_report(scancode), *final(serial)),
        old(boot)@.stage != BootStage::Running ==> result == Err::<InterruptIndex, BootError>(
            BootError::NotRunning,
        ) && *final(boot) == *old(boot) && *final(serial) == *old(serial),
{
    match boot.stage() {
        BootStage::Running => {},
        _ => {
            return Err(BootError::NotRunning);
        },
    }
    let ghost start = *serial;
    let ghost none = Seq::<Seq<char>>::empty();
    print(serial, "Scancode: 0x");
    let ghost s1 = *serial;
    print_hex(serial, scancode);
    let ghost s2 = *serial;
    print(serial, "\n");
    proof {
        let t1 = none.push("Scancode: 0x"@);
        let t2 = t1.push(hex_text(scancode));
        lemma_written_push(start, none, start, "Scancode: 0x"@, s1);
        lemma_written_push(start, t1, s1, hex_text(scancode), s2);
        lemma_written_push(start, t2, s2, "\n"@, *serial);
        assert(t2.push("\n"@) =~= scancode_report(scancode));
    }
    let _ = boot.key_pressed(scancode);
    Ok(InterruptIndex::Keyboard)
}

} // verus!
