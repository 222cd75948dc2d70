//! The order in which the machine is brought up, and the rule that no key
//! reaches the shell before interrupts are enabled.

use crate::keyboard::{add_scancode, dequeued, enqueued, front, get_key, translated, RingBuffer};
use crate::shell::{
    consumed, decimal, lemma_written_push, print, run_output, run_state, shell_loop,
    strings_written, u32_to_str, Shell, ShellAction, Writer,
};
use crate::tri_compress::{
    block_of, compress, decoded, decompress, encoded, fit, ratio, ratio_of, zero_free_prefix,
    zero_position,
};
use vstd::prelude::*;
use vstd::string::StringSliceAdditionalSpecFns;

verus! {

/// How far the machine has been brought up.
#[derive(Debug, Clone, Copy, PartialEq, Eq, Structural)]
pub enum BootStage {
    /// Nothing has been set up.
    Reset,
    /// The interrupt controllers have been remapped.
    ControllerReady,
    /// The interrupt table has been loaded.
    TableLoaded,
    /// Every driver that may receive an interrupt is ready for one.
    DriversReady,
    /// Interrupts are enabled.
    Running,
}

/// A step of bringing the machine up.
#[derive(Debug, Clone, Copy, PartialEq, Eq, Structural)]
pub enum BootStep {
    /// Remap the interrupt controllers.
    InitController,
    /// Load the interrupt table.
    LoadTable,
    /// Start the drivers.
    StartDrivers,
    /// Enable interrupts.
    EnableInterrupts,
}

/// Why a step or an interrupt was refused.
#[derive(Debug, Clone, Copy, PartialEq, Eq, Structural)]
pub enum BootError {
    /// An earlier step has not been taken yet.
    TooEarly,
    /// The step has been taken already.
    AlreadyDone,
    /// Interrupts are not enabled.
    NotRunning,
}

impl BootStage {
    /// The position of the stage in the order of the stages.
    pub open spec fn rank(self) -> int {
        match self {
            BootStage::Reset => 0,
            BootStage::ControllerReady => 1,
            BootStage::TableLoaded => 2,
            BootStage::DriversReady => 3,
            BootStage::Running => 4,
        }
    }
}

impl BootStep {
    /// The stage in which the step is due.
    pub open spec fn due(self) -> BootStage {
        match self {
            BootStep::InitController => BootStage::Reset,
            BootStep::LoadTable => BootStage::ControllerReady,
            BootStep::StartDrivers => BootStage::TableLoaded,
            BootStep::EnableInterrupts => BootStage::DriversReady,
        }
    }

    /// The stage that the step leads to.
    pub open spec fn leads_to(self) -> BootStage {
        match self {
            BootStep::InitController => BootStage::ControllerReady,
            BootStep::LoadTable => BootStage::TableLoaded,
            BootStep::StartDrivers => BootStage::DriversReady,
            BootStep::EnableInterrupts => BootStage::Running,
        }
    }
}

/// The state of the machine as a value: the stage and the keys that wait for
/// the shell, oldest first.
pub struct BootState {
    pub stage: BootStage,
    pub keys: Seq<u8>,
}

/// Something that happens to the machine.
pub enum BootEvent {
    /// A step of bringing it up is attempted.
    Step(BootStep),
    /// The keyboard raises an interrupt with a scancode.
    Key(u8),
    /// The shell asks for a key.
    Poll,
}

impl BootState {
    /// The state of a machine that has just been reset.
    pub open spec fn initial() -> BootState {
        BootState { stage: BootStage::Reset, keys: Seq::empty() }
    }

    /// Whether a step is accepted: it is the one that is due.
    pub open spec fn admits(self, step: BootStep) -> bool {
        self.stage == step.due()
    }

    /// The state after a step: the next stage where the step is due,
    /// otherwise no change.
    pub open spec fn after_step(self, step: BootStep) -> BootState {
        if self.admits(step) {
            BootState { stage: step.leads_to(), ..self }
        } else {
            self
        }
    }

    /// The state after a keyboard interrupt: once interrupts are enabled a
    /// scancode that translates to a byte joins the queue if there is room;
    /// before that nothing changes.
    pub open spec fn after_key(self, scancode: u8) -> BootState {
        if self.stage == BootStage::Running && translated(scancode) != 0 {
            BootState { keys: enqueued(self.keys, translated(scancode)), ..self }
        } else {
            self
        }
    }

    /// The state after the shell took a key.
    pub open spec fn after_poll(self) -> BootState {
        BootState { keys: dequeued(self.keys), ..self }
    }

    /// The state after an event.
    pub open spec fn after(self, event: BootEvent) -> BootState {
        match event {
            BootEvent::Step(step) => self.after_step(step),
            BootEvent::Key(scancode) => self.after_key(scancode),
            BootEvent::Poll => self.after_poll(),
        }
    }

    /// The state after each event of `events` in turn.
    pub open spec fn after_all(self, events: Seq<BootEvent>) -> BootState
        decreases events.len(),
    {
        if events.len() == 0 {
            self
        } else {
            self.after_all(events.drop_last()).after(events.last())
        }
    }

    /// No key waits for the shell unless interrupts are enabled.
    pub open spec fn inv(self) -> bool {
        self.stage != BootStage::Running ==> self.keys.len() == 0
    }
}

/// Whatever happens to a machine after its reset, in whatever order, no key
/// is there for the shell to take before interrupts have been enabled, and
/// they are enabled only after the controllers, the table and the drivers
/// have been set up in this order.
pub proof fn law_no_key_before_running(events: Seq<BootEvent>)
    ensures
        BootState::initial().after_all(events).inv(),
        BootState::initial().after_all(events).stage != BootStage::Running ==> front(
            BootState::initial().after_all(events).keys,
        ) is None,
    decreases events.len(),
{
    if events.len() > 0 {
        law_no_key_before_running(events.drop_last());
    }
}

/// A stage is reached only through all the stages before it: each accepted
/// step moves the machine up by exactly one stage, and nothing moves it down.
pub proof fn law_stages_in_order(state: BootState, event: BootEvent)
    ensures
        state.after(event).stage.rank() == state.stage.rank() || state.after(event).stage.rank()
            == state.stage.rank() + 1,
        state.after(event).stage.rank() == state.stage.rank() + 1 ==> exists|step: BootStep|
            event == BootEvent::Step(step) && state.stage == step.due(),
{
    match event {
        BootEvent::Step(step) => {
            if state.admits(step) {
                assert(event == BootEvent::Step(step) && state.stage == step.due());
            }
        },
        BootEvent::Key(scancode) => {},
        BootEvent::Poll => {},
    }
}

/// The machine while it is brought up and while it runs: the stage and the
/// keyboard queue.
pub struct Boot {
    stage: BootStage,
    keys: RingBuffer,
}

impl View for Boot {
    type V = BootState;

    closed spec fn view(&self) -> BootState {
        BootState { stage: self.stage, keys: self.keys@ }
    }
}

impl Boot {
    /// The queue is in order, and it is empty unless interrupts are enabled.
    pub closed spec fn wf(&self) -> bool {
        self.keys.wf() && self@.inv()
    }

    /// A machine that is well formed keeps the rule of `BootState::inv`.
    pub proof fn law_no_key_unless_running(&self)
        requires
            self.wf(),
        ensures
            self@.inv(),
    {
    }

    /// A machine that has just been reset.
    pub fn new() -> (boot: Boot)
        ensures
            boot.wf(),
            boot@ == BootState::initial(),
    {
        Boot { stage: BootStage::Reset, keys: RingBuffer::new() }
    }

    /// The stage that the machine is in.
    pub fn stage(&self) -> (stage: BootStage)
        ensures
            stage == self@.stage,
    {
        self.stage
    }

    /// Attempts a step. It is accepted where it is the step that is due;
    /// otherwise nothing changes, and the error says whether the step comes
    /// too early or was taken before.
    pub fn advance(&mut self, step: BootStep) -> (result: Result<(), BootError>)
        requires
            old(self).wf(),
        ensures
            final(self).wf(),
            final(self)@ == old(self)@.after_step(step),
            result is Ok <==> old(self)@.admits(step),
            result is Err ==> *final(self) == *old(self),
            result == Err::<(), BootError>(BootError::TooEarly) <==> old(self)@.stage.rank()
                < step.due().rank(),
            result == Err::<(), BootError>(BootError::AlreadyDone) <==> old(self)@.stage.rank()
                > step.due().rank(),
    {
        let have = stage_rank(self.stage);
        let want = match step {
            BootStep::InitController => 0u8,
            BootStep::LoadTable => 1u8,
            BootStep::StartDrivers => 2u8,
            BootStep::EnableInterrupts => 3u8,
        };
        if have < want {
            Err(BootError::TooEarly)
        } else if have > want {
            Err(BootError::AlreadyDone)
        } else {
            self.stage = match step {
                BootStep::InitController => BootStage::ControllerReady,
                BootStep::LoadTable => BootStage::TableLoaded,
                BootStep::StartDrivers => BootStage::DriversReady,
                BootStep::EnableInterrupts => BootStage::Running,
            };
            Ok(())
        }
    }

    /// Takes a scancode from the keyboard. Before interrupts are enabled
    /// the scancode is refused and nothing changes.
    pub fn key_pressed(&mut self, scancode: u8) -> (result: Result<(), BootError>)
        requires
            old(self).wf(),
        ensures
            final(self).wf(),
            final(self)@ == old(self)@.after_key(scancode),
            result is Ok <==> old(self)@.stage == BootStage::Running,
            result is Err ==> *final(self) == *old(self) && result == Err::<(), BootError>(
                BootError::NotRunning,
            ),
    {
        match self.stage {
            BootStage::Running => {
                add_scancode(&mut self.keys, scancode);
                Ok(())
            },
            _ => Err(BootError::NotRunning),
        }
    }

    /// Takes the oldest waiting key, if there is one. There is none before
    /// interrupts are enabled.
    pub fn get_key(&mut self) -> (key: Option<u8>)
        requires
            old(self).wf(),
        ensures
            final(self).wf(),
            final(self)@ == old(self)@.after_poll(),
            key == front(old(self)@.keys),
            old(self)@.stage != BootStage::Running ==> key is None,
    {
        get_key(&mut self.keys)
    }

    /// Feeds the shell the keys that are waiting; see `shell_loop`.
    pub fn run_shell<W: Writer>(&mut self, shell: &mut Shell, writer: &mut W) -> (action:
        ShellAction)
        requires
            old(self).wf(),
            old(shell).wf(),
            old(writer).wf(),
        ensures
            final(self).wf(),
            final(shell).wf(),
            final(writer).wf(),
            final(self)@.stage == old(self)@.stage,
            final(self)@.keys == old(self)@.keys.skip(
                consumed(old(shell)@, old(self)@.keys) as int,
            ),
            final(shell)@ == run_state(
                old(shell)@,
                old(self)@.keys.take(consumed(old(shell)@, old(self)@.keys) as int),
            ),
            strings_written(
                *old(writer),
                run_output(
                    old(shell)@,
                    old(self)@.keys.take(consumed(old(shell)@, old(self)@.keys) as int),
                ),
                *final(writer),
            ),
            action == ShellAction::Halt <==> final(shell)@.halted,
            action == ShellAction::Wait ==> final(self)@.keys.len() == 0,
    {
        shell_loop(shell, writer, &mut self.keys)
    }
}

fn stage_rank(stage: BootStage) -> (rank: u8)
    ensures
        rank == stage.rank(),
{
    match stage {
        BootStage::Reset => 0,
        BootStage::ControllerReady => 1,
        BootStage::TableLoaded => 2,
        BootStage::DriversReady => 3,
        BootStage::Running => 4,
    }
}

/// The block that the self-test encodes and decodes.
pub const BOOT_SAMPLE: &'static str = "TRI-Kernel Boot!!!";

/// The encoded length that the self-test reports: the position of the first
/// zero byte of the encoded sample, and zero where it has none.
pub open spec fn boot_encoded_len() -> nat {
    let n = zero_free_prefix(encoded(fit(BOOT_SAMPLE.spec_bytes())));
    if n < 64 {
        n
    } else {
        0
    }
}

/// Whether the sample survives encoding and decoding.
pub open spec fn boot_round_trip() -> bool {
    decoded(encoded(fit(BOOT_SAMPLE.spec_bytes()))) == fit(BOOT_SAMPLE.spec_bytes())
}

/// What the self-test prints: the ratio of the sample to its encoded form in
/// percent, and whether decoding gave the sample back.
pub open spec fn boot_banner() -> Seq<Seq<char>> {
    seq![
        "Boot OK! TRI Ratio: "@,
        decimal(ratio_of(boot_encoded_len()) as nat),
        "%. Decomp: "@,
        if boot_round_trip() {
            "OK"@
        } else {
            "FAIL"@
        },
        "\n"@,
    ]
}

/// Encodes and decodes the sample block and reports on the sink. Returns
/// whether decoding gave the sample back.
pub fn self_test<W: Writer>(sink: &mut W) -> (ok: bool)
    requires
        old(sink).wf(),
    ensures
        final(sink).wf(),
        ok == boot_round_trip(),
        strings_written(*old(sink), boot_banner(), *final(sink)),
{
    let sample = block_of(BOOT_SAMPLE);
    let compressed = compress(&sample);
    let decompressed = decompress(&compressed);
    let position = zero_position(&compressed);
    let comp_len: u32 = if position < 64 {
        position as u32
    } else {
        0
    };
    let percent = ratio(comp_len);
    let mut ok = true;
    let mut i: usize = 0;
    while i < 32
        invariant
            i <= 32,
            ok == (forall|j: int| 0 <= j < i ==> decompressed@[j] == sample@[j]),
        decreases 32 - i,
    {
        if decompressed[i] != sample[i] {
            ok = false;
        }
        i += 1;
    }
    proof {
        if ok {
            assert(decompressed@ =~= sample@);
        }
    }
    let percent_text = u32_to_str(percent as u32);
    let ghost start = *sink;
    let ghost none = Seq::<Seq<char>>::empty();
    print(sink, "Boot OK! TRI Ratio: ");
    let ghost s1 = *sink;
    print(sink, percent_text.as_str());
    let ghost s2 = *sink;
    print(sink, "%. Decomp: ");
    let ghost s3 = *sink;
    let outcome = if ok {
        "OK"
    } else {
        "FAIL"
    };
    print(sink, outcome);
    let ghost s4 = *sink;
    print(sink, "\n");
    proof {
        let t1 = none.push("Boot OK! TRI Ratio: "@);
        let t2 = t1.push(percent_text@);
        let t3 = t2.push("%. Decomp: "@);
        let t4 = t3.push(outcome@);
        let t5 = t4.push("\n"@);
        lemma_written_push(start, none, start, "Boot OK! TRI Ratio: "@, s1);
        lemma_written_push(start, t1, s1, percent_text@, s2);
        lemma_written_push(start, t2, s2, "%. Decomp: "@, s3);
        lemma_written_push(start, t3, s3, outcome@, s4);
        lemma_written_push(start, t4, s4, "\n"@, *sink);
        assert(t5 =~= boot_banner());
    }
    ok
}

} // verus!
