//! Holding a card's clock across the host's turns: which queue and memory the holder takes, and
//! when it spins.
//!
//! The holder runs a small spin on a second device of the same card for as long as a step is
//! armed. Talking to the card is the caller's.

use vstd::prelude::*;
use vstd::string::*;

verus! {

/// One spin submission: the loop count is the card's own time, short enough that disarming takes
/// effect within a millisecond or so.
pub const SPIN_ITERATIONS: u32 = 20_000;

/// A queue family of a card, as far as the holder looks at it.
#[derive(Debug, Clone, Copy, PartialEq, Eq, Structural)]
pub struct QueueFamily {
    pub compute: bool,
    pub graphics: bool,
    pub queue_count: u32,
}

/// A family with its own hardware ring: compute, no graphics, and a queue to have.
pub open spec fn is_compute_only(f: QueueFamily) -> bool {
    f.compute && !f.graphics && f.queue_count > 0
}

/// The first compute-only family, at or after `from`.
pub open spec fn first_compute_only(families: Seq<QueueFamily>, from: int) -> Option<int>
    decreases families.len() - from,
{
    if from < 0 || from >= families.len() {
        None
    } else if is_compute_only(families[from]) {
        Some(from)
    } else {
        first_compute_only(families, from + 1)
    }
}

/// The first family with compute, at or after `from`.
pub open spec fn first_compute(families: Seq<QueueFamily>, from: int) -> Option<int>
    decreases families.len() - from,
{
    if from < 0 || from >= families.len() {
        None
    } else if families[from].compute {
        Some(from)
    } else {
        first_compute(families, from + 1)
    }
}

/// The queue family the holder takes: a compute-only one where there is one, else the first with
/// compute; and whether it is compute-only.
pub fn choose_family(families: &[QueueFamily]) -> (chosen: Option<(usize, bool)>)
    ensures
        match first_compute_only(families@, 0) {
            Some(i) => chosen matches Some((at, only)) && at == i && only,
            None => match first_compute(families@, 0) {
                Some(i) => chosen matches Some((at, only)) && at == i && !only,
                None => chosen is None,
            },
        },
{
    let mut i: usize = 0;
    while i < families.len()
        invariant
            i <= families@.len(),
            first_compute_only(families@, 0) == first_compute_only(families@, i as int),
        decreases families.len() - i,
    {
        if families[i].compute && !families[i].graphics && families[i].queue_count > 0 {
            return Some((i, true));
        }
        i = i + 1;
    }
    let mut j: usize = 0;
    while j < families.len()
        invariant
            j <= families@.len(),
            first_compute_only(families@, 0) is None,
            first_compute(families@, 0) == first_compute(families@, j as int),
        decreases families.len() - j,
    {
        if families[j].compute {
            return Some((j, false));
        }
        j = j + 1;
    }
    None
}

/// The property flags of memory the host can see and need not flush.
pub const HOST_VISIBLE_COHERENT: u32 = 6;

/// Whether memory type `i` is allowed by the bits of a requirement and has the wanted flags.
pub open spec fn suits(flags: Seq<u32>, bits: u32, i: int) -> bool {
    (bits >> (i as u32)) & 1 == 1 && flags[i] & HOST_VISIBLE_COHERENT == HOST_VISIBLE_COHERENT
}

/// The first memory type that suits, at or after `from`.
pub open spec fn first_suiting(flags: Seq<u32>, bits: u32, from: int) -> Option<int>
    decreases flags.len() - from,
{
    if from < 0 || from >= flags.len() {
        None
    } else if suits(flags, bits, from) {
        Some(from)
    } else {
        first_suiting(flags, bits, from + 1)
    }
}

/// The memory type for a buffer: the first its requirement allows that the host can see.
pub fn choose_memory(flags: &[u32], bits: u32) -> (chosen: Option<usize>)
    requires
        flags@.len() <= 32,
    ensures
        match first_suiting(flags@, bits, 0) {
            Some(i) => chosen matches Some(at) && at == i,
            None => chosen is None,
        },
{
    let mut i: usize = 0;
    while i < flags.len()
        invariant
            i <= flags@.len(),
            flags@.len() <= 32,
            first_suiting(flags@, bits, 0) == first_suiting(flags@, bits, i as int),
        decreases flags.len() - i,
    {
        if (bits >> (i as u32)) & 1 == 1 && flags[i] & HOST_VISIBLE_COHERENT
            == HOST_VISIBLE_COHERENT {
            return Some(i);
        }
        i = i + 1;
    }
    None
}

/// The steps of setting the holder up that can fail, in the order they are taken. The three of a
/// buffer are taken for each of the two.
#[derive(Debug, Clone, Copy, PartialEq, Eq, Structural)]
pub enum Setup {
    CreateDevice,
    CreateShaderModule,
    CreateDescriptorSetLayout,
    CreatePipelineLayout,
    CreateComputePipelines,
    CreateBuffer,
    AllocateMemory,
    BindBufferMemory,
    MapMemory,
    CreateDescriptorPool,
    AllocateDescriptorSets,
    CreateCommandPool,
    AllocateCommandBuffers,
    BeginCommandBuffer,
    EndCommandBuffer,
    CreateFence,
}

impl Setup {
    pub open spec fn label_spec(&self) -> Seq<char> {
        match self {
            Setup::CreateDevice => "create_device"@,
            Setup::CreateShaderModule => "create_shader_module"@,
            Setup::CreateDescriptorSetLayout => "create_descriptor_set_layout"@,
            Setup::CreatePipelineLayout => "create_pipeline_layout"@,
            Setup::CreateComputePipelines => "create_compute_pipelines"@,
            Setup::CreateBuffer => "create_buffer"@,
            Setup::AllocateMemory => "allocate_memory"@,
            Setup::BindBufferMemory => "bind_buffer_memory"@,
            Setup::MapMemory => "map_memory"@,
            Setup::CreateDescriptorPool => "create_descriptor_pool"@,
            Setup::AllocateDescriptorSets => "allocate_descriptor_sets"@,
            Setup::CreateCommandPool => "create_command_pool"@,
            Setup::AllocateCommandBuffers => "allocate_command_buffers"@,
            Setup::BeginCommandBuffer => "begin_command_buffer"@,
            Setup::EndCommandBuffer => "end_command_buffer"@,
            Setup::CreateFence => "create_fence"@,
        }
    }

    /// What the step is called when it fails.
    pub fn label(&self) -> (label: &'static str)
        ensures
            label@ == self.label_spec(),
    {
        match self {
            Setup::CreateDevice => "create_device",
            Setup::CreateShaderModule => "create_shader_module",
            Setup::CreateDescriptorSetLayout => "create_descriptor_set_layout",
            Setup::CreatePipelineLayout => "create_pipeline_layout",
            Setup::CreateComputePipelines => "create_compute_pipelines",
            Setup::CreateBuffer => "create_buffer",
            Setup::AllocateMemory => "allocate_memory",
            Setup::BindBufferMemory => "bind_buffer_memory",
            Setup::MapMemory => "map_memory",
            Setup::CreateDescriptorPool => "create_descriptor_pool",
            Setup::AllocateDescriptorSets => "allocate_descriptor_sets",
            Setup::CreateCommandPool => "create_command_pool",
            Setup::AllocateCommandBuffers => "allocate_command_buffers",
            Setup::BeginCommandBuffer => "begin_command_buffer",
            Setup::EndCommandBuffer => "end_command_buffer",
            Setup::CreateFence => "create_fence",
        }
    }

    /// What is said when the step fails.
    pub fn failure(&self, why: &str) -> (s: String)
        ensures
            s@ == self.label_spec() + ": "@ + why@,
    {
        let mut out = String::new();
        out.append(self.label());
        out.append(": ");
        out.append(why);
        assert(out@ =~= self.label_spec() + ": "@ + why@);
        out
    }
}

/// The steps of opening the holder, in order: a buffer's three for the sink, then for the
/// parameters.
pub open spec fn opening_order() -> Seq<Setup> {
    seq![
        Setup::CreateDevice,
        Setup::CreateShaderModule,
        Setup::CreateDescriptorSetLayout,
        Setup::CreatePipelineLayout,
        Setup::CreateComputePipelines,
        Setup::CreateBuffer,
        Setup::AllocateMemory,
        Setup::BindBufferMemory,
        Setup::CreateBuffer,
        Setup::AllocateMemory,
        Setup::BindBufferMemory,
        Setup::MapMemory,
        Setup::CreateDescriptorPool,
        Setup::AllocateDescriptorSets,
        Setup::CreateCommandPool,
        Setup::AllocateCommandBuffers,
        Setup::BeginCommandBuffer,
        Setup::EndCommandBuffer,
        Setup::CreateFence,
    ]
}

/// The same steps, to go through.
pub const OPENING: [Setup; 19] = [
    Setup::CreateDevice,
    Setup::CreateShaderModule,
    Setup::CreateDescriptorSetLayout,
    Setup::CreatePipelineLayout,
    Setup::CreateComputePipelines,
    Setup::CreateBuffer,
    Setup::AllocateMemory,
    Setup::BindBufferMemory,
    Setup::CreateBuffer,
    Setup::AllocateMemory,
    Setup::BindBufferMemory,
    Setup::MapMemory,
    Setup::CreateDescriptorPool,
    Setup::AllocateDescriptorSets,
    Setup::CreateCommandPool,
    Setup::AllocateCommandBuffers,
    Setup::BeginCommandBuffer,
    Setup::EndCommandBuffer,
    Setup::CreateFence,
];

/// A holder being opened: how many of its steps are done.
#[derive(Debug, Clone, Copy, PartialEq, Eq, Structural)]
pub struct Opening {
    pub done: usize,
}

impl Opening {
    pub fn new() -> (opening: Opening)
        ensures
            opening == (Opening { done: 0 }),
    {
        Opening { done: 0 }
    }

    /// The step to take now, if one is left.
    pub fn step(&self) -> (setup: Option<Setup>)
        ensures
            setup == if self.done < opening_order().len() {
                Some(opening_order()[self.done as int])
            } else {
                None
            },
    {
        assert(OPENING@ =~= opening_order());
        if self.done < OPENING.len() {
            Some(OPENING[self.done])
        } else {
            None
        }
    }

    /// Goes on behind a step that went well; one that failed is named, and nothing follows it.
    pub fn advance(&mut self, failure: Option<&str>) -> (went: Result<(), String>)
        requires
            old(self).done < opening_order().len(),
        ensures
            match failure {
                None => went is Ok && final(self).done == old(self).done + 1,
                Some(why) => (went matches Err(said) && said@
                    == opening_order()[old(self).done as int].label_spec() + ": "@ + why@)
                    && *final(self) == *old(self),
            },
    {
        match (failure, self.step()) {
            (Some(why), Some(setup)) => Err(setup.failure(why)),
            _ => {
                self.done = self.done + 1;
                Ok(())
            },
        }
    }

    /// Whether every step was taken.
    pub fn is_open(&self) -> (yes: bool)
        ensures
            yes == (self.done >= opening_order().len()),
    {
        self.step().is_none()
    }
}

/// What the holder's thread does next.
#[derive(Debug, Clone, Copy, PartialEq, Eq, Structural)]
pub enum Turn {
    /// Sleep until woken.
    Wait,
    /// Submit one spin and wait for it.
    Spin,
    /// Let everything go.
    Exit,
}

/// Whether a step is armed, and whether the holder is to stop.
#[derive(Debug, Clone, Copy, PartialEq, Eq, Structural)]
pub struct ClockHold {
    pub armed: bool,
    pub stopped: bool,
}

impl ClockHold {
    /// A holder that waits.
    pub fn new() -> (hold: ClockHold)
        ensures
            hold == (ClockHold { armed: false, stopped: false }),
    {
        ClockHold { armed: false, stopped: false }
    }

    pub fn arm(&mut self)
        ensures
            *final(self) == (ClockHold { armed: true, ..*old(self) }),
    {
        self.armed = true;
    }

    pub fn disarm(&mut self)
        ensures
            *final(self) == (ClockHold { armed: false, ..*old(self) }),
    {
        self.armed = false;
    }

    /// Stops for good: armed too, so that a sleeping thread wakes and sees it.
    pub fn stop(&mut self)
        ensures
            *final(self) == (ClockHold { armed: true, stopped: true }),
    {
        self.stopped = true;
        self.armed = true;
    }

    /// What the thread does next: leave when stopped or when its last spin failed, sleep while
    /// nothing is armed, else spin.
    pub fn run(&self, last_spin_failed: bool) -> (turn: Turn)
        ensures
            turn == if self.stopped || last_spin_failed {
                Turn::Exit
            } else if self.armed {
                Turn::Spin
            } else {
                Turn::Wait
            },
    {
        if self.stopped || last_spin_failed {
            Turn::Exit
        } else if self.armed {
            Turn::Spin
        } else {
            Turn::Wait
        }
    }
}

proof fn lemma_first_compute_only(families: Seq<QueueFamily>, from: int)
    requires
        0 <= from,
    ensures
        match first_compute_only(families, from) {
            Some(i) => from <= i < families.len() && families[i].compute && !families[i].graphics
                && families[i].queue_count > 0 && forall|k: int|
                from <= k < i ==> !((#[trigger] families[k]).compute && !families[k].graphics
                    && families[k].queue_count > 0),
            None => forall|k: int|
                from <= k < families.len() ==> !((#[trigger] families[k]).compute
                    && !families[k].graphics && families[k].queue_count > 0),
        },
    decreases families.len() - from,
{
    if from < families.len() {
        lemma_first_compute_only(families, from + 1);
    }
}

proof fn lemma_first_compute(families: Seq<QueueFamily>, from: int)
    requires
        0 <= from,
    ensures
        match first_compute(families, from) {
            Some(i) => from <= i < families.len() && families[i].compute && forall|k: int|
                from <= k < i ==> !(#[trigger] families[k]).compute,
            None => forall|k: int| from <= k < families.len() ==> !(#[trigger] families[k]).compute,
        },
    decreases families.len() - from,
{
    if from < families.len() {
        lemma_first_compute(families, from + 1);
    }
}

/// A ring of its own is the first family that computes, draws nothing and has a queue; and the
/// family to fall back on is the first that computes at all.
pub proof fn law_the_first_family_of_its_kind_is_taken(families: Seq<QueueFamily>)
    ensures
        match first_compute_only(families, 0) {
            Some(i) => 0 <= i < families.len() && families[i].compute && !families[i].graphics
                && families[i].queue_count > 0 && forall|k: int|
                0 <= k < i ==> !((#[trigger] families[k]).compute && !families[k].graphics
                    && families[k].queue_count > 0),
            None => forall|k: int|
                0 <= k < families.len() ==> !((#[trigger] families[k]).compute
                    && !families[k].graphics && families[k].queue_count > 0),
        },
        match first_compute(families, 0) {
            Some(i) => 0 <= i < families.len() && families[i].compute && forall|k: int|
                0 <= k < i ==> !(#[trigger] families[k]).compute,
            None => forall|k: int| 0 <= k < families.len() ==> !(#[trigger] families[k]).compute,
        },
{
    lemma_first_compute_only(families, 0);
    lemma_first_compute(families, 0);
}

/// Whether a requirement's bits allow memory type `i` and the host can see it, with nothing to
/// flush.
pub open spec fn visible(flags: Seq<u32>, bits: u32, i: int) -> bool {
    (bits >> (i as u32)) & 1 == 1 && flags[i] & 2 == 2 && flags[i] & 4 == 4
}

/// The memory taken is the first that is allowed, visible and coherent, and there is none only
/// where no type is all three.
pub proof fn law_the_first_visible_memory_is_taken(flags: Seq<u32>, bits: u32, from: int)
    requires
        0 <= from,
    ensures
        match first_suiting(flags, bits, from) {
            Some(i) => from <= i < flags.len() && visible(flags, bits, i) && forall|k: int|
                from <= k < i ==> !#[trigger] visible(flags, bits, k),
            None => forall|k: int| from <= k < flags.len() ==> !#[trigger] visible(flags, bits, k),
        },
    decreases flags.len() - from,
{
    if from < flags.len() {
        let f = flags[from];
        assert((f & 6 == 6) <==> (f & 2 == 2 && f & 4 == 4)) by (bit_vector);
        assert(suits(flags, bits, from) == visible(flags, bits, from));
        law_the_first_visible_memory_is_taken(flags, bits, from + 1);
    }
}

/// Opening goes through nineteen steps, each once but for the two buffers, and takes what a step
/// needs before it: the device first, a layout before the pipeline made with it, a buffer before
/// its memory and the memory before its binding, both buffers before anything is mapped, and the
/// fence last.
pub proof fn law_a_step_comes_behind_what_it_needs()
    ensures
        ({
            let order = opening_order();
            &&& order.len() == 19 && OPENING@ == order
            &&& order[0] is CreateDevice && order[18] is CreateFence
            &&& order[1] is CreateShaderModule && order[2] is CreateDescriptorSetLayout
            &&& order[3] is CreatePipelineLayout && order[4] is CreateComputePipelines
            &&& forall|b: int|
                b == 5 || b == 8 ==> (#[trigger] order[b]) is CreateBuffer && order[b
                    + 1] is AllocateMemory && order[b + 2] is BindBufferMemory
            &&& order[11] is MapMemory
            &&& order[12] is CreateDescriptorPool && order[13] is AllocateDescriptorSets
            &&& order[14] is CreateCommandPool && order[15] is AllocateCommandBuffers
            &&& order[16] is BeginCommandBuffer && order[17] is EndCommandBuffer
        }),
        SPIN_ITERATIONS == 20_000,
        HOST_VISIBLE_COHERENT == 2 + 4,
{
    assert(OPENING@ =~= opening_order());
}

} // verus!
