//! The boundary between the search loop and the software it drives:
//! `StateProvider` captures the live state, `InputInjector` sends one input.
//! `InternalSimulator` answers both from a world and the transition function;
//! `ExternalNativeHook` describes another process's memory regions, with the
//! platform-specific reads and writes left as an outline that reports failure.

use vstd::prelude::*;
use crate::state::{PackedState, LayoutConfig, read_location};
use crate::env::{WorldConfig, step, step_spec, lemma_step_stays_on_grid};

verus! {

/// Captures the current state of the target software.
pub trait StateProvider {
    /// Return the live state of the target software.
    fn capture_state(&mut self) -> PackedState;
}

/// Injects one discrete input into the target software.
pub trait InputInjector {
    fn inject_input(&mut self, input_id: u8);
}

/// Deterministic offline simulation: a world, a layout and the current state.
pub struct InternalSimulator<'a> {
    layout: &'a LayoutConfig,
    world: &'a WorldConfig,
    state: PackedState,
}

impl<'a> InternalSimulator<'a> {
    /// The layout is well-formed, the world too, and the state is on its grid.
    #[verifier::type_invariant]
    spec fn inv(self) -> bool {
        &&& self.layout.wf()
        &&& self.world.wf()
        &&& read_location(self.state@, *self.layout) < self.world.num_cells()
    }

    /// The simulated state.
    pub closed spec fn current(self) -> PackedState {
        self.state
    }

    /// The layout the simulator reads states with.
    pub closed spec fn layout_spec(self) -> LayoutConfig {
        *self.layout
    }

    /// The world the simulator runs.
    pub closed spec fn world_spec(self) -> WorldConfig {
        *self.world
    }

    /// A simulator of `world` starting from `start`.
    pub fn new(layout: &'a LayoutConfig, world: &'a WorldConfig, start: PackedState) -> (r: Self)
        requires
            layout.wf(),
            world.wf(),
            read_location(start@, *layout) < world.num_cells(),
        ensures
            r.current() == start,
            r.layout_spec() == *layout,
            r.world_spec() == *world,
    {
        InternalSimulator { layout, world, state: start }
    }

    /// The simulated state.
    pub fn state(&self) -> (r: PackedState)
        ensures
            r == self.current(),
    {
        self.state
    }

    /// The layout the simulator reads states with.
    pub fn layout(&self) -> (r: &'a LayoutConfig)
        ensures
            *r == self.layout_spec(),
    {
        self.layout
    }

    /// The world the simulator runs.
    pub fn world(&self) -> (r: &'a WorldConfig)
        ensures
            *r == self.world_spec(),
    {
        self.world
    }
}

impl<'a> StateProvider for InternalSimulator<'a> {
    /// The simulated state, unchanged.
    fn capture_state(&mut self) -> (r: PackedState)
        ensures
            r == old(self).current(),
            *final(self) == *old(self),
    {
        self.state
    }
}

impl<'a> InputInjector for InternalSimulator<'a> {
    /// Apply the input; a refused input leaves the state as it was.
    fn inject_input(&mut self, input_id: u8)
        ensures
            final(self).layout_spec() == old(self).layout_spec(),
            final(self).world_spec() == old(self).world_spec(),
            match step_spec(
                old(self).current()@,
                input_id,
                old(self).layout_spec(),
                old(self).world_spec(),
            ) {
                Some(n) => final(self).current()@ == n,
                None => final(self).current() == old(self).current(),
            },
    {
        proof {
            use_type_invariant(&*self);
        }
        if let Some(next) = step(self.state, input_id, self.layout, self.world) {
            proof {
                lemma_step_stays_on_grid(self.state@, input_id, *self.layout, *self.world);
            }
            self.state = next;
        }
    }
}

/// A memory region inside a target process.
#[derive(Clone, Copy, Debug)]
pub struct MemoryRegion {
    pub base_address: usize,
    pub size: usize,
}

/// Descriptor of a hook into another process: where its state and its input
/// register live, how its state is laid out, and the last state read.
pub struct ExternalNativeHook {
    pub process_id: u32,
    pub state_region: MemoryRegion,
    pub input_region: MemoryRegion,
    pub layout: LayoutConfig,
    pub cached_state: PackedState,
}

impl ExternalNativeHook {
    /// A hook descriptor, not yet connected, with a zero cached state.
    pub fn new(
        process_id: u32,
        state_region: MemoryRegion,
        input_region: MemoryRegion,
        layout: LayoutConfig,
    ) -> (r: Self)
        ensures
            r.process_id == process_id,
            r.state_region == state_region,
            r.input_region == input_region,
            r.layout == layout,
            r.cached_state@ == Seq::new(16, |i: int| 0u8),
    {
        ExternalNativeHook {
            process_id,
            state_region,
            input_region,
            layout,
            cached_state: PackedState::zero(),
        }
    }

    /// Read target memory at `_offset` into `_buf`.  The platform-specific
    /// read is not part of this outline: nothing is read and `false` is
    /// returned.
    pub fn read_target_memory(&self, _offset: usize, _buf: &mut [u8]) -> (r: bool)
        ensures
            !r,
            final(_buf)@ == old(_buf)@,
    {
        false
    }

    /// Write `_buf` to target memory at `_offset`.  The platform-specific
    /// write is not part of this outline: nothing is written and `false` is
    /// returned.
    pub fn write_target_memory(&self, _offset: usize, _buf: &[u8]) -> (r: bool)
        ensures
            !r,
    {
        false
    }
}

impl StateProvider for ExternalNativeHook {
    /// The state read from the target when the read succeeds, else the cached one.
    fn capture_state(&mut self) -> (r: PackedState)
        ensures
            r == old(self).cached_state,
            *final(self) == *old(self),
    {
        let mut buf = [0u8; 16];
        if self.read_target_memory(0, &mut buf) {
            self.cached_state = PackedState { data: buf };
        }
        self.cached_state
    }
}

impl InputInjector for ExternalNativeHook {
    /// Write the input id to the target's input register.
    fn inject_input(&mut self, input_id: u8)
        ensures
            *final(self) == *old(self),
    {
        let _ = self.write_target_memory(0, &[input_id]);
    }
}

} // verus!
