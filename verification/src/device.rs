//! The emulated device: its cores and the clock that ticks them.

use vstd::prelude::*;
use crate::engine::fixture::{
    fixture, fixture_tree, fixture_trackers, fixture_value_trackers,
};
use crate::engine::{Core, CoreState};
use crate::types::key::Key;

verus! {

/// The device: its cores, the one that is shown, the phase of the next
/// tick, and whether a top bar is shown.
#[derive(Debug)]
pub struct Device {
    cores: Vec<Core>,
    focused_core: Option<usize>,
    rising: bool,
    show_top_bar: bool,
}

/// What a device holds, as plain values.
pub struct DeviceState {
    pub cores: Seq<CoreState>,
    pub focused_core: Option<usize>,
    pub rising: bool,
    pub show_top_bar: bool,
}

impl DeviceState {
    /// Whether there is a first core, every core is valid, and the core
    /// that is shown, if any, exists.
    pub open spec fn valid(self) -> bool {
        &&& self.cores.len() > 0
        &&& forall|index: int| 0 <= index < self.cores.len() ==> (#[trigger] self.cores[index]).valid()
        &&& self.focused_core matches Some(index) ==> index < self.cores.len()
    }

    /// Whether every core has room for one more rising tick.
    pub open spec fn has_room(self) -> bool {
        forall|index: int|
            0 <= index < self.cores.len() ==> (#[trigger] self.cores[index]).network.cycle_count
                < usize::MAX
    }

    /// The device after one tick: every core has gone through a tick of the
    /// current phase, and the phase has turned.
    pub open spec fn tick(self) -> DeviceState {
        DeviceState {
            cores: Seq::new(self.cores.len(), |index: int| self.cores[index].tick(self.rising)),
            rising: !self.rising,
            ..self
        }
    }

    /// The device after the given key has been pressed: the space bar
    /// ticks the device, and every other key is handed to the first core.
    pub open spec fn key_pressed(self, key: Key) -> DeviceState {
        if key == Key::Space {
            self.tick()
        } else {
            DeviceState { cores: self.cores.update(0, self.cores[0].key_pressed(key)), ..self }
        }
    }
}

impl View for Device {
    type V = DeviceState;

    closed spec fn view(&self) -> DeviceState {
        DeviceState {
            cores: Seq::new(self.cores@.len(), |index: int| self.cores@[index]@),
            focused_core: self.focused_core,
            rising: self.rising,
            show_top_bar: self.show_top_bar,
        }
    }
}

impl Device {
    /// A device of one core with a recorder attached. Its first tick
    /// will be a rising one.
    pub fn new() -> (result: Self)
        ensures
            result@.valid(),
            result@.cores.len() == 1,
            result@.cores[0].network == fixture(),
            result@.cores[0].inspector matches Some(recording) && recording.show_trackers
                && recording.root_item.shows(fixture_tree()) && recording.logic
                == fixture_trackers() && recording.values == fixture_value_trackers(),
            result@.focused_core == Some(0usize),
            result@.rising,
            result@.show_top_bar,
    {
        let mut cores: Vec<Core> = Vec::new();
        cores.push(Core::load("test.logic".to_owned(), true));
        Self { cores: cores, focused_core: Some(0), rising: true, show_top_bar: true }
    }

    pub fn cores(&self) -> (result: &Vec<Core>)
        ensures
            result@.len() == self@.cores.len(),
            forall|index: int| 0 <= index < result@.len() ==> (#[trigger] result@[index])@ == self@.cores[index],
    {
        &self.cores
    }

    /// The index of the core that is shown, if any.
    pub fn focused_core(&self) -> (result: Option<usize>)
        ensures
            result == self@.focused_core,
    {
        self.focused_core
    }

    /// The phase of the next tick.
    pub fn rising(&self) -> (result: bool)
        ensures
            result == self@.rising,
    {
        self.rising
    }

    pub fn show_top_bar(&self) -> (result: bool)
        ensures
            result == self@.show_top_bar,
    {
        self.show_top_bar
    }

    /// Whether every core has room for one more rising tick.
    pub fn has_room(&self) -> (result: bool)
        ensures
            result == self@.has_room(),
    {
        let mut index: usize = 0;
        while index < self.cores.len()
            invariant
                index <= self.cores.len(),
                forall|earlier: int|
                    0 <= earlier < index ==> (#[trigger] self@.cores[earlier]).network.cycle_count
                        < usize::MAX,
            decreases self.cores.len() - index,
        {
            assert(self@.cores[index as int] == self.cores@[index as int]@);
            if self.cores[index].cycle_count() == usize::MAX {
                return false;
            }
            index += 1;
        }
        true
    }

    /// Reacts to a key: the space bar ticks every core in the current
    /// phase and turns the phase, and every other key goes to the first
    /// core. A rising tick needs room in every cycle count.
    pub fn handle_key_input(&mut self, key: Key)
        requires
            old(self)@.valid(),
            key == Key::Space && old(self)@.rising ==> old(self)@.has_room(),
        ensures
            final(self)@ == old(self)@.key_pressed(key),
            final(self)@.valid(),
    {
        let ghost before = self@;
        match key {
            Key::Space => {
                let rising = self.rising;
                let count = self.cores.len();
                let mut index: usize = 0;
                while index < count
                    invariant
                        index <= count,
                        count == self.cores@.len(),
                        before == old(self)@,
                        before.valid(),
                        rising ==> before.has_room(),
                        rising == before.rising,
                        self.rising == before.rising,
                        self.focused_core == before.focused_core,
                        self.show_top_bar == before.show_top_bar,
                        self@.cores.len() == before.cores.len(),
                        forall|done: int|
                            0 <= done < index ==> #[trigger] self@.cores[done]
                                == before.cores[done].tick(rising) && self@.cores[done].valid(),
                        forall|rest: int|
                            index <= rest < count ==> #[trigger] self@.cores[rest]
                                == before.cores[rest],
                    decreases count - index,
                {
                    let ghost earlier = self@;
                    assert(earlier.cores[index as int] == before.cores[index as int]);
                    assert(before.cores[index as int].valid());
                    assert(rising ==> before.cores[index as int].network.cycle_count < usize::MAX);
                    self.cores[index].tick(rising);
                    assert forall|done: int| 0 <= done < index implies #[trigger] self@.cores[done]
                        == before.cores[done].tick(rising) && self@.cores[done].valid() by {
                        assert(self@.cores[done] == earlier.cores[done]);
                    }
                    assert forall|rest: int| index < rest < count implies #[trigger] self@.cores[rest]
                        == before.cores[rest] by {
                        assert(self@.cores[rest] == earlier.cores[rest]);
                    }
                    index += 1;
                }
                self.rising = !self.rising;
                assert(self@.cores =~= before.key_pressed(key).cores);
            },
            other => {
                self.cores[0].handle_key_input(other);
                assert(self@.cores =~= before.key_pressed(key).cores);
                assert forall|index: int| 0 <= index < self@.cores.len() implies (
                #[trigger] self@.cores[index]).valid() by {
                    assert(before.cores[index].valid());
                }
            },
        }
    }
}

} // verus!
