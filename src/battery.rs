use vstd::prelude::*;
use tokio::sync::watch;
use crate::value::BatteryState;

verus! {

#[verifier::external_type_specification]
#[verifier::external_body]
#[verifier::reject_recursive_types(T)]
pub struct ExWatchSender<T>(watch::Sender<T>);

#[verifier::external_type_specification]
#[verifier::external_body]
#[verifier::reject_recursive_types(T)]
pub struct ExWatchReceiver<T>(watch::Receiver<T>);

/// The value held in the slot of a watch channel, as seen through its sender.
pub uninterp spec fn slot_value(s: watch::Sender<BatteryState>) -> BatteryState;

/// Relies on tokio::sync::watch::channel: the channel starts out holding `init`.
/// The first receiver is dropped; later ones come from `subscribe`.
#[verifier::external_body]
fn open_slot(init: BatteryState) -> (s: watch::Sender<BatteryState>)
    ensures
        slot_value(s) == init,
{
    watch::channel(init).0
}

/// Relies on tokio::sync::watch::Sender::send_replace: the value is stored
/// whether or not any receiver exists.
#[verifier::external_body]
fn store_slot(s: &mut watch::Sender<BatteryState>, v: BatteryState)
    ensures
        slot_value(*final(s)) == v,
{
    s.send_replace(v);
}

/// Relies on tokio::sync::watch::Sender::borrow: it reads the most recently
/// sent value.
#[verifier::external_body]
fn read_slot(s: &watch::Sender<BatteryState>) -> (r: BatteryState)
    ensures
        r == slot_value(*s),
{
    *s.borrow()
}

/// Relies on tokio::sync::watch::Sender::subscribe: a new receiver on the same
/// channel. Nothing is claimed of its contents.
#[verifier::external_body]
fn open_receiver(s: &watch::Sender<BatteryState>) -> (r: watch::Receiver<BatteryState>)
{
    s.subscribe()
}

/// The channel that holds a battery state. Its sender is private and is
/// written only through `store`, which takes the slot mutably, so the value
/// seen through the slot is the value last stored.
pub struct StateSlot {
    sender: watch::Sender<BatteryState>,
}

impl StateSlot {
    /// The value the slot holds.
    pub closed spec fn value(&self) -> BatteryState {
        slot_value(self.sender)
    }

    pub fn new(init: BatteryState) -> (r: Self)
        ensures
            r.value() == init,
    {
        StateSlot { sender: open_slot(init) }
    }

    /// Overwrites the value, whether or not anyone observes it.
    pub fn store(&mut self, v: BatteryState)
        ensures
            final(self).value() == v,
    {
        store_slot(&mut self.sender, v);
    }

    pub fn read(&self) -> (r: BatteryState)
        ensures
            r == self.value(),
    {
        read_slot(&self.sender)
    }

    /// A receiver on which every later `store` is announced.
    pub fn receiver(&self) -> watch::Receiver<BatteryState> {
        open_receiver(&self.sender)
    }
}

/// A last-value-wins broadcast of a battery state.
pub struct BatteryPushButton {
    pub name: String,
    pub slot: StateSlot,
}

/// What a new observer starts from: the state current when it subscribed,
/// and a receiver on which every later `set_state` is announced.
pub struct BatteryObserver {
    pub first: BatteryState,
    pub receiver: watch::Receiver<BatteryState>,
}

impl BatteryPushButton {
    /// The current state held by the button.
    pub open spec fn state(&self) -> BatteryState {
        self.slot.value()
    }

    /// The button's name.
    pub open spec fn name_view(&self) -> Seq<char> {
        self.name@
    }

    pub fn new(name: &str, initial_state: BatteryState) -> (r: Self)
        ensures
            r.name@ == name@,
            r.state() == initial_state,
    {
        BatteryPushButton { name: name.to_owned(), slot: StateSlot::new(initial_state) }
    }

    /// Overwrites the state; an equal value still counts as a new write.
    pub fn set_state(&mut self, new_state: BatteryState)
        ensures
            final(self).state() == new_state,
            final(self).name == old(self).name,
    {
        self.slot.store(new_state);
    }

    /// Reads the current state without waiting.
    pub fn get_state(&self) -> (r: BatteryState)
        ensures
            r == self.state(),
    {
        self.slot.read()
    }

    /// A new observer, whose first observation is the current state.
    pub fn subscribe(&self) -> (r: BatteryObserver)
        ensures
            r.first == self.state(),
    {
        let first = self.slot.read();
        let receiver = self.slot.receiver();
        BatteryObserver { first, receiver }
    }
}

/// Last value wins: once the state has been set to `Auto` and then to `Off`,
/// an observer that subscribes afterwards sees `Off` first, never `Auto`.
pub proof fn lemma_late_observer_sees_last_write(
    after_on: BatteryPushButton,
    after_off: BatteryPushButton,
    observer: BatteryObserver,
)
    requires
        after_on.state() == BatteryState::Auto,
        after_off.state() == BatteryState::Off,
        observer.first == after_off.state(),
    ensures
        observer.first == BatteryState::Off,
        observer.first != after_on.state(),
{
}

} // verus!
