use vstd::prelude::*;
use crate::battery::BatteryPushButton;
use crate::value::{BatteryState, Value, battery_state_of, convert_battery_state};

verus! {

/// One simulator variable as listed by the discovery endpoint.
pub struct DataRef {
    pub id: u64,
    pub name: String,
    pub is_writable: bool,
    pub value_type: String,
}

/// The discovery endpoint's envelope: `{"data": [...]}`.
pub struct DataRefResponse {
    pub data: Vec<DataRef>,
}

/// An older envelope of the discovery endpoint: `{"datarefs": [...]}`.
pub struct DataRefsResponse {
    pub datarefs: Vec<DataRef>,
}

/// What the streaming channel is asked to send for one dataref: its id and,
/// for an array dataref, the indices of interest.
pub struct SubscriptionDescriptor {
    pub id: u64,
    pub index: Option<Vec<u64>>,
}

/// A subscription was asked of a dataref whose id is not known yet.
pub struct UnresolvedDataref {
    pub name: String,
}

/// Name of the overhead-panel battery button array of the A320 family.
pub const BAT_OHP_ARRAY_NAME: &'static str = "AirbusFBW/BatOHPArray";

/// The battery button array: the two battery buttons of the overhead panel,
/// whose state is published through one push button.
pub struct AirbusFBWBatOHPArray {
    pub id: Option<u64>,
    pub name: String,
    pub battery: BatteryPushButton,
}

/// Any other dataref: the last value received is kept.
pub struct GenericDataRef {
    pub id: Option<u64>,
    pub name: String,
    pub last: Option<Value>,
}

/// The handler registered under one name: one variant per kind of dataref.
pub enum DataRefHandler {
    BatOHPArray(AirbusFBWBatOHPArray),
    Generic(GenericDataRef),
}

/// What every handler can do: describe its subscription, take the id that
/// discovery gave, and take in the values that the streaming channel sends.
pub trait DataRefBehavior: Sized {
    spec fn dataref_name(&self) -> Seq<char>;

    spec fn dataref_id(&self) -> Option<u64>;

    /// The indices that the handler subscribes to, for an array dataref.
    spec fn indices(&self) -> Option<Seq<u64>>;

    /// `after` is `self` with its id replaced by `id`.
    spec fn after_id(&self, after: Self, id: Option<u64>) -> bool;

    /// `after` is `self` once `v` has been taken in.
    spec fn after_process(&self, after: Self, v: Value) -> bool;

    /// The subscription for this dataref; an error while its id is unknown.
    fn get_object_to_subscribe(&self) -> (r: Result<SubscriptionDescriptor, UnresolvedDataref>)
        ensures
            match r {
                Ok(d) => {
                    &&& self.dataref_id() == Some(d.id)
                    &&& match d.index {
                        Some(v) => self.indices() == Some(v@),
                        None => self.indices() is None,
                    }
                },
                Err(e) => self.dataref_id() is None && e.name@ == self.dataref_name(),
            },
    ;

    /// Takes in one value from the streaming channel. A shape that the
    /// handler does not expect leaves its state as it was.
    fn process_socket_response(&mut self, value: Value)
        ensures
            old(self).after_process(*final(self), value),
            final(self).dataref_name() == old(self).dataref_name(),
            final(self).dataref_id() == old(self).dataref_id(),
    ;

    /// Records the id that discovery gave (or takes it away with `None`).
    fn set_id(&mut self, id: Option<u64>)
        ensures
            old(self).after_id(*final(self), id),
            final(self).dataref_name() == old(self).dataref_name(),
            final(self).dataref_id() == id,
    ;
}

impl AirbusFBWBatOHPArray {
    pub fn new() -> (r: Self)
        ensures
            r.id is None,
            r.name@ == BAT_OHP_ARRAY_NAME@,
            r.battery.state() == BatteryState::Unknown,
    {
        AirbusFBWBatOHPArray {
            id: None,
            name: BAT_OHP_ARRAY_NAME.to_owned(),
            battery: BatteryPushButton::new(BAT_OHP_ARRAY_NAME, BatteryState::Unknown),
        }
    }
}

impl DataRefHandler {
    pub open spec fn name_of(&self) -> Seq<char> {
        match self {
            DataRefHandler::BatOHPArray(a) => a.name@,
            DataRefHandler::Generic(g) => g.name@,
        }
    }

    pub open spec fn id_of(&self) -> Option<u64> {
        match self {
            DataRefHandler::BatOHPArray(a) => a.id,
            DataRefHandler::Generic(g) => g.id,
        }
    }

    /// The battery state that the handler publishes, if it publishes one.
    pub open spec fn battery_state(&self) -> Option<BatteryState> {
        match self {
            DataRefHandler::BatOHPArray(a) => Some(a.battery.state()),
            DataRefHandler::Generic(_) => None,
        }
    }

    /// `b` is `a` with its id replaced by `id`.
    pub open spec fn with_id(a: DataRefHandler, b: DataRefHandler, id: Option<u64>) -> bool {
        match (a, b) {
            (DataRefHandler::BatOHPArray(x), DataRefHandler::BatOHPArray(y)) =>
                y == (AirbusFBWBatOHPArray { id, ..x }),
            (DataRefHandler::Generic(x), DataRefHandler::Generic(y)) =>
                y == (GenericDataRef { id, ..x }),
            _ => false,
        }
    }

    /// `b` is `a` after `v` was processed: the battery array takes a single
    /// number as its new state and ignores an array; a generic dataref keeps
    /// `v` as its last value.
    pub open spec fn processed(a: DataRefHandler, b: DataRefHandler, v: Value) -> bool {
        match (a, b) {
            (DataRefHandler::BatOHPArray(x), DataRefHandler::BatOHPArray(y)) => {
                &&& y.id == x.id
                &&& y.name == x.name
                &&& y.battery.name_view() == x.battery.name_view()
                &&& match v {
                    Value::Single(bits) => y.battery.state() == battery_state_of(bits),
                    Value::Array(_) => y.battery == x.battery,
                }
            },
            (DataRefHandler::Generic(x), DataRefHandler::Generic(y)) =>
                y == (GenericDataRef { last: Some(v), ..x }),
            _ => false,
        }
    }

    /// The handler that a name gets when it is registered.
    pub fn for_name(name: &str) -> (r: Self)
        ensures
            r.name_of() == name@,
            r.id_of() is None,
            name@ == BAT_OHP_ARRAY_NAME@ ==> r.battery_state() == Some(BatteryState::Unknown),
            name@ != BAT_OHP_ARRAY_NAME@ ==> r is Generic && r->Generic_0.last is None,
    {
        let owned = name.to_owned();
        if owned == BAT_OHP_ARRAY_NAME.to_owned() {
            DataRefHandler::BatOHPArray(AirbusFBWBatOHPArray::new())
        } else {
            DataRefHandler::Generic(GenericDataRef { id: None, name: owned, last: None })
        }
    }

    pub fn name(&self) -> (r: &String)
        ensures
            r@ == self.name_of(),
    {
        match self {
            DataRefHandler::BatOHPArray(a) => &a.name,
            DataRefHandler::Generic(g) => &g.name,
        }
    }

    pub fn id(&self) -> (r: Option<u64>)
        ensures
            r == self.id_of(),
    {
        match self {
            DataRefHandler::BatOHPArray(a) => a.id,
            DataRefHandler::Generic(g) => g.id,
        }
    }

    /// The battery state currently published, for a battery handler.
    pub fn get_battery_state(&self) -> (r: Option<BatteryState>)
        ensures
            r == self.battery_state(),
    {
        match self {
            DataRefHandler::BatOHPArray(a) => Some(a.battery.get_state()),
            DataRefHandler::Generic(_) => None,
        }
    }
}

impl DataRefBehavior for DataRefHandler {
    open spec fn dataref_name(&self) -> Seq<char> {
        self.name_of()
    }

    open spec fn dataref_id(&self) -> Option<u64> {
        self.id_of()
    }

    open spec fn indices(&self) -> Option<Seq<u64>> {
        match self {
            DataRefHandler::BatOHPArray(_) => Some(seq![0u64, 1u64]),
            DataRefHandler::Generic(_) => None,
        }
    }

    open spec fn after_id(&self, after: Self, id: Option<u64>) -> bool {
        Self::with_id(*self, after, id)
    }

    open spec fn after_process(&self, after: Self, v: Value) -> bool {
        Self::processed(*self, after, v)
    }

    fn set_id(&mut self, id: Option<u64>) {
        match self {
            DataRefHandler::BatOHPArray(a) => {
                a.id = id;
            },
            DataRefHandler::Generic(g) => {
                g.id = id;
            },
        }
    }

    fn get_object_to_subscribe(&self) -> (r: Result<SubscriptionDescriptor, UnresolvedDataref>) {
        match self {
            DataRefHandler::BatOHPArray(a) => match a.id {
                Some(id) => Ok(SubscriptionDescriptor { id, index: Some(vec![0u64, 1u64]) }),
                None => Err(UnresolvedDataref { name: a.name.clone() }),
            },
            DataRefHandler::Generic(g) => match g.id {
                Some(id) => Ok(SubscriptionDescriptor { id, index: None }),
                None => Err(UnresolvedDataref { name: g.name.clone() }),
            },
        }
    }

    fn process_socket_response(&mut self, value: Value) {
        match self {
            DataRefHandler::BatOHPArray(a) => match value {
                Value::Single(bits) => {
                    let s = convert_battery_state(bits);
                    a.battery.set_state(s);
                },
                Value::Array(_) => {},
            },
            DataRefHandler::Generic(g) => {
                g.last = Some(value);
            },
        }
    }
}

} // verus!
