use vstd::prelude::*;
use crate::dataref::{DataRef, SubscriptionDescriptor, UnresolvedDataref};
use crate::protocol::{
    ClientPhase, SUBSCRIBE_REQ_ID, SubscribeError, XPlaneClient, subscribe_frame,
};
use crate::registry::{DataRefRegistry, descriptor_view, known_subscriptions, unknown_names};

verus! {

/// Credentials that the login proxy forwards to the authentication server.
pub struct LoginRequest {
    pub email_or_username: String,
    pub password: String,
}

/// What the shell is told after a connection attempt.
pub struct XPlaneConnectionState {
    pub connected: bool,
    pub message: String,
}

/// The subscribe-and-stream flow: discovery fills the registry, the client
/// is connected, the known datarefs are subscribed to, and the read loop
/// routes updates through the registry. The owner performs each network
/// step and reports its result here.
pub struct ConnectToXPlaneUseCase {
    pub registry: DataRefRegistry,
    pub client: XPlaneClient,
}

impl ConnectToXPlaneUseCase {
    pub open spec fn wf(&self) -> bool {
        self.registry.wf()
    }

    pub fn new() -> (r: Self)
        ensures
            r.wf(),
            r.registry.len() == 1,
            r.registry.ids()[0] is None,
            r.client.phase == ClientPhase::Disconnected,
    {
        let registry = DataRefRegistry::new();
        assert(registry.ids()[0] == registry.datarefs@[0].id_of());
        ConnectToXPlaneUseCase { registry, client: XPlaneClient::new() }
    }

    /// Discovery answered with `records`.
    pub fn on_discovery(&mut self, records: Vec<DataRef>)
        requires
            old(self).wf(),
        ensures
            final(self).wf(),
            DataRefRegistry::resolves(old(self).registry, final(self).registry, records@),
            final(self).client == old(self).client,
    {
        self.registry.update_dataref_id(records);
    }

    /// The request that subscribes to every dataref whose id is known, and
    /// the datarefs skipped because theirs is not known yet.
    pub fn subscription(&mut self) -> (r: Result<(Vec<u8>, Vec<UnresolvedDataref>), SubscribeError>)
        requires
            old(self).wf(),
        ensures
            final(self).registry == old(self).registry,
            old(self).client.phase == ClientPhase::Disconnected ==> r
                == Err::<(Vec<u8>, Vec<UnresolvedDataref>), SubscribeError>(SubscribeError::NotConnected),
            old(self).client.phase != ClientPhase::Disconnected ==> (r matches Ok((frame, skipped)) && {
                &&& exists|ds: Seq<SubscriptionDescriptor>|
                    ds.map_values(|d: SubscriptionDescriptor| descriptor_view(d))
                        == known_subscriptions(old(self).registry.datarefs@)
                    && frame@ == subscribe_frame(SUBSCRIBE_REQ_ID, ds)
                &&& skipped@.map_values(|u: UnresolvedDataref| u.name@)
                    == unknown_names(old(self).registry.datarefs@)
            }),
    {
        let plan = self.registry.descriptors_to_subscribe();
        match self.client.subscribe(&plan.descriptors, SUBSCRIBE_REQ_ID) {
            Ok(frame) => Ok((frame, plan.unresolved)),
            Err(e) => Err(e),
        }
    }
}

} // verus!
