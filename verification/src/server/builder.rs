//! Configuring a server.

use crate::mask;
use crate::server::{Descriptor, Replicator};
use crate::server::system::{RemotePlayer, ServerSystem};
use crate::types;
use std::any::TypeId;
use std::marker::PhantomData;
use vstd::prelude::*;

verus! {

/// This type implements builder-pattern to configure [`ServerSystem`].
/// Allows adding new descriptors and setting remote player type.
pub struct ServerBuilder<P, R> {
    ids: Vec<TypeId>,
    marker: PhantomData<(P, R)>,
}

/// Marker type signals that remote player type is not set.
/// [`ServerBuilder`] starts with this type parameter in place where [`RemotePlayer`] is expected.
pub struct NoRemotePlayerType;

impl<P, R> ServerBuilder<P, R> {
    /// The descriptors that were added, in order.
    pub closed spec fn ids(self) -> Seq<TypeId> {
        self.ids@
    }
}

impl ServerBuilder<NoRemotePlayerType, ()> {
    /// Returns new un-configured [`ServerBuilder`].
    pub fn new() -> (builder: Self)
        ensures
            builder.ids() == Seq::<TypeId>::empty(),
    {
        ServerBuilder { ids: Vec::new(), marker: PhantomData }
    }
}

impl<R> ServerBuilder<NoRemotePlayerType, R> {
    /// Sets type of remote player.
    pub fn with_player<P: RemotePlayer>(self) -> (builder: ServerBuilder<P, R>)
        ensures
            builder.ids() == self.ids(),
    {
        ServerBuilder { ids: self.ids, marker: PhantomData }
    }
}

impl<P, R> ServerBuilder<P, R> {
    /// Adds a descriptor that is told from others by `id`; `None` where it was added before.
    pub fn with_descriptor_id<T: Descriptor>(self, id: TypeId) -> (builder: Option<
        ServerBuilder<P, (R, T)>,
    >)
        ensures
            builder is None <==> self.ids().contains(id),
            builder matches Some(builder) ==> builder.ids() == self.ids().push(id),
    {
        if types::holds(&self.ids, &id) {
            return None;
        }
        let mut ids = self.ids;
        ids.push(id);
        Some(ServerBuilder { ids, marker: PhantomData })
    }

    /// Adds component descriptor to manage state replication; `None` where it was added before.
    pub fn with_descriptor<T: Descriptor + 'static>(self) -> (builder: Option<
        ServerBuilder<P, (R, T)>,
    >)
        ensures
            exists|id: TypeId|
                {
                    &&& #[trigger] call_ensures(types::id_of::<T>, (), id)
                    &&& builder is None <==> self.ids().contains(id)
                    &&& builder matches Some(builder) ==> builder.ids() == self.ids().push(id)
                },
    {
        let id_of = types::id_of::<T>;
        self.with_descriptor_id::<T>(id_of())
    }
}

impl<P: RemotePlayer, R: Replicator> ServerBuilder<P, R> {
    /// Builds [`ServerSystem`] configured to use provided remote player and descriptors.
    ///
    /// Takes listener for accepting connections from clients.
    pub fn build<C, L>(&self, listener: L) -> (system: ServerSystem<C, L, P, R>)
        requires
            R::count() < mask::MASK_SLOTS,
        ensures
            system.wf(),
            system.link().source() == listener,
            system.link().step() == 0,
            system.link().clients().len() == 0,
            system.link().next_client_id() == 1,
            system.players().dom().is_empty(),
            system.id_gen().next() == 1,
            system.mapper()@.dom().is_empty(),
            system.replicas()@.len() == 0,
    {
        ServerSystem::new(listener)
    }
}

} // verus!
