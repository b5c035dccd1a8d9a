//! The sender: the sending half of the transport, which holds no state of its
//! own and starts a [`Delivery`] for each message it is asked to send.

use crate::send::{Delivery, DeliveryView, SendAction};
use std::marker::PhantomData;
use vstd::prelude::*;

verus! {

/// The sending half of the TCP transport, for peers with ids of type `Id`,
/// messages of type `Data` and peer lists of type `PL` (with their error type `E`).
pub struct TCPsender<Id, Data, E, PL> {
    id: PhantomData<Id>,
    data: PhantomData<Data>,
    e: PhantomData<E>,
    pl: PhantomData<PL>,
}

impl<Id, Data, E, PL> TCPsender<Id, Data, E, PL> {
    /// A sender; making one cannot fail.
    pub fn new() -> (sender: Self) {
        TCPsender { id: PhantomData, data: PhantomData, e: PhantomData, pl: PhantomData }
    }

    /// Starts sending a message to the single peer at `peer_address`: the
    /// delivery connects there first.
    pub fn send<X>(&self, peer_address: String) -> (res: (Delivery<X>, SendAction<X>))
        ensures
            res.0@ == DeliveryView::<X>::start(seq![peer_address@]),
            res.0@.wf(),
            res.1@ == res.0@.asks(),
    {
        let mut targets: Vec<String> = Vec::new();
        targets.push(peer_address);
        let ghost addr = targets@[0]@;
        assert(targets@.map_values(|s: String| s@) == seq![addr]);
        Delivery::new(targets)
    }

    /// Starts sending a message to every peer of a peer list, given by their
    /// addresses in the list's order: the delivery serves them one after
    /// another and stops at the first failure. With no peer, it has already
    /// succeeded.
    pub fn broadcast<X>(&self, peer_addresses: Vec<String>) -> (res: (Delivery<X>, SendAction<X>))
        ensures
            res.0@ == DeliveryView::<X>::start(peer_addresses@.map_values(|s: String| s@)),
            res.0@.wf(),
            res.1@ == res.0@.asks(),
    {
        Delivery::new(peer_addresses)
    }
}

} // verus!
