//! The store-and-forward stage of the inbound message pipeline. The stage
//! wraps whatever stage comes next; it classifies each inbound message and
//! either handles it or hands it on unchanged.

use vstd::prelude::*;

use crate::actor::SafConfig;
use crate::dedup::DedupWindow;
use crate::message::{models, StoredMessage};
use crate::retrieval::{fresh_spec, step, BatchReceipt, RetrievalEvent, RetrievalTracker};

verus! {

/// Wire tag of a store request.
pub const STORE_REQUEST_TAG: u8 = 1;

/// Wire tag of a retrieval request.
pub const RETRIEVE_REQUEST_TAG: u8 = 2;

/// Wire tag of a retrieval response.
pub const RETRIEVE_RESPONSE_TAG: u8 = 3;

/// Where the stage sends an inbound message.
#[derive(Clone, Copy, Debug, PartialEq, Eq, Structural)]
pub enum Route {
    /// The envelope failed validation; it goes no further.
    Drop,
    /// To the actor, as a store request.
    Store,
    /// To the actor, as a retrieval request.
    Retrieve,
    /// To the retrieval bookkeeping, as a response batch.
    Responses,
    /// Not a store-and-forward message: to the next stage, unchanged.
    Forward,
}

pub open spec fn route_spec(envelope_valid: bool, tag: u8) -> Route {
    if !envelope_valid {
        Route::Drop
    } else if tag == STORE_REQUEST_TAG {
        Route::Store
    } else if tag == RETRIEVE_REQUEST_TAG {
        Route::Retrieve
    } else if tag == RETRIEVE_RESPONSE_TAG {
        Route::Responses
    } else {
        Route::Forward
    }
}

/// Classifies an inbound message by its wire tag, once its envelope has
/// been checked.
pub fn route(envelope_valid: bool, tag: u8) -> (r: Route)
    ensures
        r == route_spec(envelope_valid, tag),
{
    if !envelope_valid {
        Route::Drop
    } else if tag == STORE_REQUEST_TAG {
        Route::Store
    } else if tag == RETRIEVE_REQUEST_TAG {
        Route::Retrieve
    } else if tag == RETRIEVE_RESPONSE_TAG {
        Route::Responses
    } else {
        Route::Forward
    }
}

/// Builds the store-and-forward stage around a next stage. `H` bundles the
/// handles the stage uses to reach its collaborators (the actor's requester,
/// the neighbourhood view, the peer list, the outbound sender and the
/// completion signal); each stage built gets its own clone of them.
pub struct MessageHandlerLayer<H> {
    pub config: SafConfig,
    pub handles: H,
}

/// The store-and-forward stage, wrapping `next`.
pub struct MessageHandlerMiddleware<S, H> {
    pub config: SafConfig,
    pub next: S,
    pub handles: H,
    /// Ids of the messages received lately through retrieval responses.
    pub seen: DedupWindow,
}

impl<H: Clone> MessageHandlerLayer<H> {
    pub fn new(config: SafConfig, handles: H) -> (r: Self)
        ensures
            r.config == config,
            r.handles == handles,
    {
        MessageHandlerLayer { config, handles }
    }

    /// The stage around `service`, with a fresh anti-replay window.
    pub fn layer<S>(&self, service: S) -> (r: MessageHandlerMiddleware<S, H>)
        ensures
            r.config == self.config,
            r.next == service,
            cloned(self.handles, r.handles),
            r.seen.wf(),
            r.seen.cap() == self.config.dedup_window,
            r.seen@ == Seq::<u64>::empty(),
    {
        MessageHandlerMiddleware {
            config: self.config,
            next: service,
            handles: self.handles.clone(),
            seen: DedupWindow::new(self.config.dedup_window),
        }
    }
}

impl<S, H> MessageHandlerMiddleware<S, H> {
    /// Where an inbound message goes.
    pub fn route(&self, envelope_valid: bool, tag: u8) -> (r: Route)
        ensures
            r == route_spec(envelope_valid, tag),
    {
        route(envelope_valid, tag)
    }

    /// Takes in a response batch for the retrieval that `tracker` follows,
    /// screening its messages through this stage's anti-replay window.
    pub fn on_response(
        &mut self,
        tracker: &mut RetrievalTracker,
        batch: &Vec<StoredMessage>,
        is_final: bool,
    ) -> (r: BatchReceipt)
        requires
            old(tracker).wf(),
            old(self).seen.wf(),
        ensures
            final(tracker).wf(),
            final(self).seen.wf(),
            final(self).seen.cap() == old(self).seen.cap(),
            final(self).config == old(self).config,
            final(self).next == old(self).next,
            final(self).handles == old(self).handles,
            (*final(tracker), r.signal) == step(*old(tracker), RetrievalEvent::Batch { is_final }),
            (models(r.fresh@), final(self).seen@) == fresh_spec(
                old(self).seen@,
                old(self).seen.cap(),
                models(batch@),
            ),
    {
        tracker.receive_batch(batch, is_final, &mut self.seen)
    }
}

} // verus!
