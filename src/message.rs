use vstd::prelude::*;

verus! {

/// A message held on behalf of a recipient that is not reachable right now.
pub struct StoredMessage {
    /// Content hash of the envelope; unique within a store.
    pub id: u64,
    /// Addressing key of the intended recipient.
    pub destination: u64,
    /// Addressing key of the sender.
    pub origin: u64,
    /// Opaque serialized payload.
    pub body: Vec<u8>,
    /// Higher values rank higher when space runs out.
    pub priority: u8,
    /// Time of admission.
    pub stored_at: u64,
    /// Time from which the message may be discarded.
    pub expires_at: u64,
}

/// The mathematical value of a `StoredMessage`.
pub ghost struct MessageModel {
    pub id: u64,
    pub destination: u64,
    pub origin: u64,
    pub body: Seq<u8>,
    pub priority: u8,
    pub stored_at: u64,
    pub expires_at: u64,
}

impl View for StoredMessage {
    type V = MessageModel;

    open spec fn view(&self) -> MessageModel {
        MessageModel {
            id: self.id,
            destination: self.destination,
            origin: self.origin,
            body: self.body@,
            priority: self.priority,
            stored_at: self.stored_at,
            expires_at: self.expires_at,
        }
    }
}

/// Size in bytes that a message counts for against the store's limits.
pub open spec fn size_of(m: MessageModel) -> nat {
    m.body.len()
}

/// The models of a sequence of messages, in the same order.
pub open spec fn models(v: Seq<StoredMessage>) -> Seq<MessageModel> {
    v.map_values(|m: StoredMessage| m@)
}

impl StoredMessage {
    pub fn new(
        id: u64,
        destination: u64,
        origin: u64,
        body: Vec<u8>,
        priority: u8,
        stored_at: u64,
        expires_at: u64,
    ) -> (r: StoredMessage)
        ensures
            r@ == (MessageModel {
                id,
                destination,
                origin,
                body: body@,
                priority,
                stored_at,
                expires_at,
            }),
    {
        StoredMessage { id, destination, origin, body, priority, stored_at, expires_at }
    }

    /// Size in bytes of the message, as counted against the store's limits.
    pub fn size(&self) -> (r: usize)
        ensures
            r == size_of(self@),
    {
        self.body.len()
    }
}

impl Clone for StoredMessage {
    fn clone(&self) -> (r: Self)
        ensures
            r@ == self@,
    {
        let body = self.body.clone();
        assert(body@ =~= self.body@);
        StoredMessage {
            id: self.id,
            destination: self.destination,
            origin: self.origin,
            body,
            priority: self.priority,
            stored_at: self.stored_at,
            expires_at: self.expires_at,
        }
    }
}

} // verus!
