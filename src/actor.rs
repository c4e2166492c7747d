//! The decisions of the store-and-forward actor: which store requests are
//! admitted, and how a retrieval is answered in bounded batches. The actor
//! owns its store; requests reach it one at a time.

use vstd::prelude::*;

use crate::message::{models, size_of, MessageModel, StoredMessage};
use crate::store::{
    insert_spec, query_spec, take_capped, InsertOutcome, MessageStore, QueryFilter, StoreConfig,
    StoreError,
};

verus! {

/// Settings of the store-and-forward layer.
#[derive(Clone, Copy, Debug, PartialEq, Eq)]
pub struct SafConfig {
    pub store: StoreConfig,
    /// Time to live of a stored message whose request names none.
    pub default_ttl: u64,
    /// Most messages in one response batch (zero is taken as one).
    pub batch_max_count: usize,
    /// Most body bytes in one response batch (a larger single message still
    /// goes out, alone).
    pub batch_max_bytes: usize,
    /// How long a retrieval waits for its final batch.
    pub retrieval_timeout: u64,
    /// How many recent message ids the anti-replay window keeps.
    pub dedup_window: usize,
}

/// Errors of the store-and-forward layer.
#[derive(Clone, Copy, Debug, PartialEq, Eq, Structural)]
pub enum SafError {
    /// Malformed request: no destination, empty body, or no time to live.
    Validation,
    /// This node does not store messages for that destination.
    NotResponsible,
    /// The body exceeds the per-item limit.
    TooLarge,
    /// No space, and no held message ranks below the new one.
    StoreFull,
    /// The actor has shut down.
    Disconnected,
    /// The actor's mailbox is full; the caller may retry.
    Busy,
}

/// What the neighbourhood view says about a destination.
#[derive(Clone, Copy, Debug, PartialEq, Eq, Structural)]
pub enum Responsibility {
    /// The destination lies in this node's neighbourhood.
    Responsible,
    /// It does not.
    NotResponsible,
    /// The neighbourhood view could not be consulted.
    Unavailable,
}

/// A request to hold a message for a recipient.
pub struct StoreRequest {
    /// Content hash of the envelope.
    pub id: u64,
    pub destination: Option<u64>,
    pub origin: u64,
    pub body: Vec<u8>,
    pub priority: u8,
    /// Time to live; the configured default when absent.
    pub ttl: Option<u64>,
}

/// A request for the messages held for `requesting_key` since a time.
#[derive(Clone, Copy, Debug, PartialEq, Eq)]
pub struct RetrieveRequest {
    /// The recipient asked for; `None` when a storing neighbour asks for all.
    pub requesting_key: Option<u64>,
    pub since: u64,
    pub max_count: usize,
    pub max_bytes: usize,
}

/// One batch of a retrieval's answer.
pub struct RetrieveResponse {
    pub batch: Vec<StoredMessage>,
    pub is_final: bool,
}

pub open spec fn response_models(v: Seq<RetrieveResponse>) -> Seq<(Seq<MessageModel>, bool)> {
    v.map_values(|r: RetrieveResponse| (models(r.batch@), r.is_final))
}

/// Expiry time of a message stored at `now` with time to live `ttl`,
/// saturating at the largest time.
pub open spec fn expiry(now: u64, ttl: u64) -> u64 {
    if now + ttl > u64::MAX {
        u64::MAX
    } else {
        (now + ttl) as u64
    }
}

pub open spec fn store_error(e: StoreError) -> SafError {
    match e {
        StoreError::Validation => SafError::Validation,
        StoreError::TooLarge => SafError::TooLarge,
        StoreError::StoreFull => SafError::StoreFull,
    }
}

/// The message a store request becomes when admitted at `now`.
pub open spec fn admitted_message(
    id: u64,
    destination: u64,
    origin: u64,
    body: Seq<u8>,
    priority: u8,
    ttl: u64,
    now: u64,
) -> MessageModel {
    MessageModel { id, destination, origin, body, priority, stored_at: now, expires_at: expiry(now, ttl) }
}

/// Result and new store contents of a store request.
pub open spec fn store_request_spec(
    s: Seq<MessageModel>,
    c: SafConfig,
    id: u64,
    destination: Option<u64>,
    origin: u64,
    body: Seq<u8>,
    priority: u8,
    ttl: Option<u64>,
    now: u64,
    responsibility: Responsibility,
    direct: bool,
) -> (Result<InsertOutcome, SafError>, Seq<MessageModel>) {
    if destination is None || body.len() == 0 {
        (Err(SafError::Validation), s)
    } else if !direct && responsibility != Responsibility::Responsible {
        (Err(SafError::NotResponsible), s)
    } else {
        let ttl = match ttl {
            Some(t) => t,
            None => c.default_ttl,
        };
        let m = admitted_message(id, destination->Some_0, origin, body, priority, ttl, now);
        let (r, t) = insert_spec(s, m, c.store);
        (
            match r {
                Ok(o) => Ok(o),
                Err(e) => Err(store_error(e)),
            },
            t,
        )
    }
}

/// The query a retrieval request runs.
pub open spec fn filter_of(req: RetrieveRequest) -> QueryFilter {
    QueryFilter {
        destination: req.requesting_key,
        since: req.since,
        limit: req.max_count,
        max_bytes: req.max_bytes,
    }
}

/// Length of the first batch cut from `s`: as many messages as fit the
/// caps, but at least one.
pub open spec fn first_batch_len(s: Seq<MessageModel>, cnt: nat, b: nat) -> nat {
    let k = take_capped(s, cnt, b).len();
    if k == 0 && s.len() > 0 {
        1
    } else {
        k
    }
}

/// `s` cut into batches front to back, each marked final when it ends `s`.
pub open spec fn batches_of(s: Seq<MessageModel>, cnt: nat, b: nat) -> Seq<(Seq<MessageModel>, bool)>
    decreases s.len(),
{
    let k = first_batch_len(s, cnt, b);
    if s.len() == 0 {
        Seq::empty()
    } else if 1 <= k <= s.len() {
        seq![(s.subrange(0, k as int), k == s.len())] + batches_of(
            s.subrange(k as int, s.len() as int),
            cnt,
            b,
        )
    } else {
        seq![(s, true)]
    }
}

/// The responses that answer a retrieval whose result is `s`: its batches,
/// or one empty final batch when there is nothing.
pub open spec fn responses_spec(s: Seq<MessageModel>, cnt: nat, b: nat) -> Seq<
    (Seq<MessageModel>, bool),
> {
    if s.len() == 0 {
        seq![(Seq::<MessageModel>::empty(), true)]
    } else {
        batches_of(s, cnt, b)
    }
}

/// Cuts `msgs` into response batches of at most `cnt` messages and `b` body
/// bytes each (a message larger than `b` goes alone).
pub fn split_into_batches(msgs: &Vec<StoredMessage>, cnt: usize, b: usize) -> (r: Vec<RetrieveResponse>)
    ensures
        response_models(r@) == responses_spec(models(msgs@), cnt as nat, b as nat),
{
    let ghost s = models(msgs@);
    let n = msgs.len();
    let mut out: Vec<RetrieveResponse> = Vec::new();
    if n == 0 {
        out.push(RetrieveResponse { batch: Vec::new(), is_final: true });
        assert(models(out@[0].batch@) =~= Seq::<MessageModel>::empty());
        assert(response_models(out@) =~= responses_spec(s, cnt as nat, b as nat));
        return out;
    }
    let mut i: usize = 0;
    assert(s.subrange(0, n as int) =~= s);
    assert(response_models(out@) + batches_of(s, cnt as nat, b as nat) =~= batches_of(s, cnt as nat, b as nat));
    while i < n
        invariant
            n == msgs@.len(),
            s == models(msgs@),
            0 <= i <= n,
            s.len() > 0,
            response_models(out@) + batches_of(s.subrange(i as int, n as int), cnt as nat, b as nat)
                == batches_of(s, cnt as nat, b as nat),
        decreases n - i,
    {
        let ghost rest = s.subrange(i as int, n as int);
        // Find how many messages fit, as `take_capped` counts them.
        let mut j: usize = 0;
        let mut bytes: usize = 0;
        assert(rest.subrange(0, 0) + take_capped(rest.subrange(0, rest.len() as int), cnt as nat, b as nat) =~= take_capped(rest, cnt as nat, b as nat)) by {
            assert(rest.subrange(0, rest.len() as int) =~= rest);
        }
        while j < cnt && i + j < n && msgs[i + j].body.len() <= b - bytes
            invariant
                n == msgs@.len(),
                s == models(msgs@),
                rest == s.subrange(i as int, n as int),
                0 <= i < n,
                0 <= j <= cnt,
                i + j <= n,
                bytes <= b,
                take_capped(rest, cnt as nat, b as nat) == rest.subrange(0, j as int) + take_capped(
                    rest.subrange(j as int, rest.len() as int),
                    (cnt - j) as nat,
                    (b - bytes) as nat,
                ),
            decreases n - i - j,
        {
            let ghost t = rest.subrange(j as int, rest.len() as int);
            let ghost tail = take_capped(t.drop_first(), (cnt - j - 1) as nat, (b - bytes - size_of(t[0])) as nat);
            assert(t[0] == s[i + j]);
            assert(t.drop_first() =~= rest.subrange(j + 1, rest.len() as int));
            assert(rest.subrange(0, j as int) + (seq![t[0]] + tail) =~= rest.subrange(0, j + 1) + tail);
            bytes = bytes + msgs[i + j].body.len();
            j += 1;
        }
        proof {
            let t = rest.subrange(j as int, rest.len() as int);
            assert(take_capped(t, (cnt - j) as nat, (b - bytes) as nat) =~= Seq::<MessageModel>::empty());
            assert(rest.subrange(0, j as int) + Seq::<MessageModel>::empty() =~= rest.subrange(0, j as int));
        }
        let k: usize = if j == 0 { 1 } else { j };
        let mut batch: Vec<StoredMessage> = Vec::new();
        let mut x: usize = 0;
        while x < k
            invariant
                n == msgs@.len(),
                s == models(msgs@),
                0 <= i < n,
                1 <= k <= n - i,
                0 <= x <= k,
                models(batch@) == s.subrange(i as int, i + x),
            decreases k - x,
        {
            let ghost before = models(batch@);
            let c = msgs[i + x].clone();
            assert(c@ == s[i + x]);
            batch.push(c);
            assert(models(batch@) =~= before.push(s[i + x]));
            assert(models(batch@) =~= s.subrange(i as int, i + x + 1));
            x += 1;
        }
        let ghost before = response_models(out@);
        let is_final = i + k == n;
        out.push(RetrieveResponse { batch, is_final });
        proof {
            assert(rest.subrange(0, k as int) =~= s.subrange(i as int, i + k));
            assert(rest.subrange(k as int, rest.len() as int) =~= s.subrange(i + k, n as int));
            assert(response_models(out@) =~= before.push((s.subrange(i as int, i + k), is_final)));
            let nxt = batches_of(s.subrange(i + k, n as int), cnt as nat, b as nat);
            assert(before + (seq![(s.subrange(i as int, i + k), is_final)] + nxt) =~= response_models(out@) + nxt);
        }
        i = i + k;
    }
    assert(batches_of(s.subrange(n as int, n as int), cnt as nat, b as nat) =~= Seq::<(Seq<MessageModel>, bool)>::empty());
    assert(response_models(out@) + Seq::<(Seq<MessageModel>, bool)>::empty() =~= response_models(out@));
    out
}

} // verus!

verus! {

/// Sole owner of the message store; every request goes through it.
pub struct SafActor {
    config: SafConfig,
    store: MessageStore,
}

impl SafActor {
    pub closed spec fn settings(&self) -> SafConfig {
        self.config
    }

    /// What the actor's store holds.
    pub closed spec fn held(&self) -> Seq<MessageModel> {
        self.store@
    }

    pub closed spec fn wf(&self) -> bool {
        self.store.wf() && self.store.limits() == self.config.store
    }

    /// An actor with an empty store.
    pub fn new(config: SafConfig) -> (r: SafActor)
        ensures
            r.wf(),
            r.settings() == config,
            r.held() == Seq::<MessageModel>::empty(),
    {
        SafActor { config, store: MessageStore::new(config.store) }
    }

    pub fn config(&self) -> (r: SafConfig)
        ensures
            r == self.settings(),
    {
        self.config
    }

    /// Number of messages held and their total body bytes.
    pub fn stats(&self) -> (r: (usize, usize))
        requires
            self.wf(),
        ensures
            r.0 == self.held().len(),
            r.1 == crate::store::bytes_of(self.held()),
    {
        (self.store.len(), self.store.total_bytes())
    }

    /// Handles a store request received at `now`. It is checked first (a
    /// destination and a non-empty body), then admitted only when it came
    /// from a direct peer or the destination is in this node's
    /// neighbourhood; a view that cannot be consulted refuses it.
    pub fn handle_store(
        &mut self,
        req: StoreRequest,
        now: u64,
        responsibility: Responsibility,
        direct: bool,
    ) -> (r: Result<InsertOutcome, SafError>)
        requires
            old(self).wf(),
        ensures
            final(self).wf(),
            final(self).settings() == old(self).settings(),
            (r, final(self).held()) == store_request_spec(
                old(self).held(),
                old(self).settings(),
                req.id,
                req.destination,
                req.origin,
                req.body@,
                req.priority,
                req.ttl,
                now,
                responsibility,
                direct,
            ),
    {
        let destination = match req.destination {
            Some(d) => d,
            None => {
                return Err(SafError::Validation);
            },
        };
        if req.body.len() == 0 {
            return Err(SafError::Validation);
        }
        if !direct && responsibility != Responsibility::Responsible {
            return Err(SafError::NotResponsible);
        }
        let ttl = match req.ttl {
            Some(t) => t,
            None => self.config.default_ttl,
        };
        let expires_at = now.saturating_add(ttl);
        let msg = StoredMessage::new(
            req.id,
            destination,
            req.origin,
            req.body,
            req.priority,
            now,
            expires_at,
        );
        match self.store.insert(msg) {
            Ok(o) => Ok(o),
            Err(e) => Err(
                match e {
                    StoreError::Validation => SafError::Validation,
                    StoreError::TooLarge => SafError::TooLarge,
                    StoreError::StoreFull => SafError::StoreFull,
                },
            ),
        }
    }

    /// Answers a retrieval request: the messages it selects, oldest first,
    /// cut into bounded batches with the last marked final.
    pub fn handle_retrieve(&self, req: &RetrieveRequest) -> (r: Vec<RetrieveResponse>)
        requires
            self.wf(),
        ensures
            response_models(r@) == responses_spec(
                query_spec(self.held(), filter_of(*req)),
                self.settings().batch_max_count as nat,
                self.settings().batch_max_bytes as nat,
            ),
    {
        let f = QueryFilter {
            destination: req.requesting_key,
            since: req.since,
            limit: req.max_count,
            max_bytes: req.max_bytes,
        };
        let found = self.store.query(&f);
        split_into_batches(&found, self.config.batch_max_count, self.config.batch_max_bytes)
    }

    /// Removes the messages with the listed ids; returns how many went.
    pub fn handle_remove(&mut self, ids: &[u64]) -> (r: usize)
        requires
            old(self).wf(),
        ensures
            final(self).wf(),
            final(self).settings() == old(self).settings(),
            final(self).held() == crate::store::remove_spec(old(self).held(), ids@),
            r == old(self).held().len() - final(self).held().len(),
    {
        self.store.remove(ids)
    }

    /// Discards the messages that have expired at `now`; returns how many went.
    pub fn handle_sweep(&mut self, now: u64) -> (r: usize)
        requires
            old(self).wf(),
        ensures
            final(self).wf(),
            final(self).settings() == old(self).settings(),
            final(self).held() == crate::store::sweep_spec(old(self).held(), now),
            r == old(self).held().len() - final(self).held().len(),
    {
        self.store.sweep_expired(now)
    }
}

} // verus!
