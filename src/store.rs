use vstd::prelude::*;

use crate::message::{models, size_of, MessageModel, StoredMessage};

verus! {

/// Limits that a store is created with.
#[derive(Clone, Copy, Debug, PartialEq, Eq)]
pub struct StoreConfig {
    /// Largest body that a single message may have.
    pub max_item_bytes: usize,
    /// Most messages held at once.
    pub max_count: usize,
    /// Most bytes of bodies held at once.
    pub max_total_bytes: usize,
}

/// What a successful insertion did.
#[derive(Clone, Copy, Debug, PartialEq, Eq)]
pub enum InsertOutcome {
    /// The message was admitted (possibly after evicting lower-ranked ones).
    Stored,
    /// A message with the same id was already held; nothing changed.
    AlreadyPresent,
}

/// Why an insertion was refused.
#[derive(Clone, Copy, Debug, PartialEq, Eq)]
pub enum StoreError {
    /// The message expires no later than it was stored.
    Validation,
    /// The body exceeds the per-item limit.
    TooLarge,
    /// No space, and no held message ranks below the new one.
    StoreFull,
}

/// Number of messages in `s` whose priority is at least `p`.
pub open spec fn count_at_least(s: Seq<MessageModel>, p: int) -> nat
    decreases s.len(),
{
    if s.len() == 0 {
        0
    } else {
        count_at_least(s.drop_last(), p) + if s.last().priority >= p { 1nat } else { 0nat }
    }
}

/// Total body bytes of the messages in `s` whose priority is at least `p`.
pub open spec fn bytes_at_least(s: Seq<MessageModel>, p: int) -> nat
    decreases s.len(),
{
    if s.len() == 0 {
        0
    } else {
        bytes_at_least(s.drop_last(), p) + if s.last().priority >= p { size_of(s.last()) } else { 0nat }
    }
}

/// Total body bytes of all messages in `s`.
pub open spec fn bytes_of(s: Seq<MessageModel>) -> nat {
    bytes_at_least(s, 0)
}

/// Messages are ordered oldest first.
pub open spec fn sorted_by_time(s: Seq<MessageModel>) -> bool {
    forall|i: int, j: int| 0 <= i < j < s.len() ==> s[i].stored_at <= s[j].stored_at
}

/// No two messages share an id.
pub open spec fn unique_ids(s: Seq<MessageModel>) -> bool {
    forall|i: int, j: int| 0 <= i < s.len() && 0 <= j < s.len() && i != j ==> s[i].id != s[j].id
}

pub open spec fn has_id(s: Seq<MessageModel>, id: u64) -> bool {
    exists|i: int| 0 <= i < s.len() && s[i].id == id
}

/// A message that a store may hold under `c`.
pub open spec fn admissible(m: MessageModel, c: StoreConfig) -> bool {
    m.stored_at < m.expires_at && size_of(m) <= c.max_item_bytes
}

/// `m` can be added to `s` without exceeding the ceilings of `c`.
pub open spec fn fits(s: Seq<MessageModel>, m: MessageModel, c: StoreConfig) -> bool {
    s.len() + 1 <= c.max_count && bytes_of(s) + size_of(m) <= c.max_total_bytes
}

/// Index of the message that is evicted first: the oldest among those of
/// lowest priority.
pub open spec fn victim(s: Seq<MessageModel>) -> int
    decreases s.len(),
{
    if s.len() <= 1 {
        0
    } else {
        let j = victim(s.drop_last());
        if s.last().priority < s[j].priority {
            s.len() - 1
        } else {
            j
        }
    }
}

/// Evicts victims from `s`, as long as they rank below `m`, until `m` fits.
/// `None` when `m` cannot be made to fit that way.
pub open spec fn evict_for(s: Seq<MessageModel>, m: MessageModel, c: StoreConfig) -> Option<
    Seq<MessageModel>,
>
    decreases s.len(),
    via evict_for_decreases
{
    if fits(s, m, c) {
        Some(s)
    } else if s.len() > 0 && s[victim(s)].priority < m.priority {
        evict_for(s.remove(victim(s)), m, c)
    } else {
        None
    }
}

#[via_fn]
proof fn evict_for_decreases(s: Seq<MessageModel>, m: MessageModel, c: StoreConfig) {
    if s.len() > 0 {
        lemma_victim(s);
    }
}

/// Position at which a message stored at `t` goes: after every message
/// stored at or before `t`.
pub open spec fn time_pos(s: Seq<MessageModel>, t: u64) -> int
    decreases s.len(),
{
    if s.len() == 0 {
        0
    } else if s.last().stored_at <= t {
        s.len() as int
    } else {
        time_pos(s.drop_last(), t)
    }
}

pub open spec fn insert_by_time(s: Seq<MessageModel>, m: MessageModel) -> Seq<MessageModel> {
    s.insert(time_pos(s, m.stored_at), m)
}

/// Result and new contents of inserting `m` into a store holding `s`.
pub open spec fn insert_spec(s: Seq<MessageModel>, m: MessageModel, c: StoreConfig) -> (
    Result<InsertOutcome, StoreError>,
    Seq<MessageModel>,
) {
    if has_id(s, m.id) {
        (Ok(InsertOutcome::AlreadyPresent), s)
    } else if m.expires_at <= m.stored_at {
        (Err(StoreError::Validation), s)
    } else if size_of(m) > c.max_item_bytes {
        (Err(StoreError::TooLarge), s)
    } else {
        match evict_for(s, m, c) {
            Some(t) => (Ok(InsertOutcome::Stored), insert_by_time(t, m)),
            None => (Err(StoreError::StoreFull), s),
        }
    }
}

// ---------------------------------------------------------------------------
// Lemmas on the counting functions.

pub proof fn lemma_counts_remove(s: Seq<MessageModel>, i: int, p: int)
    requires
        0 <= i < s.len(),
    ensures
        count_at_least(s.remove(i), p) + (if s[i].priority >= p { 1nat } else { 0nat })
            == count_at_least(s, p),
        bytes_at_least(s.remove(i), p) + (if s[i].priority >= p { size_of(s[i]) } else { 0nat })
            == bytes_at_least(s, p),
    decreases s.len(),
{
    if i == s.len() - 1 {
        assert(s.remove(i) =~= s.drop_last());
    } else {
        lemma_counts_remove(s.drop_last(), i, p);
        assert(s.remove(i).drop_last() =~= s.drop_last().remove(i));
        assert(s.remove(i).last() == s.last());
    }
}

pub proof fn lemma_counts_insert(s: Seq<MessageModel>, i: int, m: MessageModel, p: int)
    requires
        0 <= i <= s.len(),
    ensures
        count_at_least(s.insert(i, m), p) == count_at_least(s, p) + (if m.priority >= p { 1nat } else { 0nat }),
        bytes_at_least(s.insert(i, m), p) == bytes_at_least(s, p) + (if m.priority >= p { size_of(m) } else { 0nat }),
{
    lemma_counts_remove(s.insert(i, m), i, p);
    assert(s.insert(i, m).remove(i) =~= s);
}

pub proof fn lemma_counts_bounded(s: Seq<MessageModel>, p: int)
    ensures
        count_at_least(s, p) <= count_at_least(s, 0),
        bytes_at_least(s, p) <= bytes_at_least(s, 0),
        count_at_least(s, 0) == s.len(),
    decreases s.len(),
{
    if s.len() > 0 {
        lemma_counts_bounded(s.drop_last(), p);
    }
}

pub proof fn lemma_counts_all_high(s: Seq<MessageModel>, p: int)
    requires
        p <= 0 || forall|k: int| 0 <= k < s.len() ==> s[k].priority >= p,
    ensures
        count_at_least(s, p) == count_at_least(s, 0),
        bytes_at_least(s, p) == bytes_at_least(s, 0),
    decreases s.len(),
{
    if s.len() > 0 {
        lemma_counts_all_high(s.drop_last(), p);
    }
}

/// The victim is the first message of lowest priority.
pub proof fn lemma_victim(s: Seq<MessageModel>)
    requires
        s.len() > 0,
    ensures
        0 <= victim(s) < s.len(),
        forall|k: int| 0 <= k < s.len() ==> s[victim(s)].priority <= #[trigger] s[k].priority,
        forall|k: int| 0 <= k < victim(s) ==> s[victim(s)].priority < #[trigger] s[k].priority,
    decreases s.len(),
{
    if s.len() > 1 {
        let d = s.drop_last();
        lemma_victim(d);
        assert forall|k: int| 0 <= k < d.len() implies d[k] == s[k] by {}
    }
}

} // verus!

verus! {

/// What a well-formed store guarantees of its contents under limits `c`.
pub open spec fn store_inv(s: Seq<MessageModel>, c: StoreConfig) -> bool {
    &&& sorted_by_time(s)
    &&& unique_ids(s)
    &&& forall|i: int| 0 <= i < s.len() ==> admissible(#[trigger] s[i], c)
    &&& s.len() <= c.max_count
    &&& bytes_of(s) <= c.max_total_bytes
}

/// `m` fits once every message ranking below it is gone.
pub open spec fn fits_after_eviction(s: Seq<MessageModel>, m: MessageModel, c: StoreConfig) -> bool {
    count_at_least(s, m.priority as int) + 1 <= c.max_count
        && bytes_at_least(s, m.priority as int) + size_of(m) <= c.max_total_bytes
}

pub proof fn lemma_evict_for_some(s: Seq<MessageModel>, m: MessageModel, c: StoreConfig)
    ensures
        evict_for(s, m, c) is Some <==> fits_after_eviction(s, m, c),
    decreases s.len(),
{
    let p = m.priority as int;
    lemma_counts_bounded(s, p);
    if fits(s, m, c) {
    } else if s.len() > 0 && s[victim(s)].priority < m.priority {
        lemma_victim(s);
        lemma_counts_remove(s, victim(s), p);
        lemma_evict_for_some(s.remove(victim(s)), m, c);
    } else if s.len() > 0 {
        lemma_victim(s);
        lemma_counts_all_high(s, p);
    }
}

/// Whatever `evict_for` leaves is what `s` held, less some messages.
pub proof fn lemma_evict_for_sub(s: Seq<MessageModel>, m: MessageModel, c: StoreConfig)
    requires
        store_inv(s, c),
        evict_for(s, m, c) is Some,
    ensures
        store_inv(evict_for(s, m, c)->Some_0, c),
        fits(evict_for(s, m, c)->Some_0, m, c),
        forall|x: MessageModel| evict_for(s, m, c)->Some_0.contains(x) ==> s.contains(x),
    decreases s.len(),
{
    if !fits(s, m, c) {
        lemma_victim(s);
        let t = s.remove(victim(s));
        lemma_remove_inv(s, victim(s), c);
        lemma_evict_for_sub(t, m, c);
        assert forall|x: MessageModel| t.contains(x) implies s.contains(x) by {
            let k = choose|k: int| 0 <= k < t.len() && t[k] == x;
            if k < victim(s) {
                assert(s[k] == x);
            } else {
                assert(s[k + 1] == x);
            }
        }
    }
}

pub proof fn lemma_remove_inv(s: Seq<MessageModel>, i: int, c: StoreConfig)
    requires
        store_inv(s, c),
        0 <= i < s.len(),
    ensures
        store_inv(s.remove(i), c),
{
    lemma_counts_remove(s, i, 0);
    let t = s.remove(i);
    assert forall|a: int, b: int| 0 <= a < b < t.len() implies t[a].stored_at <= t[b].stored_at by {
        let a0 = if a < i { a } else { a + 1 };
        let b0 = if b < i { b } else { b + 1 };
        assert(s[a0].stored_at <= s[b0].stored_at);
    }
    assert forall|a: int, b: int| 0 <= a < t.len() && 0 <= b < t.len() && a != b implies t[a].id != t[b].id by {
        let a0 = if a < i { a } else { a + 1 };
        let b0 = if b < i { b } else { b + 1 };
        assert(s[a0].id != s[b0].id);
    }
    assert forall|a: int| 0 <= a < t.len() implies admissible(#[trigger] t[a], c) by {
        let a0 = if a < i { a } else { a + 1 };
        assert(admissible(s[a0], c));
    }
}

/// For a sorted sequence, `time_pos` splits it into the messages stored at or
/// before `t` and those stored after.
pub proof fn lemma_time_pos(s: Seq<MessageModel>, t: u64)
    requires
        sorted_by_time(s),
    ensures
        0 <= time_pos(s, t) <= s.len(),
        forall|j: int| 0 <= j < time_pos(s, t) ==> s[j].stored_at <= t,
        forall|j: int| time_pos(s, t) <= j < s.len() ==> s[j].stored_at > t,
    decreases s.len(),
{
    if s.len() > 0 && s.last().stored_at > t {
        let d = s.drop_last();
        lemma_time_pos(d, t);
        assert forall|j: int| 0 <= j < d.len() implies d[j] == s[j] by {}
    }
}

pub proof fn lemma_insert_inv(s: Seq<MessageModel>, m: MessageModel, c: StoreConfig)
    requires
        store_inv(s, c),
        !has_id(s, m.id),
        admissible(m, c),
        fits(s, m, c),
    ensures
        store_inv(insert_by_time(s, m), c),
        insert_by_time(s, m).len() == s.len() + 1,
        forall|x: MessageModel| insert_by_time(s, m).contains(x) <==> (x == m || s.contains(x)),
{
    let pos = time_pos(s, m.stored_at);
    lemma_time_pos(s, m.stored_at);
    lemma_counts_insert(s, pos, m, 0);
    let t = s.insert(pos, m);
    assert forall|a: int, b: int| 0 <= a < b < t.len() implies t[a].stored_at <= t[b].stored_at by {
        if a < pos && b > pos {
            assert(s[a].stored_at <= s[b - 1].stored_at);
        }
    }
    assert forall|a: int, b: int| 0 <= a < t.len() && 0 <= b < t.len() && a != b implies t[a].id != t[b].id by {
        let a0 = if a < pos { a } else { a - 1 };
        let b0 = if b < pos { b } else { b - 1 };
        if a == pos {
            assert(s[b0].id != m.id);
        } else if b == pos {
            assert(s[a0].id != m.id);
        }
    }
    assert forall|a: int| 0 <= a < t.len() implies admissible(#[trigger] t[a], c) by {
        if a > pos {
            assert(admissible(s[a - 1], c));
        }
    }
    assert forall|x: MessageModel| t.contains(x) <==> (x == m || s.contains(x)) by {
        if t.contains(x) {
            let k = choose|k: int| 0 <= k < t.len() && t[k] == x;
            if k < pos {
                assert(s[k] == x);
            } else if k > pos {
                assert(s[k - 1] == x);
            }
        }
        if x == m {
            assert(t[pos] == x);
        }
        if s.contains(x) {
            let k = choose|k: int| 0 <= k < s.len() && s[k] == x;
            if k < pos {
                assert(t[k] == x);
            } else {
                assert(t[k + 1] == x);
            }
        }
    }
}

} // verus!

verus! {

/// A bounded collection of messages awaiting delivery, oldest first.
pub struct MessageStore {
    config: StoreConfig,
    entries: Vec<StoredMessage>,
    total_bytes: usize,
}

impl View for MessageStore {
    type V = Seq<MessageModel>;

    closed spec fn view(&self) -> Seq<MessageModel> {
        models(self.entries@)
    }
}

pub proof fn lemma_bytes_prefix(s: Seq<MessageModel>, i: int, p: int)
    requires
        0 <= i <= s.len(),
    ensures
        bytes_at_least(s.subrange(0, i), p) <= bytes_at_least(s, p),
        count_at_least(s.subrange(0, i), p) <= i,
    decreases s.len() - i,
{
    lemma_counts_bounded(s.subrange(0, i), p);
    if i < s.len() {
        lemma_bytes_prefix(s, i + 1, p);
        assert(s.subrange(0, i + 1).drop_last() =~= s.subrange(0, i));
    } else {
        assert(s.subrange(0, i) =~= s);
    }
}

impl MessageStore {
    /// The limits the store was created with.
    pub closed spec fn limits(&self) -> StoreConfig {
        self.config
    }

    pub open spec fn wf(&self) -> bool {
        store_inv(self@, self.limits()) && self.counters_ok()
    }

    pub closed spec fn counters_ok(&self) -> bool {
        self.total_bytes == bytes_of(self@)
    }

    /// An empty store with the given limits.
    pub fn new(config: StoreConfig) -> (r: MessageStore)
        ensures
            r.wf(),
            r.limits() == config,
            r@ == Seq::<MessageModel>::empty(),
    {
        let r = MessageStore { config, entries: Vec::new(), total_bytes: 0 };
        assert(r@ =~= Seq::<MessageModel>::empty());
        r
    }

    pub fn config(&self) -> (r: StoreConfig)
        ensures
            r == self.limits(),
    {
        self.config
    }

    /// Number of messages held.
    pub fn len(&self) -> (r: usize)
        ensures
            r == self@.len(),
    {
        self.entries.len()
    }

    /// Total body bytes held.
    pub fn total_bytes(&self) -> (r: usize)
        requires
            self.wf(),
        ensures
            r == bytes_of(self@),
    {
        self.total_bytes
    }

    /// Whether a message with this id is held.
    pub fn contains_id(&self, id: u64) -> (r: bool)
        ensures
            r == has_id(self@, id),
    {
        let mut i: usize = 0;
        while i < self.entries.len()
            invariant
                0 <= i <= self.entries.len(),
                forall|k: int| 0 <= k < i ==> self@[k].id != id,
            decreases self.entries.len() - i,
        {
            if self.entries[i].id == id {
                assert(self@[i as int].id == id);
                return true;
            }
            i += 1;
        }
        false
    }

    /// Count and bytes of the messages whose priority is at least `p`.
    fn totals_at_least(&self, p: u8) -> (r: (usize, usize))
        requires
            self.wf(),
        ensures
            r.0 == count_at_least(self@, p as int),
            r.1 == bytes_at_least(self@, p as int),
    {
        let ghost s = self@;
        let mut count: usize = 0;
        let mut bytes: usize = 0;
        let mut i: usize = 0;
        while i < self.entries.len()
            invariant
                s == self@,
                self.wf(),
                0 <= i <= s.len(),
                count == count_at_least(s.subrange(0, i as int), p as int),
                bytes == bytes_at_least(s.subrange(0, i as int), p as int),
            decreases s.len() - i,
        {
            proof {
                assert(s.subrange(0, i + 1).drop_last() =~= s.subrange(0, i as int));
                lemma_bytes_prefix(s, i + 1, p as int);
                lemma_bytes_prefix(s, i + 1, 0);
                lemma_counts_bounded(s, p as int);
            }
            if self.entries[i].priority >= p {
                count = count + 1;
                bytes = bytes + self.entries[i].body.len();
            }
            i += 1;
        }
        assert(s.subrange(0, i as int) =~= s);
        (count, bytes)
    }

    /// Index of the first message of lowest priority.
    fn victim_index(&self) -> (r: usize)
        requires
            self@.len() > 0,
        ensures
            r == victim(self@),
    {
        let ghost s = self@;
        let mut best: usize = 0;
        let mut i: usize = 1;
        assert(s.subrange(0, 1).len() == 1);
        while i < self.entries.len()
            invariant
                s == self@,
                1 <= i <= s.len(),
                best < i,
                best == victim(s.subrange(0, i as int)),
            decreases s.len() - i,
        {
            assert(s.subrange(0, i + 1).drop_last() =~= s.subrange(0, i as int));
            if self.entries[i].priority < self.entries[best].priority {
                best = i;
            }
            i += 1;
        }
        assert(s.subrange(0, i as int) =~= s);
        best
    }

    /// Position at which a message stored at `t` is placed.
    fn time_position(&self, t: u64) -> (r: usize)
        ensures
            r == time_pos(self@, t),
            r <= self@.len(),
    {
        let ghost s = self@;
        let mut i: usize = self.entries.len();
        assert(s.subrange(0, i as int) =~= s);
        while i > 0 && self.entries[i - 1].stored_at > t
            invariant
                s == self@,
                0 <= i <= s.len(),
                time_pos(s, t) == time_pos(s.subrange(0, i as int), t),
            decreases i,
        {
            assert(s.subrange(0, i as int).last() == s[i - 1]);
            assert(s.subrange(0, i as int).drop_last() =~= s.subrange(0, i - 1));
            i -= 1;
        }
        i
    }

    /// Admits `msg`. A message whose id is already held leaves the store as it
    /// is. When the store is at a ceiling, the lowest-priority, then oldest,
    /// messages that rank strictly below `msg` are evicted until `msg` fits;
    /// if that cannot make room, nothing changes.
    pub fn insert(&mut self, msg: StoredMessage) -> (r: Result<InsertOutcome, StoreError>)
        requires
            old(self).wf(),
        ensures
            final(self).wf(),
            final(self).limits() == old(self).limits(),
            (r, final(self)@) == insert_spec(old(self)@, msg@, old(self).limits()),
    {
        let ghost s0 = self@;
        let ghost m = msg@;
        let ghost c = self.config;
        if self.contains_id(msg.id) {
            return Ok(InsertOutcome::AlreadyPresent);
        }
        if msg.expires_at <= msg.stored_at {
            return Err(StoreError::Validation);
        }
        let size = msg.body.len();
        if size > self.config.max_item_bytes {
            return Err(StoreError::TooLarge);
        }
        let (kept_count, kept_bytes) = self.totals_at_least(msg.priority);
        proof {
            lemma_evict_for_some(s0, m, c);
        }
        if kept_count >= self.config.max_count || size > self.config.max_total_bytes
            || kept_bytes > self.config.max_total_bytes - size {
            return Err(StoreError::StoreFull);
        }
        while !(self.entries.len() < self.config.max_count && self.total_bytes
            <= self.config.max_total_bytes - size)
            invariant
                self.wf(),
                self.config == c,
                size == size_of(m),
                size <= c.max_total_bytes,
                evict_for(self@, m, c) == evict_for(s0, m, c),
                evict_for(s0, m, c) is Some,
            decreases self@.len(),
        {
            let ghost s = self@;
            let v = self.victim_index();
            proof {
                lemma_victim(s);
                lemma_remove_inv(s, v as int, c);
                lemma_counts_remove(s, v as int, 0);
            }
            let removed = self.entries.remove(v);
            assert(self@ =~= s.remove(v as int));
            self.total_bytes = self.total_bytes - removed.body.len();
        }
        let pos = self.time_position(msg.stored_at);
        proof {
            lemma_evict_for_sub(s0, m, c);
            if has_id(self@, m.id) {
                let k = choose|k: int| 0 <= k < self@.len() && self@[k].id == m.id;
                assert(self@.contains(self@[k]));
                assert(s0.contains(self@[k]));
            }
            lemma_insert_inv(self@, m, c);
            lemma_counts_insert(self@, pos as int, m, 0);
        }
        let ghost s = self@;
        self.total_bytes = self.total_bytes + size;
        self.entries.insert(pos, msg);
        assert(self@ =~= s.insert(pos as int, m));
        Ok(InsertOutcome::Stored)
    }
}

} // verus!

verus! {

/// Which messages a query asks for, and how many of them at most.
#[derive(Clone, Copy, Debug, PartialEq, Eq)]
pub struct QueryFilter {
    /// Only messages for this recipient; `None` asks for every recipient.
    pub destination: Option<u64>,
    /// Only messages stored at or after this time.
    pub since: u64,
    /// Most messages returned.
    pub limit: usize,
    /// Most body bytes returned, in total.
    pub max_bytes: usize,
}

pub open spec fn selects(f: QueryFilter, m: MessageModel) -> bool {
    &&& f.since <= m.stored_at
    &&& match f.destination {
        Some(d) => m.destination == d,
        None => true,
    }
}

/// The messages of `s` that `f` selects, in order.
pub open spec fn matching(s: Seq<MessageModel>, f: QueryFilter) -> Seq<MessageModel>
    decreases s.len(),
{
    if s.len() == 0 {
        Seq::empty()
    } else if selects(f, s[0]) {
        seq![s[0]] + matching(s.drop_first(), f)
    } else {
        matching(s.drop_first(), f)
    }
}

/// The longest prefix of `s` with at most `limit` messages and at most
/// `max_bytes` body bytes.
pub open spec fn take_capped(s: Seq<MessageModel>, limit: nat, max_bytes: nat) -> Seq<MessageModel>
    decreases s.len(),
{
    if s.len() == 0 || limit == 0 || size_of(s[0]) > max_bytes {
        Seq::empty()
    } else {
        seq![s[0]] + take_capped(s.drop_first(), (limit - 1) as nat, (max_bytes - size_of(s[0])) as nat)
    }
}

pub open spec fn query_spec(s: Seq<MessageModel>, f: QueryFilter) -> Seq<MessageModel> {
    take_capped(matching(s, f), f.limit as nat, f.max_bytes as nat)
}

/// The messages of `s` that satisfy `keep`, in order.
pub open spec fn keep_where(s: Seq<MessageModel>, keep: spec_fn(MessageModel) -> bool) -> Seq<
    MessageModel,
>
    decreases s.len(),
{
    if s.len() == 0 {
        Seq::empty()
    } else if keep(s[0]) {
        seq![s[0]] + keep_where(s.drop_first(), keep)
    } else {
        keep_where(s.drop_first(), keep)
    }
}

/// Messages that have not expired at `now`.
pub open spec fn live_at(now: u64) -> spec_fn(MessageModel) -> bool {
    |m: MessageModel| now < m.expires_at
}

/// Messages whose id is not among `ids`.
pub open spec fn not_listed(ids: Seq<u64>) -> spec_fn(MessageModel) -> bool {
    |m: MessageModel| !ids.contains(m.id)
}

pub open spec fn sweep_spec(s: Seq<MessageModel>, now: u64) -> Seq<MessageModel> {
    keep_where(s, live_at(now))
}

pub open spec fn remove_spec(s: Seq<MessageModel>, ids: Seq<u64>) -> Seq<MessageModel> {
    keep_where(s, not_listed(ids))
}

proof fn lemma_cons_first<A>(x: A, t: Seq<A>)
    ensures
        (seq![x] + t)[0] == x,
        (seq![x] + t).drop_first() =~= t,
        (seq![x] + t).len() == t.len() + 1,
{
}

impl MessageStore {
    /// The messages that `f` selects, oldest first, cut at `f.limit` messages
    /// or at the first one that would take the total past `f.max_bytes`,
    /// whichever comes first.
    pub fn query(&self, f: &QueryFilter) -> (r: Vec<StoredMessage>)
        ensures
            models(r@) == query_spec(self@, *f),
    {
        let ghost s = self@;
        let n = self.entries.len();
        let mut out: Vec<StoredMessage> = Vec::new();
        let mut left_count: usize = f.limit;
        let mut left_bytes: usize = f.max_bytes;
        let mut done = false;
        let mut i: usize = 0;
        assert(s.subrange(0, n as int) =~= s);
        assert(models(out@) =~= Seq::<MessageModel>::empty());
        while i < n && !done
            invariant
                s == self@,
                n == s.len(),
                0 <= i <= n,
                !done ==> query_spec(s, *f) == models(out@) + take_capped(
                    matching(s.subrange(i as int, n as int), *f),
                    left_count as nat,
                    left_bytes as nat,
                ),
                done ==> query_spec(s, *f) == models(out@),
            decreases n - i, if done { 0int } else { 1int },
        {
            let ghost rest = s.subrange(i + 1, n as int);
            assert(s.subrange(i as int, n as int).drop_first() =~= rest);
            assert(s.subrange(i as int, n as int)[0] == s[i as int]);
            let ghost mr = matching(rest, *f);
            let m = &self.entries[i];
            let selected = m.stored_at >= f.since && match f.destination {
                Some(d) => m.destination == d,
                None => true,
            };
            if selected {
                proof {
                    lemma_cons_first(s[i as int], mr);
                }
                if left_count == 0 || m.body.len() > left_bytes {
                    done = true;
                    assert(models(out@) + Seq::<MessageModel>::empty() =~= models(out@));
                } else {
                    let ghost before = models(out@);
                    left_count = left_count - 1;
                    left_bytes = left_bytes - m.body.len();
                    out.push(m.clone());
                    assert(models(out@) =~= before.push(s[i as int]));
                    let ghost tail = take_capped(mr, left_count as nat, left_bytes as nat);
                    assert(before + (seq![s[i as int]] + tail) =~= before.push(s[i as int]) + tail);
                    i += 1;
                }
            } else {
                i += 1;
            }
        }
        if !done {
            assert(s.subrange(i as int, n as int) =~= Seq::<MessageModel>::empty());
            assert(models(out@) + Seq::<MessageModel>::empty() =~= models(out@));
        }
        out
    }
}

} // verus!

verus! {

proof fn lemma_keep_step(
    s: Seq<MessageModel>,
    i: int,
    keep: spec_fn(MessageModel) -> bool,
)
    requires
        0 <= i < s.len(),
    ensures
        keep(s[i]) ==> keep_where(s.subrange(i, s.len() as int), keep) == seq![s[i]]
            + keep_where(s.subrange(i + 1, s.len() as int), keep),
        !keep(s[i]) ==> keep_where(s.subrange(i, s.len() as int), keep) == keep_where(
            s.subrange(i + 1, s.len() as int),
            keep,
        ),
{
    assert(s.subrange(i, s.len() as int).drop_first() =~= s.subrange(i + 1, s.len() as int));
    assert(s.subrange(i, s.len() as int)[0] == s[i]);
}

impl MessageStore {
    /// Removes every message with `expires_at <= now`; returns how many went.
    pub fn sweep_expired(&mut self, now: u64) -> (r: usize)
        requires
            old(self).wf(),
        ensures
            final(self).wf(),
            final(self).limits() == old(self).limits(),
            final(self)@ == sweep_spec(old(self)@, now),
            r == old(self)@.len() - final(self)@.len(),
    {
        let ghost s0 = self@;
        let ghost keep = live_at(now);
        let mut removed: usize = 0;
        let mut i: usize = 0;
        assert(self@.subrange(0, 0) + self@.subrange(0, self@.len() as int) =~= self@);
        assert(self@.subrange(0, self@.len() as int) =~= self@);
        while i < self.entries.len()
            invariant
                self.wf(),
                self.config == old(self).config,
                0 <= i <= self@.len(),
                self@.len() + removed == s0.len(),
                s0.len() <= self.config.max_count,
                keep == live_at(now),
                keep_where(s0, keep) == self@.subrange(0, i as int) + keep_where(
                    self@.subrange(i as int, self@.len() as int),
                    keep,
                ),
            decreases self@.len() - i,
        {
            let ghost s = self@;
            proof {
                lemma_keep_step(s, i as int, keep);
            }
            if self.entries[i].expires_at <= now {
                proof {
                    lemma_remove_inv(s, i as int, self.config);
                    lemma_counts_remove(s, i as int, 0);
                }
                let gone = self.entries.remove(i);
                self.total_bytes = self.total_bytes - gone.body.len();
                removed = removed + 1;
                assert(self@ =~= s.remove(i as int));
                assert(self@.subrange(0, i as int) =~= s.subrange(0, i as int));
                assert(self@.subrange(i as int, self@.len() as int) =~= s.subrange(
                    i + 1,
                    s.len() as int,
                ));
            } else {
                assert(s.subrange(0, i as int) + (seq![s[i as int]] + keep_where(
                    s.subrange(i + 1, s.len() as int),
                    keep,
                )) =~= s.subrange(0, i + 1) + keep_where(s.subrange(i + 1, s.len() as int), keep));
                i += 1;
            }
        }
        assert(self@.subrange(0, i as int) =~= self@);
        assert(keep_where(self@.subrange(i as int, self@.len() as int), keep) =~= Seq::<
            MessageModel,
        >::empty());
        assert(self@ + Seq::<MessageModel>::empty() =~= self@);
        removed
    }

    /// Removes the messages whose id is listed; ids that are not held are
    /// ignored. Returns how many went.
    pub fn remove(&mut self, ids: &[u64]) -> (r: usize)
        requires
            old(self).wf(),
        ensures
            final(self).wf(),
            final(self).limits() == old(self).limits(),
            final(self)@ == remove_spec(old(self)@, ids@),
            r == old(self)@.len() - final(self)@.len(),
    {
        let ghost s0 = self@;
        let ghost keep = not_listed(ids@);
        let mut removed: usize = 0;
        let mut i: usize = 0;
        assert(self@.subrange(0, 0) + self@.subrange(0, self@.len() as int) =~= self@);
        assert(self@.subrange(0, self@.len() as int) =~= self@);
        while i < self.entries.len()
            invariant
                self.wf(),
                self.config == old(self).config,
                0 <= i <= self@.len(),
                self@.len() + removed == s0.len(),
                s0.len() <= self.config.max_count,
                keep == not_listed(ids@),
                keep_where(s0, keep) == self@.subrange(0, i as int) + keep_where(
                    self@.subrange(i as int, self@.len() as int),
                    keep,
                ),
            decreases self@.len() - i,
        {
            let ghost s = self@;
            proof {
                lemma_keep_step(s, i as int, keep);
            }
            let id = self.entries[i].id;
            let mut listed = false;
            let mut j: usize = 0;
            while j < ids.len()
                invariant
                    0 <= j <= ids@.len(),
                    listed == exists|k: int| 0 <= k < j && ids@[k] == id,
                decreases ids@.len() - j,
            {
                if ids[j] == id {
                    listed = true;
                }
                j += 1;
            }
            assert(listed == ids@.contains(id));
            if listed {
                proof {
                    lemma_remove_inv(s, i as int, self.config);
                    lemma_counts_remove(s, i as int, 0);
                }
                let gone = self.entries.remove(i);
                self.total_bytes = self.total_bytes - gone.body.len();
                removed = removed + 1;
                assert(self@ =~= s.remove(i as int));
                assert(self@.subrange(0, i as int) =~= s.subrange(0, i as int));
                assert(self@.subrange(i as int, self@.len() as int) =~= s.subrange(
                    i + 1,
                    s.len() as int,
                ));
            } else {
                assert(s.subrange(0, i as int) + (seq![s[i as int]] + keep_where(
                    s.subrange(i + 1, s.len() as int),
                    keep,
                )) =~= s.subrange(0, i + 1) + keep_where(s.subrange(i + 1, s.len() as int), keep));
                i += 1;
            }
        }
        assert(self@.subrange(0, i as int) =~= self@);
        assert(keep_where(self@.subrange(i as int, self@.len() as int), keep) =~= Seq::<
            MessageModel,
        >::empty());
        assert(self@ + Seq::<MessageModel>::empty() =~= self@);
        removed
    }
}

} // verus!
