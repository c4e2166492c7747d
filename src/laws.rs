//! Properties of the message store that relate several operations or hold
//! of every input, stated over the specifications of `store`.

use vstd::prelude::*;

use crate::actor::{batches_of, first_batch_len};
use crate::message::{size_of, MessageModel};
use crate::store::{
    admissible, bytes_of, evict_for, fits, has_id, insert_by_time, insert_spec, keep_where,
    lemma_counts_insert, lemma_counts_remove, lemma_evict_for_some, lemma_insert_inv, lemma_time_pos, lemma_victim,
    live_at, matching, query_spec, selects, store_inv, sweep_spec, take_capped, unique_ids, victim,
    InsertOutcome, QueryFilter, StoreConfig, StoreError,
};

verus! {

/// Contents of a store that started empty after inserting `msgs` in order.
pub open spec fn insert_all(msgs: Seq<MessageModel>, c: StoreConfig) -> Seq<MessageModel>
    decreases msgs.len(),
{
    if msgs.len() == 0 {
        Seq::empty()
    } else {
        insert_spec(insert_all(msgs.drop_last(), c), msgs.last(), c).1
    }
}

/// A filter that asks for everything a store holding `s` has.
pub open spec fn unfiltered(f: QueryFilter, s: Seq<MessageModel>) -> bool {
    f.destination is None && f.since == 0 && f.limit >= s.len() && f.max_bytes >= bytes_of(s)
}

proof fn lemma_bytes_first(s: Seq<MessageModel>)
    requires
        s.len() > 0,
    ensures
        bytes_of(s) == size_of(s[0]) + bytes_of(s.drop_first()),
{
    lemma_counts_remove(s, 0, 0);
    assert(s.remove(0) =~= s.drop_first());
}

proof fn lemma_unfiltered_query(s: Seq<MessageModel>, f: QueryFilter)
    requires
        f.destination is None,
        f.since == 0,
    ensures
        matching(s, f) == s,
        f.limit >= s.len() && f.max_bytes >= bytes_of(s) ==> take_capped(
            s,
            f.limit as nat,
            f.max_bytes as nat,
        ) == s,
    decreases s.len(),
{
    if s.len() > 0 {
        lemma_unfiltered_query(s.drop_first(), f);
        assert(seq![s[0]] + s.drop_first() =~= s);
        if f.limit >= s.len() && f.max_bytes >= bytes_of(s) {
            lemma_take_all(s, f.limit as nat, f.max_bytes as nat);
        }
    }
}

proof fn lemma_take_all(s: Seq<MessageModel>, limit: nat, max_bytes: nat)
    requires
        limit >= s.len(),
        max_bytes >= bytes_of(s),
    ensures
        take_capped(s, limit, max_bytes) == s,
    decreases s.len(),
{
    if s.len() > 0 {
        lemma_bytes_first(s);
        lemma_take_all(s.drop_first(), (limit - 1) as nat, (max_bytes - size_of(s[0])) as nat);
        assert(seq![s[0]] + s.drop_first() =~= s);
    }
}

/// Inserting messages with distinct ids that fit within the ceilings, in any
/// order, leaves the store holding exactly those messages, oldest first; a
/// query with no filter returns them all.
pub proof fn lemma_inserts_all_kept(msgs: Seq<MessageModel>, c: StoreConfig, f: QueryFilter)
    requires
        unique_ids(msgs),
        forall|i: int| 0 <= i < msgs.len() ==> admissible(#[trigger] msgs[i], c),
        msgs.len() <= c.max_count,
        bytes_of(msgs) <= c.max_total_bytes,
        unfiltered(f, msgs),
    ensures
        store_inv(insert_all(msgs, c), c),
        insert_all(msgs, c).len() == msgs.len(),
        bytes_of(insert_all(msgs, c)) == bytes_of(msgs),
        forall|x: MessageModel| insert_all(msgs, c).contains(x) <==> msgs.contains(x),
        query_spec(insert_all(msgs, c), f) == insert_all(msgs, c),
    decreases msgs.len(),
{
    let s = insert_all(msgs, c);
    if msgs.len() > 0 {
        let d = msgs.drop_last();
        let m = msgs.last();
        assert forall|a: int, b: int|
            0 <= a < d.len() && 0 <= b < d.len() && a != b implies d[a].id != d[b].id by {
            assert(msgs[a].id != msgs[b].id);
        }
        assert forall|i: int| 0 <= i < d.len() implies admissible(#[trigger] d[i], c) by {
            assert(admissible(msgs[i], c));
        }
        lemma_inserts_all_kept(d, c, f);
        let t = insert_all(d, c);
        assert(admissible(msgs[msgs.len() - 1], c));
        if has_id(t, m.id) {
            let k = choose|k: int| 0 <= k < t.len() && t[k].id == m.id;
            assert(t.contains(t[k]));
            assert(d.contains(t[k]));
            let j = choose|j: int| 0 <= j < d.len() && d[j] == t[k];
            assert(msgs[j].id != msgs[msgs.len() - 1].id);
        }
        assert(fits(t, m, c));
        lemma_insert_inv(t, m, c);
        lemma_time_pos(t, m.stored_at);
        lemma_counts_insert(t, crate::store::time_pos(t, m.stored_at), m, 0);
        assert forall|x: MessageModel| s.contains(x) <==> msgs.contains(x) by {
            if msgs.contains(x) {
                let k = choose|k: int| 0 <= k < msgs.len() && msgs[k] == x;
                if k < msgs.len() - 1 {
                    assert(d[k] == x);
                }
            }
            if d.contains(x) {
                let k = choose|k: int| 0 <= k < d.len() && d[k] == x;
                assert(msgs[k] == x);
            }
        }
    }
    lemma_unfiltered_query(s, f);
}

/// Inserting a message whose id is already held reports it and changes nothing.
pub proof fn lemma_duplicate_insert(s: Seq<MessageModel>, m: MessageModel, c: StoreConfig)
    requires
        has_id(s, m.id),
    ensures
        insert_spec(s, m, c) == (Ok::<InsertOutcome, StoreError>(InsertOutcome::AlreadyPresent), s),
{
}

/// In a store at its count ceiling, where bytes are not what is short, a
/// message that outranks the lowest-priority, oldest message takes the place
/// of exactly that one; a message that outranks none is refused and the store
/// is left as it was.
pub proof fn lemma_full_store(s: Seq<MessageModel>, m: MessageModel, c: StoreConfig)
    requires
        store_inv(s, c),
        s.len() == c.max_count,
        c.max_count > 0,
        !has_id(s, m.id),
        admissible(m, c),
        bytes_of(s) + size_of(m) <= c.max_total_bytes,
    ensures
        0 <= victim(s) < s.len(),
        forall|k: int| 0 <= k < s.len() ==> s[victim(s)].priority <= #[trigger] s[k].priority,
        forall|k: int| 0 <= k < victim(s) ==> s[victim(s)].priority < #[trigger] s[k].priority,
        s[victim(s)].priority < m.priority ==> insert_spec(s, m, c) == (Ok::<
            InsertOutcome,
            StoreError,
        >(InsertOutcome::Stored), insert_by_time(s.remove(victim(s)), m)),
        s[victim(s)].priority < m.priority ==> insert_by_time(s.remove(victim(s)), m).len()
            == s.len(),
        s[victim(s)].priority >= m.priority ==> insert_spec(s, m, c) == (Err::<
            InsertOutcome,
            StoreError,
        >(StoreError::StoreFull), s),
{
    lemma_victim(s);
    let v = victim(s);
    lemma_counts_remove(s, v, 0);
    let t = s.remove(v);
    crate::store::lemma_remove_inv(s, v, c);
    lemma_time_pos(t, m.stored_at);
    assert(fits(t, m, c));
    assert(evict_for(t, m, c) == Some(t));
    assert(!fits(s, m, c));
    if s[v].priority < m.priority {
        assert(evict_for(s, m, c) == evict_for(t, m, c));
    } else {
        assert(evict_for(s, m, c) is None);
    }
}

proof fn lemma_keep_where_contains(s: Seq<MessageModel>, keep: spec_fn(MessageModel) -> bool)
    ensures
        forall|x: MessageModel| keep_where(s, keep).contains(x) <==> (s.contains(x) && keep(x)),
    decreases s.len(),
{
    if s.len() > 0 {
        let d = s.drop_first();
        lemma_keep_where_contains(d, keep);
        assert forall|x: MessageModel| keep_where(s, keep).contains(x) <==> (s.contains(x) && keep(
            x,
        )) by {
            if d.contains(x) {
                let k = choose|k: int| 0 <= k < d.len() && d[k] == x;
                assert(s[k + 1] == x);
            }
            if s.contains(x) {
                let k = choose|k: int| 0 <= k < s.len() && s[k] == x;
                if k > 0 {
                    assert(d[k - 1] == x);
                }
            }
            if keep(s[0]) {
                let r = seq![s[0]] + keep_where(d, keep);
                assert(r[0] == s[0]);
                if keep_where(d, keep).contains(x) {
                    let k = choose|k: int| 0 <= k < keep_where(d, keep).len() && keep_where(d, keep)[k] == x;
                    assert(r[k + 1] == x);
                }
                if r.contains(x) {
                    let k = choose|k: int| 0 <= k < r.len() && r[k] == x;
                    if k > 0 {
                        assert(keep_where(d, keep)[k - 1] == x);
                    }
                }
            }
        }
    }
}

proof fn lemma_keep_where_idempotent(s: Seq<MessageModel>, keep: spec_fn(MessageModel) -> bool)
    ensures
        keep_where(keep_where(s, keep), keep) == keep_where(s, keep),
    decreases s.len(),
{
    if s.len() > 0 {
        let d = s.drop_first();
        lemma_keep_where_idempotent(d, keep);
        if keep(s[0]) {
            let r = seq![s[0]] + keep_where(d, keep);
            assert(r[0] == s[0]);
            assert(r.drop_first() =~= keep_where(d, keep));
        }
    }
}

/// A sweep at `now` keeps exactly the messages that expire after `now`, and a
/// second sweep at the same time removes nothing.
pub proof fn lemma_sweep(s: Seq<MessageModel>, now: u64)
    ensures
        forall|x: MessageModel|
            sweep_spec(s, now).contains(x) <==> (s.contains(x) && now < x.expires_at),
        sweep_spec(sweep_spec(s, now), now) == sweep_spec(s, now),
{
    lemma_keep_where_contains(s, live_at(now));
    lemma_keep_where_idempotent(s, live_at(now));
}

proof fn lemma_matching(s: Seq<MessageModel>, f: QueryFilter)
    ensures
        forall|x: MessageModel| matching(s, f).contains(x) ==> s.contains(x) && selects(f, x),
    decreases s.len(),
{
    if s.len() > 0 {
        let d = s.drop_first();
        lemma_matching(d, f);
        assert forall|x: MessageModel| matching(s, f).contains(x) implies s.contains(x) && selects(
            f,
            x,
        ) by {
            let r = matching(s, f);
            let k = choose|k: int| 0 <= k < r.len() && r[k] == x;
            if selects(f, s[0]) {
                if k == 0 {
                    assert(s[0] == x);
                } else {
                    assert(matching(d, f)[k - 1] == x);
                    assert(matching(d, f).contains(x));
                    assert(d.contains(x));
                    let j = choose|j: int| 0 <= j < d.len() && d[j] == x;
                    assert(s[j + 1] == x);
                }
            } else {
                assert(matching(d, f)[k] == x);
                assert(matching(d, f).contains(x));
                assert(d.contains(x));
                let j = choose|j: int| 0 <= j < d.len() && d[j] == x;
                assert(s[j + 1] == x);
            }
        }
    }
}

proof fn lemma_take_capped(s: Seq<MessageModel>, limit: nat, max_bytes: nat)
    ensures
        take_capped(s, limit, max_bytes).len() <= limit,
        bytes_of(take_capped(s, limit, max_bytes)) <= max_bytes,
        forall|x: MessageModel| take_capped(s, limit, max_bytes).contains(x) ==> s.contains(x),
    decreases s.len(),
{
    let r = take_capped(s, limit, max_bytes);
    if !(s.len() == 0 || limit == 0 || size_of(s[0]) > max_bytes) {
        let d = s.drop_first();
        let l2 = (limit - 1) as nat;
        let b2 = (max_bytes - size_of(s[0])) as nat;
        lemma_take_capped(d, l2, b2);
        assert(r[0] == s[0]);
        assert(r.drop_first() =~= take_capped(d, l2, b2));
        lemma_bytes_first(r);
        assert forall|x: MessageModel| r.contains(x) implies s.contains(x) by {
            let k = choose|k: int| 0 <= k < r.len() && r[k] == x;
            if k == 0 {
                assert(s[0] == x);
            } else {
                assert(take_capped(d, l2, b2)[k - 1] == x);
                assert(take_capped(d, l2, b2).contains(x));
                assert(d.contains(x));
                let j = choose|j: int| 0 <= j < d.len() && d[j] == x;
                assert(s[j + 1] == x);
            }
        }
    }
}

/// A query returns only messages stored at or after `since` (and for the
/// requested recipient, if one is named), never more than `limit` of them and
/// never more than `max_bytes` body bytes in total.
pub proof fn lemma_query_bounds(s: Seq<MessageModel>, f: QueryFilter)
    ensures
        query_spec(s, f).len() <= f.limit,
        bytes_of(query_spec(s, f)) <= f.max_bytes,
        forall|x: MessageModel|
            query_spec(s, f).contains(x) ==> s.contains(x) && f.since <= x.stored_at && selects(
                f,
                x,
            ),
{
    lemma_matching(s, f);
    lemma_take_capped(matching(s, f), f.limit as nat, f.max_bytes as nat);
}

} // verus!

verus! {

/// The messages of a sequence of batches, in order.
pub open spec fn joined(rs: Seq<(Seq<MessageModel>, bool)>) -> Seq<MessageModel>
    decreases rs.len(),
{
    if rs.len() == 0 {
        Seq::empty()
    } else {
        rs[0].0 + joined(rs.drop_first())
    }
}

proof fn lemma_take_prefix(s: Seq<MessageModel>, limit: nat, max_bytes: nat)
    ensures
        take_capped(s, limit, max_bytes).len() <= s.len(),
        take_capped(s, limit, max_bytes) == s.subrange(0, take_capped(s, limit, max_bytes).len() as int),
    decreases s.len(),
{
    if !(s.len() == 0 || limit == 0 || size_of(s[0]) > max_bytes) {
        let d = s.drop_first();
        let l2 = (limit - 1) as nat;
        let b2 = (max_bytes - size_of(s[0])) as nat;
        lemma_take_prefix(d, l2, b2);
        assert(take_capped(s, limit, max_bytes) =~= s.subrange(0, take_capped(s, limit, max_bytes).len() as int));
    } else {
        assert(take_capped(s, limit, max_bytes) =~= s.subrange(0, 0));
    }
}

/// Cutting a non-empty result into batches loses, adds and reorders
/// nothing; every batch is non-empty, holds at most `cnt` messages (one, if
/// `cnt` is zero) and at most `b` body bytes unless it is a single message;
/// only the last batch is marked final.
pub proof fn lemma_batches(s: Seq<MessageModel>, cnt: nat, b: nat)
    requires
        s.len() > 0,
    ensures
        batches_of(s, cnt, b).len() > 0,
        joined(batches_of(s, cnt, b)) == s,
        forall|i: int|
            0 <= i < batches_of(s, cnt, b).len() ==> {
                let x = #[trigger] batches_of(s, cnt, b)[i];
                &&& 1 <= x.0.len()
                &&& x.0.len() <= cnt || x.0.len() == 1
                &&& bytes_of(x.0) <= b || x.0.len() == 1
                &&& x.1 == (i == batches_of(s, cnt, b).len() - 1)
            },
    decreases s.len(),
{
    let k = first_batch_len(s, cnt, b);
    let bs = batches_of(s, cnt, b);
    lemma_take_prefix(s, cnt, b);
    lemma_take_capped(s, cnt, b);
    let first = s.subrange(0, k as int);
    let rest = s.subrange(k as int, s.len() as int);
    if k == s.len() {
        assert(rest.len() == 0);
        assert(batches_of(rest, cnt, b) =~= Seq::<(Seq<MessageModel>, bool)>::empty());
        assert(bs =~= seq![(first, true)]);
        assert(bs.drop_first() =~= Seq::<(Seq<MessageModel>, bool)>::empty());
        assert(first =~= s);
        assert(joined(bs.drop_first()) =~= Seq::<MessageModel>::empty());
        assert(first + Seq::<MessageModel>::empty() =~= s);
    } else {
        lemma_batches(rest, cnt, b);
        let tail = batches_of(rest, cnt, b);
        assert(bs.drop_first() =~= tail);
        assert(first + rest =~= s);
        assert forall|i: int| 0 < i < bs.len() implies bs[i] == tail[i - 1] by {}
    }
    if k == 1 && take_capped(s, cnt, b).len() == 0 {
        assert(first.len() == 1);
    }
}

} // verus!
