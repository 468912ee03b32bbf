//! Which stored messages are past the retention window.
use vstd::prelude::*;

use crate::ids::{ServiceId, Thread};

verus! {

/// The time before which messages are stale.
pub open spec fn stale_before(now: u64, retention_ms: u64) -> int {
    if now > retention_ms {
        now - retention_ms
    } else {
        0
    }
}

/// The time before which messages are stale.
pub fn cutoff(now: u64, retention_ms: u64) -> (r: u64)
    ensures
        r == stale_before(now, retention_ms),
{
    now.saturating_sub(retention_ms)
}

/// The timestamps before the cutoff, in order.
pub open spec fn before(timestamps: Seq<u64>, cutoff: u64) -> Seq<u64>
    decreases timestamps.len(),
{
    if timestamps.len() == 0 {
        Seq::empty()
    } else {
        let rest = before(timestamps.drop_last(), cutoff);
        if timestamps.last() < cutoff {
            rest.push(timestamps.last())
        } else {
            rest
        }
    }
}

/// The messages to delete. The store does not reliably honour the bounds of a range,
/// so they are checked here.
pub fn stale(timestamps: &[u64], cutoff: u64) -> (r: Vec<u64>)
    ensures
        r@ == before(timestamps@, cutoff),
{
    let mut out: Vec<u64> = Vec::new();
    assert(timestamps@.take(0) =~= Seq::empty());
    for i in 0..timestamps.len()
        invariant
            out@ == before(timestamps@.take(i as int), cutoff),
    {
        assert(timestamps@.take(i + 1).drop_last() =~= timestamps@.take(i as int));
        if timestamps[i] < cutoff {
            out.push(timestamps[i]);
        }
    }
    assert(timestamps@.take(timestamps@.len() as int) =~= timestamps@);
    out
}

/// A message is deleted if and only if it is stale: nothing younger than the retention
/// window is touched.
pub proof fn law_only_stale_messages_go(timestamps: Seq<u64>, cutoff: u64, ts: u64)
    ensures
        before(timestamps, cutoff).contains(ts) <==> timestamps.contains(ts) && ts < cutoff,
    decreases timestamps.len(),
{
    if timestamps.len() > 0 {
        let head = timestamps.drop_last();
        law_only_stale_messages_go(head, cutoff, ts);
        let rest = before(head, cutoff);
        let all = before(timestamps, cutoff);
        if all.contains(ts) {
            let i = choose|i: int| 0 <= i < all.len() && all[i] == ts;
            if i < rest.len() {
                assert(rest[i] == ts);
                let k = choose|k: int| 0 <= k < head.len() && head[k] == ts;
                assert(timestamps[k] == ts);
            } else {
                assert(timestamps[timestamps.len() - 1] == ts);
            }
        }
        if timestamps.contains(ts) && ts < cutoff {
            let k = choose|k: int| 0 <= k < timestamps.len() && timestamps[k] == ts;
            if k < head.len() {
                assert(head[k] == ts);
                let i = choose|i: int| 0 <= i < rest.len() && rest[i] == ts;
                assert(all[i] == ts);
            } else {
                assert(all[all.len() - 1] == ts);
            }
        }
    }
}

/// Every chat that is known: one per contact, one per group.
pub open spec fn threads_of(contacts: Seq<u128>, groups: Seq<[u8; 32]>) -> Seq<Thread> {
    Seq::new(contacts.len(), |i: int| Thread::Contact(ServiceId::Aci(contacts[i]))) + Seq::new(
        groups.len(),
        |i: int| Thread::Group(groups[i]),
    )
}

/// Collects every chat that is known. There is no unified list of chats, so the two are
/// put together.
pub fn all_threads(contacts: &Vec<u128>, groups: &Vec<[u8; 32]>) -> (r: Vec<Thread>)
    ensures
        r@ == threads_of(contacts@, groups@),
{
    let ghost goal = threads_of(contacts@, groups@);
    let mut out: Vec<Thread> = Vec::new();
    assert(goal.take(0) =~= Seq::empty());
    for i in 0..contacts.len()
        invariant
            goal == threads_of(contacts@, groups@),
            out@ == goal.take(i as int),
    {
        out.push(Thread::Contact(ServiceId::Aci(contacts[i])));
        assert(goal.take(i + 1) =~= goal.take(i as int).push(goal[i as int]));
    }
    for i in 0..groups.len()
        invariant
            goal == threads_of(contacts@, groups@),
            out@ == goal.take(contacts@.len() + i),
    {
        out.push(Thread::Group(groups[i]));
        assert(goal.take(contacts@.len() + i + 1) =~= goal.take(contacts@.len() + i).push(
            goal[contacts@.len() + i],
        ));
    }
    assert(goal.take(goal.len() as int) =~= goal);
    out
}

/// A message is stale where more time has passed since it than is retained, and not
/// before; while less has passed than is retained, none is.
pub proof fn law_how_long_messages_are_kept(now: u64, retention_ms: u64, ts: u64)
    ensures
        ts < stale_before(now, retention_ms) <==> ts + retention_ms < now,
{
}

/// All stale messages go, in their order, however often a time occurs.
pub proof fn law_all_stale_messages_go(timestamps: Seq<u64>, cutoff: u64)
    ensures
        before(timestamps, cutoff) == timestamps.filter(|ts: u64| ts < cutoff),
    decreases timestamps.len(),
{
    reveal(Seq::filter);
    if timestamps.len() > 0 {
        law_all_stale_messages_go(timestamps.drop_last(), cutoff);
    }
}

/// Every contact has a chat, and so has every group.
pub proof fn law_every_chat_is_known(contacts: Seq<u128>, groups: Seq<[u8; 32]>, i: int)
    ensures
        threads_of(contacts, groups).len() == contacts.len() + groups.len(),
        0 <= i < contacts.len() ==> threads_of(contacts, groups)[i] == Thread::Contact(
            ServiceId::Aci(contacts[i]),
        ),
        0 <= i < groups.len() ==> threads_of(contacts, groups)[contacts.len() + i]
            == Thread::Group(groups[i]),
{
}

} // verus!
