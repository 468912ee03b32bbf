//! Finished conversations, kept warm for continuation.
use vstd::prelude::*;

use crate::json::{jsons, Json, JsonV};
use crate::transcript::{Transcript, TranscriptV};

verus! {

/// Entries older than this are evicted, in milliseconds. Measured from insertion,
/// but a continuation inserts a fresh child entry (and drops its parent), so an
/// active conversation keeps resetting its age: in effect, 12 hours since its last
/// answer.
pub const TTL: u64 = 43_200_000;

/// A finished conversation, ready to be continued. `convo` holds the exact turns
/// that were sent (through and including the bot's answer), so that a reply just
/// appends to it and the server keeps its prompt-cache prefix. `chat_context` is
/// captured so that the reused `system` message stays the same, and `tip_ts` is
/// the answer's final-edit timestamp: the lower bound for gathering messages that
/// arrived after this answer.
pub struct Cached {
    pub convo: Vec<Json>,
    pub chat_context: String,
    /// the message and attachment numbering already shown to the model, and which
    /// attachments are inline, so that a continuation keeps addressing everything
    /// by the same id and never resends media it already carries
    pub transcript: Transcript,
    pub tip_ts: u64,
}

/// The mathematical model of a finished conversation.
pub struct CachedV {
    pub convo: Seq<JsonV>,
    pub chat_context: Seq<char>,
    pub transcript: TranscriptV,
    pub tip_ts: u64,
}

impl View for Cached {
    type V = CachedV;

    open spec fn view(&self) -> CachedV {
        CachedV {
            convo: jsons(self.convo@),
            chat_context: self.chat_context@,
            transcript: self.transcript@,
            tip_ts: self.tip_ts,
        }
    }
}

impl Cached {
    pub open spec fn wf(&self) -> bool {
        self.transcript.wf()
    }
}

/// A conversation under its key, with the time of its insertion.
pub struct Entry {
    pub root: u64,
    pub created: u64,
    pub cached: Cached,
}

/// The mathematical model of an entry.
pub struct EntryV {
    pub root: u64,
    pub created: u64,
    pub cached: CachedV,
}

impl View for Entry {
    type V = EntryV;

    open spec fn view(&self) -> EntryV {
        EntryV { root: self.root, created: self.created, cached: self.cached@ }
    }
}

/// The models of a list of entries.
pub open spec fn entries_view(v: Seq<Entry>) -> Seq<EntryV> {
    Seq::new(v.len(), |i: int| v[i]@)
}

broadcast proof fn lemma_entries_push(v: Seq<Entry>, x: Entry)
    ensures
        #[trigger] entries_view(v.push(x)) == entries_view(v).push(x@),
{
    assert(entries_view(v.push(x)) =~= entries_view(v).push(x@));
}

/// The position of the entry with the given root; the number of entries where
/// there is none.
pub open spec fn place(es: Seq<EntryV>, root: u64) -> int
    decreases es.len(),
{
    if es.len() == 0 || es[0].root == root {
        0
    } else {
        1 + place(es.skip(1), root)
    }
}

/// There is an entry with the given root.
pub open spec fn is_root(es: Seq<EntryV>, root: u64) -> bool {
    place(es, root) < es.len()
}

/// What `ts` is an alias of, if it is one.
pub open spec fn alias_of(aliases: Seq<(u64, u64)>, ts: u64) -> Option<u64>
    decreases aliases.len(),
{
    if aliases.len() == 0 {
        None
    } else if aliases[0].0 == ts {
        Some(aliases[0].1)
    } else {
        alias_of(aliases.skip(1), ts)
    }
}

/// The aliases of roots that there are.
pub open spec fn pointing(aliases: Seq<(u64, u64)>, es: Seq<EntryV>) -> Seq<(u64, u64)>
    decreases aliases.len(),
{
    if aliases.len() == 0 {
        Seq::empty()
    } else {
        let rest = pointing(aliases.drop_last(), es);
        if is_root(es, aliases.last().1) {
            rest.push(aliases.last())
        } else {
            rest
        }
    }
}

/// The aliases without that of `ts`.
pub open spec fn unaliased(aliases: Seq<(u64, u64)>, ts: u64) -> Seq<(u64, u64)>
    decreases aliases.len(),
{
    if aliases.len() == 0 {
        Seq::empty()
    } else {
        let rest = unaliased(aliases.drop_last(), ts);
        if aliases.last().0 == ts {
            rest
        } else {
            rest.push(aliases.last())
        }
    }
}

/// An entry of that age is no longer used.
pub open spec fn expired(created: u64, now: u64) -> bool {
    now - created >= TTL
}

/// The entries that may still be used.
pub open spec fn unexpired(es: Seq<EntryV>, now: u64) -> Seq<EntryV>
    decreases es.len(),
{
    if es.len() == 0 {
        Seq::empty()
    } else {
        let rest = unexpired(es.drop_last(), now);
        if expired(es.last().created, now) {
            rest
        } else {
            rest.push(es.last())
        }
    }
}

/// The mathematical model of the cache: the entries in the order of their
/// insertion, and the aliases.
#[verifier::ext_equal]
pub struct CacheV {
    pub cap: usize,
    pub entries: Seq<EntryV>,
    pub aliases: Seq<(u64, u64)>,
}

impl CacheV {
    /// The cache with these entries, and the aliases that then still point
    /// somewhere.
    pub open spec fn with_entries(self, es: Seq<EntryV>) -> CacheV {
        CacheV { entries: es, aliases: pointing(self.aliases, es), ..self }
    }

    /// The root that `ts` stands for.
    pub open spec fn resolved(self, ts: u64) -> u64 {
        match alias_of(self.aliases, ts) {
            Some(r) => r,
            None => ts,
        }
    }

    /// The cache without the conversation that `ts` stands for.
    pub open spec fn removed(self, ts: u64) -> CacheV {
        let k = place(self.entries, self.resolved(ts));
        if k < self.entries.len() {
            self.with_entries(self.entries.remove(k))
        } else {
            self
        }
    }

    /// The cache without what has expired.
    pub open spec fn purged(self, now: u64) -> CacheV {
        self.with_entries(unexpired(self.entries, now))
    }

    /// The conversation that `ts` stands for, unless it has expired.
    pub open spec fn found(self, ts: u64, now: u64) -> Option<CachedV> {
        let k = place(self.entries, self.resolved(ts));
        if k < self.entries.len() && !expired(self.entries[k].created, now) {
            Some(self.entries[k].cached)
        } else {
            None
        }
    }

    /// The cache after a lookup, which drops an aged-out entry on the way.
    pub open spec fn looked_up(self, ts: u64, now: u64) -> CacheV {
        let k = place(self.entries, self.resolved(ts));
        if k < self.entries.len() && expired(self.entries[k].created, now) {
            self.removed(self.resolved(ts))
        } else {
            self
        }
    }

    /// The cache with `ts` standing for `root`, where that is a root and `ts` is
    /// not.
    pub open spec fn aliased(self, ts: u64, root: u64) -> CacheV {
        if is_root(self.entries, root) && !is_root(self.entries, ts) {
            CacheV { aliases: unaliased(self.aliases, ts).push((ts, root)), ..self }
        } else {
            self
        }
    }

    /// The cache with a conversation more, before the oldest make room.
    pub open spec fn added(self, root: u64, cached: CachedV, now: u64) -> CacheV {
        let c = self.purged(now);
        let e = EntryV { root, created: now, cached };
        let k = place(c.entries, root);
        CacheV {
            entries: if k < c.entries.len() {
                c.entries.update(k, e)
            } else {
                c.entries.push(e)
            },
            aliases: unaliased(c.aliases, root),
            ..c
        }
    }

    /// The cache with the oldest entries gone that it has no room for.
    pub open spec fn bounded(self) -> CacheV {
        if self.entries.len() > self.cap {
            self.with_entries(self.entries.skip(self.entries.len() - self.cap))
        } else {
            self
        }
    }

    /// The cache with a conversation more.
    pub open spec fn inserted(self, root: u64, cached: CachedV, now: u64) -> CacheV {
        self.added(root, cached, now).bounded()
    }

    /// No two entries have the same root, no timestamp is an alias twice, and none
    /// is both; every alias points to a root; and there are no more entries than
    /// there may be.
    pub open spec fn wf(self) -> bool {
        &&& self.entries.len() <= self.cap
        &&& self.sound()
    }

    /// As `wf`, whatever the number of entries.
    pub open spec fn sound(self) -> bool {
        &&& roots_differ(self.entries)
        &&& keys_differ(self.aliases)
        &&& forall|i: int|
            0 <= i < self.aliases.len() ==> is_root(
                self.entries,
                (#[trigger] self.aliases[i]).1,
            ) && !is_root(self.entries, self.aliases[i].0)
    }
}

/// No two entries have the same root.
pub open spec fn roots_differ(es: Seq<EntryV>) -> bool {
    forall|i: int, j: int|
        0 <= i < j < es.len() ==> (#[trigger] es[i]).root != (#[trigger] es[j]).root
}

/// No timestamp is an alias twice.
pub open spec fn keys_differ(aliases: Seq<(u64, u64)>) -> bool {
    forall|i: int, j: int|
        0 <= i < j < aliases.len() ==> (#[trigger] aliases[i]).0 != (#[trigger] aliases[j]).0
}

// ---------------------------------------------------------------------------
// lemmas

proof fn lemma_place(es: Seq<EntryV>, root: u64)
    ensures
        0 <= place(es, root) <= es.len(),
        is_root(es, root) ==> es[place(es, root)].root == root,
        forall|i: int| 0 <= i < place(es, root) ==> (#[trigger] es[i]).root != root,
        is_root(es, root) <==> exists|i: int| 0 <= i < es.len() && (#[trigger] es[i]).root == root,
    decreases es.len(),
{
    if es.len() == 0 || es[0].root == root {
    } else {
        lemma_place(es.skip(1), root);
        let n = place(es.skip(1), root);
        assert forall|i: int| 0 <= i < n + 1 implies (#[trigger] es[i]).root != root by {
            if i > 0 {
                assert(es.skip(1)[i - 1] == es[i]);
            }
        }
        if n < es.skip(1).len() {
            assert(es[n + 1] == es.skip(1)[n]);
        }
    }
}

proof fn lemma_alias_of(aliases: Seq<(u64, u64)>, ts: u64)
    ensures
        alias_of(aliases, ts) is Some ==> exists|i: int|
            0 <= i < aliases.len() && #[trigger] aliases[i] == (ts, alias_of(aliases, ts)->0),
        alias_of(aliases, ts) is None ==> forall|i: int|
            0 <= i < aliases.len() ==> (#[trigger] aliases[i]).0 != ts,
    decreases aliases.len(),
{
    if aliases.len() == 0 {
    } else if aliases[0].0 == ts {
        assert(aliases[0] == (ts, aliases[0].1));
    } else {
        lemma_alias_of(aliases.skip(1), ts);
        if alias_of(aliases.skip(1), ts) is Some {
            let i = choose|i: int|
                0 <= i < aliases.skip(1).len() && #[trigger] aliases.skip(1)[i] == (
                    ts,
                    alias_of(aliases, ts)->0,
                );
            assert(aliases[i + 1] == aliases.skip(1)[i]);
        } else {
            assert forall|i: int| 0 <= i < aliases.len() implies (#[trigger] aliases[i]).0
                != ts by {
                if i > 0 {
                    assert(aliases.skip(1)[i - 1] == aliases[i]);
                }
            }
        }
    }
}

proof fn lemma_alias_is(aliases: Seq<(u64, u64)>, i: int)
    requires
        0 <= i < aliases.len(),
        keys_differ(aliases),
    ensures
        alias_of(aliases, aliases[i].0) == Some(aliases[i].1),
{
    lemma_alias_of(aliases, aliases[i].0);
    let ts = aliases[i].0;
    assert(aliases[i].0 == ts);
    let k = choose|k: int|
        0 <= k < aliases.len() && #[trigger] aliases[k] == (ts, alias_of(aliases, ts)->0);
    if k != i {
        if k < i {
            assert(aliases[k].0 != aliases[i].0);
        } else {
            assert(aliases[i].0 != aliases[k].0);
        }
    }
}

/// What is left of a list keeps its order and comes from it.
proof fn lemma_pointing(aliases: Seq<(u64, u64)>, es: Seq<EntryV>)
    requires
        keys_differ(aliases),
    ensures
        keys_differ(pointing(aliases, es)),
        forall|i: int|
            0 <= i < pointing(aliases, es).len() ==> aliases.contains(
                #[trigger] pointing(aliases, es)[i],
            ) && is_root(es, pointing(aliases, es)[i].1),
        forall|a: (u64, u64)|
            aliases.contains(a) && is_root(es, a.1) ==> #[trigger] pointing(aliases, es).contains(
                a,
            ),
    decreases aliases.len(),
{
    if aliases.len() > 0 {
        let head = aliases.drop_last();
        assert forall|i: int, j: int| 0 <= i < j < head.len() implies (#[trigger] head[i]).0 != (
        #[trigger] head[j]).0 by {
            assert(head[i] == aliases[i] && head[j] == aliases[j]);
        }
        lemma_pointing(head, es);
        let rest = pointing(head, es);
        let all = pointing(aliases, es);
        assert forall|i: int| 0 <= i < rest.len() implies aliases.contains(
            #[trigger] rest[i],
        ) && rest[i].0 != aliases.last().0 by {
            let k = choose|k: int| 0 <= k < head.len() && head[k] == rest[i];
            assert(aliases[k] == rest[i]);
            assert(aliases[k].0 != aliases[aliases.len() - 1].0);
        }
        assert(aliases.contains(aliases[aliases.len() - 1]));
        assert forall|i: int, j: int| 0 <= i < j < all.len() implies (#[trigger] all[i]).0 != (
        #[trigger] all[j]).0 by {
            assert(all[i] == rest[i]);
            if j < rest.len() {
                assert(all[j] == rest[j]);
            }
        }
        assert forall|i: int| 0 <= i < all.len() implies aliases.contains(#[trigger] all[i])
            && is_root(es, all[i].1) by {
            if i < rest.len() {
                assert(all[i] == rest[i]);
            }
        }
        assert forall|a: (u64, u64)| aliases.contains(a) && is_root(es, a.1) implies
            #[trigger] all.contains(a) by {
            let k = choose|k: int| 0 <= k < aliases.len() && aliases[k] == a;
            if k < head.len() {
                assert(head[k] == a);
                assert(head.contains(a));
                assert(rest.contains(a));
                let i = choose|i: int| 0 <= i < rest.len() && rest[i] == a;
                assert(all[i] == a);
            } else {
                assert(all[all.len() - 1] == a);
            }
        }
    }
}

proof fn lemma_unaliased(aliases: Seq<(u64, u64)>, ts: u64)
    requires
        keys_differ(aliases),
    ensures
        keys_differ(unaliased(aliases, ts)),
        forall|i: int|
            0 <= i < unaliased(aliases, ts).len() ==> aliases.contains(
                #[trigger] unaliased(aliases, ts)[i],
            ) && unaliased(aliases, ts)[i].0 != ts,
        forall|a: (u64, u64)|
            aliases.contains(a) && a.0 != ts ==> #[trigger] unaliased(aliases, ts).contains(a),
    decreases aliases.len(),
{
    if aliases.len() > 0 {
        let head = aliases.drop_last();
        assert forall|i: int, j: int| 0 <= i < j < head.len() implies (#[trigger] head[i]).0 != (
        #[trigger] head[j]).0 by {
            assert(head[i] == aliases[i] && head[j] == aliases[j]);
        }
        lemma_unaliased(head, ts);
        let rest = unaliased(head, ts);
        let all = unaliased(aliases, ts);
        assert forall|i: int| 0 <= i < rest.len() implies aliases.contains(
            #[trigger] rest[i],
        ) && rest[i].0 != aliases.last().0 by {
            let k = choose|k: int| 0 <= k < head.len() && head[k] == rest[i];
            assert(aliases[k] == rest[i]);
            assert(aliases[k].0 != aliases[aliases.len() - 1].0);
        }
        assert(aliases.contains(aliases[aliases.len() - 1]));
        assert forall|i: int, j: int| 0 <= i < j < all.len() implies (#[trigger] all[i]).0 != (
        #[trigger] all[j]).0 by {
            assert(all[i] == rest[i]);
            if j < rest.len() {
                assert(all[j] == rest[j]);
            }
        }
        assert forall|i: int| 0 <= i < all.len() implies aliases.contains(#[trigger] all[i])
            && all[i].0 != ts by {
            if i < rest.len() {
                assert(all[i] == rest[i]);
            }
        }
        assert forall|a: (u64, u64)| aliases.contains(a) && a.0 != ts implies
            #[trigger] all.contains(a) by {
            let k = choose|k: int| 0 <= k < aliases.len() && aliases[k] == a;
            if k < head.len() {
                assert(head[k] == a);
                assert(head.contains(a));
                assert(rest.contains(a));
                let i = choose|i: int| 0 <= i < rest.len() && rest[i] == a;
                assert(all[i] == a);
            } else {
                assert(all[all.len() - 1] == a);
            }
        }
    }
}

proof fn lemma_unexpired(es: Seq<EntryV>, now: u64)
    requires
        roots_differ(es),
    ensures
        roots_differ(unexpired(es, now)),
        unexpired(es, now).len() <= es.len(),
        forall|i: int|
            0 <= i < unexpired(es, now).len() ==> es.contains(#[trigger] unexpired(es, now)[i])
                && !expired(unexpired(es, now)[i].created, now),
        forall|e: EntryV|
            es.contains(e) && !expired(e.created, now) ==> #[trigger] unexpired(es, now).contains(
                e,
            ),
    decreases es.len(),
{
    if es.len() > 0 {
        let head = es.drop_last();
        assert forall|i: int, j: int| 0 <= i < j < head.len() implies (#[trigger] head[i]).root
            != (#[trigger] head[j]).root by {
            assert(head[i] == es[i] && head[j] == es[j]);
        }
        lemma_unexpired(head, now);
        let rest = unexpired(head, now);
        let all = unexpired(es, now);
        assert forall|i: int| 0 <= i < rest.len() implies es.contains(#[trigger] rest[i])
            && rest[i].root != es.last().root by {
            let k = choose|k: int| 0 <= k < head.len() && head[k] == rest[i];
            assert(es[k] == rest[i]);
            assert(es[k].root != es[es.len() - 1].root);
        }
        assert(es.contains(es[es.len() - 1]));
        assert forall|i: int, j: int| 0 <= i < j < all.len() implies (#[trigger] all[i]).root != (
        #[trigger] all[j]).root by {
            assert(all[i] == rest[i]);
            if j < rest.len() {
                assert(all[j] == rest[j]);
            }
        }
        assert forall|i: int| 0 <= i < all.len() implies es.contains(#[trigger] all[i])
            && !expired(all[i].created, now) by {
            if i < rest.len() {
                assert(all[i] == rest[i]);
            }
        }
        assert forall|e: EntryV| es.contains(e) && !expired(e.created, now) implies
            #[trigger] all.contains(e) by {
            let k = choose|k: int| 0 <= k < es.len() && es[k] == e;
            if k < head.len() {
                assert(head[k] == e);
                assert(head.contains(e));
                assert(rest.contains(e));
                let i = choose|i: int| 0 <= i < rest.len() && rest[i] == e;
                assert(all[i] == e);
            } else {
                assert(all[all.len() - 1] == e);
            }
        }
    }
}

/// Fewer entries, and no new roots: the cache stays sound.
proof fn lemma_with_entries(c: CacheV, es: Seq<EntryV>)
    requires
        c.sound(),
        roots_differ(es),
        forall|r: u64| #[trigger] is_root(es, r) ==> is_root(c.entries, r),
    ensures
        c.with_entries(es).sound(),
{
    lemma_pointing(c.aliases, es);
    let next = c.with_entries(es);
    assert forall|i: int| 0 <= i < next.aliases.len() implies is_root(
        next.entries,
        (#[trigger] next.aliases[i]).1,
    ) && !is_root(next.entries, next.aliases[i].0) by {
        let a = next.aliases[i];
        let k = choose|k: int| 0 <= k < c.aliases.len() && c.aliases[k] == a;
        assert(c.aliases[k] == a);
    }
}

proof fn lemma_sub_roots(small: Seq<EntryV>, big: Seq<EntryV>)
    requires
        forall|i: int| 0 <= i < small.len() ==> big.contains(#[trigger] small[i]),
    ensures
        forall|r: u64| #[trigger] is_root(small, r) ==> is_root(big, r),
{
    assert forall|r: u64| #[trigger] is_root(small, r) implies is_root(big, r) by {
        lemma_place(small, r);
        lemma_place(big, r);
        let x = small[place(small, r)];
        let k = choose|k: int| 0 <= k < big.len() && big[k] == x;
        assert(big[k].root == r);
    }
}

proof fn lemma_removed(c: CacheV, ts: u64)
    requires
        c.wf(),
    ensures
        c.removed(ts).wf(),
{
    let k = place(c.entries, c.resolved(ts));
    lemma_place(c.entries, c.resolved(ts));
    if k < c.entries.len() {
        let es = c.entries.remove(k);
        assert forall|i: int| 0 <= i < es.len() implies c.entries.contains(#[trigger] es[i]) by {
            if i < k {
                assert(es[i] == c.entries[i]);
            } else {
                assert(es[i] == c.entries[i + 1]);
            }
        }
        assert(roots_differ(es)) by {
            assert forall|i: int, j: int| 0 <= i < j < es.len() implies (#[trigger] es[i]).root
                != (#[trigger] es[j]).root by {
                let a = if i < k {
                    i
                } else {
                    i + 1
                };
                let b = if j < k {
                    j
                } else {
                    j + 1
                };
                assert(es[i] == c.entries[a] && es[j] == c.entries[b]);
            }
        }
        lemma_sub_roots(es, c.entries);
        lemma_with_entries(c, es);
    }
}

proof fn lemma_purged(c: CacheV, now: u64)
    requires
        c.wf(),
    ensures
        c.purged(now).wf(),
{
    lemma_unexpired(c.entries, now);
    lemma_sub_roots(unexpired(c.entries, now), c.entries);
    lemma_with_entries(c, unexpired(c.entries, now));
}

proof fn lemma_added(c: CacheV, root: u64, cached: CachedV, now: u64)
    requires
        c.wf(),
    ensures
        c.added(root, cached, now).sound(),
        c.added(root, cached, now).entries.len() <= c.cap + 1,
        is_root(c.added(root, cached, now).entries, root),
        c.added(root, cached, now).entries[place(
            c.added(root, cached, now).entries,
            root,
        )].cached == cached,
        c.added(root, cached, now).entries[place(
            c.added(root, cached, now).entries,
            root,
        )].created == now,
{
    lemma_purged(c, now);
    let p = c.purged(now);
    let a = c.added(root, cached, now);
    let e = EntryV { root, created: now, cached };
    lemma_place(p.entries, root);
    lemma_place(a.entries, root);
    let k = place(p.entries, root);
    assert(a.entries[k] == e);
    assert(place(a.entries, root) == k) by {
        if place(a.entries, root) < k {
            assert(a.entries[place(a.entries, root)] == p.entries[place(a.entries, root)]);
        }
    }
    assert(roots_differ(a.entries)) by {
        assert forall|i: int, j: int| 0 <= i < j < a.entries.len() implies (
        #[trigger] a.entries[i]).root != (#[trigger] a.entries[j]).root by {
            if i != k {
                assert(a.entries[i] == p.entries[i]);
            }
            if j != k {
                assert(a.entries[j] == p.entries[j]);
            }
            if i == k && k < p.entries.len() {
                assert(p.entries[k].root != p.entries[j].root);
            }
        }
    }
    lemma_unaliased(p.aliases, root);
    assert forall|i: int| 0 <= i < a.aliases.len() implies is_root(
        a.entries,
        (#[trigger] a.aliases[i]).1,
    ) && !is_root(a.entries, a.aliases[i].0) by {
        let x = a.aliases[i];
        let m = choose|m: int| 0 <= m < p.aliases.len() && p.aliases[m] == x;
        assert(p.aliases[m] == x);
        lemma_place(p.entries, x.1);
        lemma_place(a.entries, x.1);
        lemma_place(p.entries, x.0);
        lemma_place(a.entries, x.0);
        let n = place(p.entries, x.1);
        assert(a.entries[n].root == x.1);
        if is_root(a.entries, x.0) {
            let q = place(a.entries, x.0);
            if q != k {
                assert(p.entries[q].root == x.0);
            }
        }
    }
}

proof fn lemma_bounded(c: CacheV)
    requires
        c.sound(),
    ensures
        c.bounded().wf(),
{
    if c.entries.len() > c.cap {
        let d = c.entries.len() - c.cap;
        let es = c.entries.skip(d);
        assert forall|i: int| 0 <= i < es.len() implies c.entries.contains(#[trigger] es[i]) by {
            assert(es[i] == c.entries[i + d]);
        }
        assert forall|i: int, j: int| 0 <= i < j < es.len() implies (#[trigger] es[i]).root != (
        #[trigger] es[j]).root by {
            assert(es[i] == c.entries[i + d] && es[j] == c.entries[j + d]);
        }
        lemma_sub_roots(es, c.entries);
        lemma_with_entries(c, es);
    }
}

proof fn lemma_aliased(c: CacheV, ts: u64, root: u64)
    requires
        c.wf(),
    ensures
        c.aliased(ts, root).wf(),
{
    if is_root(c.entries, root) && !is_root(c.entries, ts) {
        lemma_unaliased(c.aliases, ts);
        let next = c.aliased(ts, root);
        let u = unaliased(c.aliases, ts);
        assert forall|i: int| 0 <= i < next.aliases.len() implies is_root(
            next.entries,
            (#[trigger] next.aliases[i]).1,
        ) && !is_root(next.entries, next.aliases[i].0) by {
            if i < u.len() {
                let x = u[i];
                let m = choose|m: int| 0 <= m < c.aliases.len() && c.aliases[m] == x;
                assert(c.aliases[m] == x);
            }
        }
        assert forall|i: int, j: int| 0 <= i < j < next.aliases.len() implies (
        #[trigger] next.aliases[i]).0 != (#[trigger] next.aliases[j]).0 by {
            assert(next.aliases[i] == u[i]);
            if j < u.len() {
                assert(next.aliases[j] == u[j]);
            }
        }
    }
}

// ---------------------------------------------------------------------------
// laws

/// A conversation that was put in is found under its root for as long as it has not
/// expired, and no longer.
pub proof fn law_found_after_insert(
    c: CacheV,
    root: u64,
    cached: CachedV,
    now: u64,
    later: u64,
)
    requires
        c.wf(),
        c.cap > 0,
    ensures
        is_root(c.inserted(root, cached, now).entries, root),
        c.inserted(root, cached, now).found(root, later) == (if expired(now, later) {
            None
        } else {
            Some(cached)
        }),
{
    lemma_added(c, root, cached, now);
    let a = c.added(root, cached, now);
    let b = a.bounded();
    lemma_bounded(a);
    lemma_purged(c, now);
    let p = c.purged(now);
    let k = place(a.entries, root);
    lemma_place(a.entries, root);
    lemma_place(p.entries, root);
    lemma_unexpired(c.entries, now);
    if a.entries.len() > a.cap {
        assert(a.entries.len() == a.cap + 1);
        assert(k == p.entries.len());
        assert(b.entries[k - 1] == a.entries[k]);
        lemma_place(b.entries, root);
        assert(b.entries[k - 1].root == root);
        let m = place(b.entries, root);
        assert(b.entries[m] == a.entries[m + 1]);
        assert(m == k - 1);
        lemma_root_is_itself(b, root);
    } else {
        lemma_root_is_itself(b, root);
    }
}

/// A root is not an alias.
proof fn lemma_root_is_itself(c: CacheV, root: u64)
    requires
        c.sound(),
        is_root(c.entries, root),
    ensures
        c.resolved(root) == root,
{
    lemma_alias_of(c.aliases, root);
    if alias_of(c.aliases, root) is Some {
        let i = choose|i: int|
            0 <= i < c.aliases.len() && #[trigger] c.aliases[i] == (
                root,
                alias_of(c.aliases, root)->0,
            );
        assert(!is_root(c.entries, c.aliases[i].0));
    }
}

/// A timestamp is either a root or an alias, never both.
pub proof fn law_never_both(c: CacheV, ts: u64)
    requires
        c.wf(),
    ensures
        !(is_root(c.entries, ts) && alias_of(c.aliases, ts) is Some),
{
    if is_root(c.entries, ts) {
        lemma_alias_of(c.aliases, ts);
        if alias_of(c.aliases, ts) is Some {
            let i = choose|i: int|
                0 <= i < c.aliases.len() && #[trigger] c.aliases[i] == (
                    ts,
                    alias_of(c.aliases, ts)->0,
                );
            assert(!is_root(c.entries, c.aliases[i].0));
        }
    }
}

/// What stands for a root finds what the root finds.
pub proof fn law_alias_finds_the_answer(c: CacheV, ts: u64, root: u64, now: u64)
    requires
        c.wf(),
        is_root(c.entries, root),
        !is_root(c.entries, ts),
    ensures
        c.aliased(ts, root).found(ts, now) == c.found(root, now),
{
    lemma_aliased(c, ts, root);
    let next = c.aliased(ts, root);
    lemma_alias_is(next.aliases, next.aliases.len() - 1);
    assert(next.aliases[next.aliases.len() - 1] == (ts, root));
    lemma_root_is_itself(c, root);
}

/// What was removed is found no more, whichever way it is addressed.
pub proof fn law_removed_is_gone(c: CacheV, ts: u64, other: u64, now: u64)
    requires
        c.wf(),
        c.resolved(other) == c.resolved(ts),
    ensures
        c.removed(ts).found(other, now) is None,
{
    lemma_removed(c, ts);
    let root = c.resolved(ts);
    let k = place(c.entries, root);
    lemma_place(c.entries, root);
    if k < c.entries.len() {
        let next = c.removed(ts);
        lemma_place(next.entries, root);
        assert(!is_root(next.entries, root)) by {
            if is_root(next.entries, root) {
                let i = place(next.entries, root);
                if i < k {
                    assert(next.entries[i] == c.entries[i]);
                } else {
                    assert(next.entries[i] == c.entries[i + 1]);
                    assert(c.entries[k].root != c.entries[i + 1].root);
                }
            }
        }
        lemma_pointing(c.aliases, next.entries);
        lemma_alias_of(next.aliases, other);
        if alias_of(next.aliases, other) is Some {
            let i = choose|i: int|
                0 <= i < next.aliases.len() && #[trigger] next.aliases[i] == (
                    other,
                    alias_of(next.aliases, other)->0,
                );
            let a = next.aliases[i];
            let m = choose|m: int| 0 <= m < c.aliases.len() && c.aliases[m] == a;
            assert(c.aliases[m] == a);
            lemma_alias_is(c.aliases, m);
            assert(a.1 == root);
            assert(is_root(next.entries, a.1));
        } else {
            lemma_place(next.entries, other);
            lemma_alias_of(c.aliases, other);
            if alias_of(c.aliases, other) is None {
                assert(other == root);
            } else {
                let i = choose|i: int|
                    0 <= i < c.aliases.len() && #[trigger] c.aliases[i] == (
                        other,
                        alias_of(c.aliases, other)->0,
                    );
                assert(!is_root(c.entries, c.aliases[i].0));
                if is_root(next.entries, other) {
                    let j = place(next.entries, other);
                    lemma_place(c.entries, other);
                    if j < k {
                        assert(c.entries[j].root == other);
                    } else {
                        assert(c.entries[j + 1].root == other);
                    }
                }
            }
        }
    }
}

/// Putting a conversation in keeps the cache consistent.
pub proof fn law_insert_keeps_wf(c: CacheV, root: u64, cached: CachedV, now: u64)
    requires
        c.wf(),
    ensures
        c.inserted(root, cached, now).wf(),
{
    lemma_added(c, root, cached, now);
    lemma_bounded(c.added(root, cached, now));
}

/// Letting another message stand for an answer changes nothing for the roots.
pub proof fn law_alias_leaves_roots(c: CacheV, ts: u64, root: u64, now: u64)
    requires
        c.wf(),
    ensures
        c.aliased(ts, root).wf(),
        forall|r: u64| #[trigger]
            is_root(c.entries, r) ==> c.aliased(ts, root).found(r, now) == c.found(r, now),
{
    lemma_aliased(c, ts, root);
    assert forall|r: u64| #[trigger] is_root(c.entries, r) implies c.aliased(ts, root).found(
        r,
        now,
    ) == c.found(r, now) by {
        lemma_root_is_itself(c, r);
        lemma_root_is_itself(c.aliased(ts, root), r);
    }
}

/// Taking one conversation out leaves the others.
pub proof fn law_remove_leaves_others(c: CacheV, ts: u64, root: u64, now: u64)
    requires
        c.wf(),
        is_root(c.entries, root),
        c.resolved(ts) != root,
    ensures
        is_root(c.removed(ts).entries, root),
        c.removed(ts).found(root, now) == c.found(root, now),
{
    lemma_removed(c, ts);
    lemma_root_is_itself(c, root);
    let gone = c.resolved(ts);
    let k = place(c.entries, gone);
    lemma_place(c.entries, gone);
    if k < c.entries.len() {
        let next = c.removed(ts);
        lemma_place(c.entries, root);
        lemma_place(next.entries, root);
        let i = place(c.entries, root);
        let j = if i < k {
            i
        } else {
            i - 1
        };
        assert(i != k);
        assert(next.entries[j] == c.entries[i]);
        let m = place(next.entries, root);
        assert(m < next.entries.len());
        if m != j {
            if m < j {
                assert(next.entries[m].root != next.entries[j].root);
            } else {
                assert(next.entries[j].root != next.entries[m].root);
            }
        }
        lemma_root_is_itself(next, root);
    }
}

/// Only the oldest make room for a new conversation: what stays is the newest of
/// what there was, in the same order.
pub proof fn law_oldest_make_room(c: CacheV, root: u64, cached: CachedV, now: u64)
    requires
        c.wf(),
    ensures
        c.inserted(root, cached, now).entries.len() <= c.cap,
        c.added(root, cached, now).entries.len() <= c.cap ==> c.inserted(root, cached, now).entries
            == c.added(root, cached, now).entries,
        c.added(root, cached, now).entries.len() > c.cap ==> c.inserted(root, cached, now).entries
            == c.added(root, cached, now).entries.skip(1),
{
    lemma_added(c, root, cached, now);
    lemma_bounded(c.added(root, cached, now));
}

// ---------------------------------------------------------------------------
// the cache

/// Conversations keyed by the bot answer's root (placeholder) timestamp, the same
/// value that a later reply resolves to. Messages of the same answer that sit
/// outside its edit chain (generated images travel as their own message) reach the
/// entry through `aliases`. Bounded by `cap` (oldest-inserted evicted first) and by
/// `TTL`. Time is a count of milliseconds that never runs backwards.
pub struct ConvoCache {
    pub cap: usize,
    /// the oldest first
    pub entries: Vec<Entry>,
    pub aliases: Vec<(u64, u64)>,
}

impl View for ConvoCache {
    type V = CacheV;

    open spec fn view(&self) -> CacheV {
        CacheV { cap: self.cap, entries: entries_view(self.entries@), aliases: self.aliases@ }
    }
}

impl ConvoCache {
    /// The cache is consistent, and so is what it holds.
    pub open spec fn wf(&self) -> bool {
        &&& self@.wf()
        &&& forall|i: int| 0 <= i < self.entries@.len() ==> (#[trigger] self.entries@[i]).cached.wf()
    }

    pub fn new(cap: usize) -> (r: ConvoCache)
        ensures
            r.wf(),
            r@ == (CacheV { cap, entries: Seq::empty(), aliases: Seq::empty() }),
    {
        let r = ConvoCache { cap, entries: Vec::new(), aliases: Vec::new() };
        assert(r@.entries =~= Seq::empty());
        r
    }

    fn position(&self, root: u64) -> (r: usize)
        ensures
            r == place(self@.entries, root),
            r <= self.entries@.len(),
    {
        let ghost es = self@.entries;
        let mut i: usize = 0;
        assert(es.skip(0) =~= es);
        while i < self.entries.len()
            invariant
                es == entries_view(self.entries@),
                i <= self.entries@.len(),
                place(es, root) == i + place(es.skip(i as int), root),
            decreases self.entries@.len() - i,
        {
            assert(es.skip(i as int)[0] == es[i as int]);
            assert(es.skip(i as int).skip(1) =~= es.skip(i + 1));
            if self.entries[i].root == root {
                return i;
            }
            i += 1;
        }
        assert(es.skip(i as int).len() == 0);
        i
    }

    /// The root that `ts` stands for.
    fn resolve(&self, ts: u64) -> (r: u64)
        ensures
            r == self@.resolved(ts),
    {
        let mut i: usize = 0;
        assert(self.aliases@.skip(0) =~= self.aliases@);
        while i < self.aliases.len()
            invariant
                i <= self.aliases@.len(),
                alias_of(self.aliases@, ts) == alias_of(self.aliases@.skip(i as int), ts),
            decreases self.aliases@.len() - i,
        {
            let ghost rest = self.aliases@.skip(i as int);
            assert(rest[0] == self.aliases@[i as int]);
            assert(rest.skip(1) =~= self.aliases@.skip(i + 1));
            if self.aliases[i].0 == ts {
                return self.aliases[i].1;
            }
            i += 1;
        }
        ts
    }

    /// Drops the aliases that point nowhere.
    fn drop_stray_aliases(&mut self)
        ensures
            final(self)@ == (CacheV {
                aliases: pointing(old(self)@.aliases, old(self)@.entries),
                ..old(self)@
            }),
            final(self).entries == old(self).entries,
    {
        let ghost es = self@.entries;
        let ghost start = self.aliases@;
        let mut kept: Vec<(u64, u64)> = Vec::new();
        assert(start.take(0) =~= Seq::empty());
        for i in 0..self.aliases.len()
            invariant
                start == self.aliases@,
                es == self@.entries,
                *self == *old(self),
                kept@ == pointing(start.take(i as int), es),
        {
            assert(start.take(i + 1).drop_last() =~= start.take(i as int));
            let a = self.aliases[i];
            if self.position(a.1) < self.entries.len() {
                kept.push(a);
            }
        }
        assert(start.take(start.len() as int) =~= start);
        self.aliases = kept;
    }

    fn drop_alias(&mut self, ts: u64)
        ensures
            final(self)@ == (CacheV { aliases: unaliased(old(self)@.aliases, ts), ..old(self)@ }),
            final(self).entries == old(self).entries,
    {
        let ghost start = self.aliases@;
        let mut kept: Vec<(u64, u64)> = Vec::new();
        assert(start.take(0) =~= Seq::empty());
        for i in 0..self.aliases.len()
            invariant
                start == self.aliases@,
                *self == *old(self),
                kept@ == unaliased(start.take(i as int), ts),
        {
            assert(start.take(i + 1).drop_last() =~= start.take(i as int));
            let a = self.aliases[i];
            if a.0 != ts {
                kept.push(a);
            }
        }
        assert(start.take(start.len() as int) =~= start);
        self.aliases = kept;
    }

    /// The conversation that `ts` stands for. An aged-out entry is a miss (and gets
    /// dropped on the way).
    pub fn get(&mut self, ts: u64, now: u64) -> (r: Option<&Cached>)
        requires
            old(self).wf(),
        ensures
            match r {
                Some(c) => old(self)@.found(ts, now) == Some(c@) && c.wf(),
                None => old(self)@.found(ts, now) is None,
            },
            final(self)@ == old(self)@.looked_up(ts, now),
            final(self).wf(),
    {
        let root = self.resolve(ts);
        let k = self.position(root);
        proof {
            lemma_place(self@.entries, root);
        }
        if k == self.entries.len() {
            return None;
        }
        let created = self.entries[k].created;
        if now >= created && now - created >= TTL {
            self.remove(root);
            return None;
        }
        Some(&self.entries[k].cached)
    }

    /// Lets a reply to `ts` resolve to the answer rooted at `root_ts`, where that is
    /// kept. A root keeps its own conversation: where `ts` is one itself, nothing
    /// changes.
    pub fn alias(&mut self, ts: u64, root_ts: u64)
        requires
            old(self).wf(),
        ensures
            final(self)@ == old(self)@.aliased(ts, root_ts),
            final(self).wf(),
    {
        proof {
            lemma_aliased(self@, ts, root_ts);
            lemma_place(self@.entries, root_ts);
            lemma_place(self@.entries, ts);
        }
        let known = self.position(root_ts) < self.entries.len();
        let taken = self.position(ts) < self.entries.len();
        if known && !taken {
            self.drop_alias(ts);
            self.aliases.push((ts, root_ts));
        }
    }

    /// Puts a conversation in, in place of the one with the same root if there is
    /// one.
    pub fn insert(&mut self, root_ts: u64, cached: Cached, now: u64)
        requires
            old(self).wf(),
            cached.wf(),
        ensures
            final(self)@ == old(self)@.inserted(root_ts, cached@, now),
            final(self).wf(),
    {
        proof {
            lemma_added(self@, root_ts, cached@, now);
            lemma_bounded(self@.added(root_ts, cached@, now));
        }
        let ghost start = self@;
        self.purge_expired(now);
        self.drop_alias(root_ts);
        let k = self.position(root_ts);
        let ghost before = self@.entries;
        let entry = Entry { root: root_ts, created: now, cached };
        if k < self.entries.len() {
            self.entries[k] = entry;
            assert(self@.entries =~= before.update(k as int, entry@));
        } else {
            self.entries.push(entry);
            assert(self@.entries =~= before.push(entry@));
        }
        assert(self@ == start.added(root_ts, cached@, now));
        if self.entries.len() > self.cap {
            let d: usize = self.entries.len() - self.cap;
            let ghost full = self.entries@;
            let kept = self.entries.split_off(d);
            self.entries = kept;
            assert(self.entries@ =~= full.skip(d as int));
            assert(self@.entries =~= entries_view(full).skip(d as int));
            assert forall|i: int| 0 <= i < self.entries@.len() implies (
            #[trigger] self.entries@[i]).cached.wf() by {
                assert(self.entries@[i] == full[i + d]);
            }
            self.drop_stray_aliases();
        }
    }

    /// Takes out the conversation that `ts` stands for.
    pub fn remove(&mut self, ts: u64)
        requires
            old(self).wf(),
        ensures
            final(self)@ == old(self)@.removed(ts),
            final(self).wf(),
    {
        proof {
            lemma_removed(self@, ts);
        }
        let root = self.resolve(ts);
        let k = self.position(root);
        if k < self.entries.len() {
            let ghost full = self.entries@;
            self.entries.remove(k);
            assert(self.entries@ =~= full.remove(k as int));
            assert(self@.entries =~= entries_view(full).remove(k as int));
            assert forall|i: int| 0 <= i < self.entries@.len() implies (
            #[trigger] self.entries@[i]).cached.wf() by {
                if i < k {
                    assert(self.entries@[i] == full[i]);
                } else {
                    assert(self.entries@[i] == full[i + 1]);
                }
            }
            self.drop_stray_aliases();
        }
    }

    /// Takes out what has expired.
    pub fn purge_expired(&mut self, now: u64)
        requires
            old(self).wf(),
        ensures
            final(self)@ == old(self)@.purged(now),
            final(self).wf(),
    {
        broadcast use lemma_entries_push;

        proof {
            lemma_purged(self@, now);
        }
        let ghost start = self@;
        let mut all: Vec<Entry> = Vec::new();
        std::mem::swap(&mut all, &mut self.entries);
        let ghost es = entries_view(all@);
        let mut kept: Vec<Entry> = Vec::new();
        assert(es.take(0) =~= Seq::empty());
        assert(entries_view(kept@) =~= Seq::empty());
        for e in it: all
            invariant
                es == entries_view(it.seq()),
                forall|i: int| 0 <= i < it.seq().len() ==> (#[trigger] it.seq()[i]).cached.wf(),
                entries_view(kept@) == unexpired(es.take(it.index() as int), now),
                forall|i: int| 0 <= i < kept@.len() ==> (#[trigger] kept@[i]).cached.wf(),
        {
            let ghost i = it.index() as int;
            assert(es.take(i + 1).drop_last() =~= es.take(i));
            assert(es.take(i + 1).last() == e@);
            assert(it.seq()[i].cached.wf());
            if !(now >= e.created && now - e.created >= TTL) {
                kept.push(e);
            }
        }
        assert(es.take(es.len() as int) =~= es);
        self.entries = kept;
        assert(self@.aliases == start.aliases);
        self.drop_stray_aliases();
    }
}

// ---------------------------------------------------------------------------
// laws on what is kept

proof fn lemma_its_place(es: Seq<EntryV>, i: int)
    requires
        roots_differ(es),
        0 <= i < es.len(),
    ensures
        is_root(es, es[i].root),
        place(es, es[i].root) == i,
{
    lemma_place(es, es[i].root);
    let k = place(es, es[i].root);
    if k < i {
        assert(es[k].root != es[i].root);
    }
}

proof fn lemma_found_among(c: CacheV, es: Seq<EntryV>, ts: u64, now: u64)
    requires
        c.sound(),
        roots_differ(es),
        forall|i: int| 0 <= i < es.len() ==> c.entries.contains(#[trigger] es[i]),
    ensures
        is_root(es, c.resolved(ts)) ==> c.with_entries(es).found(ts, now) == c.found(ts, now),
        !is_root(es, c.resolved(ts)) ==> c.with_entries(es).found(ts, now) is None,
        is_root(es, c.resolved(ts)) ==> c.with_entries(es).resolved(ts) == c.resolved(ts),
{
    let d = c.with_entries(es);
    let r = c.resolved(ts);
    lemma_sub_roots(es, c.entries);
    lemma_with_entries(c, es);
    lemma_pointing(c.aliases, es);
    lemma_alias_of(c.aliases, ts);
    lemma_alias_of(d.aliases, ts);
    if alias_of(c.aliases, ts) is Some {
        let i = choose|i: int| 0 <= i < c.aliases.len() && #[trigger] c.aliases[i] == (ts, r);
        assert(c.aliases.contains((ts, r)));
        if is_root(es, r) {
            assert(d.aliases.contains((ts, r)));
            let k = choose|k: int| 0 <= k < d.aliases.len() && d.aliases[k] == (ts, r);
            lemma_alias_is(d.aliases, k);
        } else {
            if alias_of(d.aliases, ts) is Some {
                let k = choose|k: int|
                    0 <= k < d.aliases.len() && #[trigger] d.aliases[k] == (
                        ts,
                        alias_of(d.aliases, ts)->0,
                    );
                assert(c.aliases.contains(d.aliases[k]));
                let j = choose|j: int| 0 <= j < c.aliases.len() && c.aliases[j] == d.aliases[k];
                lemma_alias_is(c.aliases, j);
            }
            assert(!is_root(c.entries, c.aliases[i].0));
            assert(!is_root(es, ts));
        }
    } else {
        if alias_of(d.aliases, ts) is Some {
            let k = choose|k: int|
                0 <= k < d.aliases.len() && #[trigger] d.aliases[k] == (
                    ts,
                    alias_of(d.aliases, ts)->0,
                );
            assert(c.aliases.contains(d.aliases[k]));
            let j = choose|j: int| 0 <= j < c.aliases.len() && c.aliases[j] == d.aliases[k];
            assert(c.aliases[j].0 == ts);
        }
    }
    if is_root(es, r) {
        lemma_place(es, r);
        let e = es[place(es, r)];
        assert(c.entries.contains(e));
        let j = choose|j: int| 0 <= j < c.entries.len() && c.entries[j] == e;
        lemma_its_place(c.entries, j);
    }
}

/// A conversation is found for twelve hours from when it was put in, and no longer; what
/// is neither the root of one nor stands for one is not found.
pub proof fn law_kept_for_twelve_hours(c: CacheV, ts: u64, i: int, now: u64)
    requires
        c.wf(),
    ensures
        0 <= i < c.entries.len() && (ts == c.entries[i].root || c.aliases.contains(
            (ts, c.entries[i].root),
        )) ==> c.found(ts, now) == (if now < c.entries[i].created + 12 * 60 * 60 * 1000 {
            Some(c.entries[i].cached)
        } else {
            None
        }),
        (forall|k: int| 0 <= k < c.entries.len() ==> (#[trigger] c.entries[k]).root != ts) && (
        forall|k: int| 0 <= k < c.aliases.len() ==> (#[trigger] c.aliases[k]).0 != ts) ==> c.found(
            ts,
            now,
        ) is None,
{
    lemma_alias_of(c.aliases, ts);
    if 0 <= i < c.entries.len() {
        lemma_its_place(c.entries, i);
        if c.aliases.contains((ts, c.entries[i].root)) {
            let k = choose|k: int|
                0 <= k < c.aliases.len() && c.aliases[k] == (ts, c.entries[i].root);
            lemma_alias_is(c.aliases, k);
        } else if ts == c.entries[i].root {
            lemma_root_is_itself(c, ts);
        }
    }
    lemma_place(c.entries, ts);
}

/// Clearing out what has expired changes nothing that could still be found.
pub proof fn law_purging_loses_nothing(c: CacheV, now: u64, ts: u64, later: u64)
    requires
        c.wf(),
        now <= later,
    ensures
        c.purged(now).found(ts, later) == c.found(ts, later),
        c.purged(now).entries == c.entries.filter(
            |e: EntryV| now < e.created + 12 * 60 * 60 * 1000,
        ),
{
    let es = unexpired(c.entries, now);
    lemma_unexpired(c.entries, now);
    lemma_unexpired_is_filter(c.entries, now);
    lemma_found_among(c, es, ts, later);
    let r = c.resolved(ts);
    if !is_root(es, r) && is_root(c.entries, r) {
        lemma_place(c.entries, r);
        let k = place(c.entries, r);
        if !expired(c.entries[k].created, now) {
            assert(c.entries.contains(c.entries[k]));
            assert(es.contains(c.entries[k]));
            let j = choose|j: int| 0 <= j < es.len() && es[j] == c.entries[k];
            lemma_its_place(es, j);
        }
    }
}

proof fn lemma_unexpired_is_filter(es: Seq<EntryV>, now: u64)
    ensures
        unexpired(es, now) == es.filter(|e: EntryV| now < e.created + 12 * 60 * 60 * 1000),
    decreases es.len(),
{
    reveal(Seq::filter);
    if es.len() > 0 {
        lemma_unexpired_is_filter(es.drop_last(), now);
    }
}

/// Looking a conversation up changes nothing that could still be found.
pub proof fn law_looking_up_loses_nothing(c: CacheV, ts: u64, now: u64, other: u64, later: u64)
    requires
        c.wf(),
        now <= later,
    ensures
        c.looked_up(ts, now).found(other, later) == c.found(other, later),
{
    let r = c.resolved(ts);
    let k = place(c.entries, r);
    lemma_place(c.entries, r);
    if k < c.entries.len() && expired(c.entries[k].created, now) {
        lemma_root_is_itself(c, r);
        law_only_that_one_is_removed(c, r, other, later);
    }
}

/// Taking a conversation out leaves every other where it was, whatever it is asked for
/// by; whatever stands for the one taken out finds nothing.
pub proof fn law_only_that_one_is_removed(c: CacheV, ts: u64, other: u64, now: u64)
    requires
        c.wf(),
    ensures
        c.resolved(other) != c.resolved(ts) ==> c.removed(ts).found(other, now) == c.found(
            other,
            now,
        ),
        c.resolved(other) == c.resolved(ts) ==> c.removed(ts).found(other, now) is None,
{
    let k = place(c.entries, c.resolved(ts));
    lemma_place(c.entries, c.resolved(ts));
    if k < c.entries.len() {
        let es = c.entries.remove(k);
        assert forall|i: int| 0 <= i < es.len() implies c.entries.contains(#[trigger] es[i]) by {
            if i < k {
                assert(es[i] == c.entries[i]);
            } else {
                assert(es[i] == c.entries[i + 1]);
            }
        }
        lemma_found_among(c, es, other, now);
        let r = c.resolved(other);
        lemma_place(c.entries, r);
        lemma_place(es, r);
        if r != c.resolved(ts) {
            if is_root(c.entries, r) {
                let j = place(c.entries, r);
                if j < k {
                    assert(es[j].root == r);
                } else {
                    assert(es[j - 1].root == r);
                }
            }
        } else if is_root(es, r) {
            let j = place(es, r);
            if j < k {
                assert(c.entries[j].root == r);
            } else {
                assert(c.entries[j + 1].root == r);
            }
        }
    } else {
        lemma_place(c.entries, c.resolved(other));
    }
}

/// A timestamp that is made to stand for an answer takes nothing away from any other.
pub proof fn law_an_alias_leaves_the_others(c: CacheV, ts: u64, root: u64, other: u64, now: u64)
    requires
        c.wf(),
        other != ts,
    ensures
        c.aliased(ts, root).found(other, now) == c.found(other, now),
        c.aliased(ts, root).entries == c.entries,
{
    let d = c.aliased(ts, root);
    lemma_aliased(c, ts, root);
    lemma_unaliased(c.aliases, ts);
    lemma_alias_of(c.aliases, other);
    lemma_alias_of(d.aliases, other);
    if is_root(c.entries, root) && !is_root(c.entries, ts) {
        if alias_of(c.aliases, other) is Some {
            let x = (other, alias_of(c.aliases, other)->0);
            assert(c.aliases.contains(x));
            assert(unaliased(c.aliases, ts).contains(x));
            let k = choose|k: int|
                0 <= k < unaliased(c.aliases, ts).len() && unaliased(c.aliases, ts)[k] == x;
            assert(d.aliases[k] == x);
            lemma_alias_is(d.aliases, k);
        } else if alias_of(d.aliases, other) is Some {
            let k = choose|k: int|
                0 <= k < d.aliases.len() && #[trigger] d.aliases[k] == (
                    other,
                    alias_of(d.aliases, other)->0,
                );
            assert(d.aliases[k] == unaliased(c.aliases, ts)[k]);
            assert(c.aliases.contains(d.aliases[k]));
            let j = choose|j: int| 0 <= j < c.aliases.len() && c.aliases[j] == d.aliases[k];
            assert(c.aliases[j].0 == other);
        }
    }
}

proof fn lemma_unexpired_at(es: Seq<EntryV>, i: int, now: u64)
    requires
        0 <= i < es.len(),
        !expired(es[i].created, now),
    ensures
        unexpired(es.take(i), now).len() < unexpired(es, now).len(),
        unexpired(es, now)[unexpired(es.take(i), now).len() as int] == es[i],
    decreases es.len(),
{
    let head = es.drop_last();
    if i == es.len() - 1 {
        assert(es.take(i) =~= head);
    } else {
        assert(es.take(i) =~= head.take(i));
        lemma_unexpired_at(head, i, now);
    }
}

proof fn lemma_some_unexpired(es: Seq<EntryV>, j: int, now: u64)
    requires
        0 <= j < es.len(),
        !expired(es[j].created, now),
    ensures
        unexpired(es, now).len() > 0,
{
    lemma_unexpired_at(es, j, now);
}

/// Putting a conversation in takes no other one away that is not too old, as long as there
/// is room for it or an older one to make some; whatever it is asked for by, it is found
/// as before.
pub proof fn law_inserting_leaves_the_others(
    c: CacheV,
    root: u64,
    cached: CachedV,
    now: u64,
    ts: u64,
    i: int,
    later: u64,
)
    requires
        c.wf(),
        now <= later,
        0 <= i < c.entries.len(),
        ts == c.entries[i].root || c.aliases.contains((ts, c.entries[i].root)),
        now < c.entries[i].created + 12 * 60 * 60 * 1000,
        root != ts,
        root != c.entries[i].root,
        c.entries.len() < c.cap || exists|j: int|
            0 <= j < i && now < (#[trigger] c.entries[j]).created + 12 * 60 * 60 * 1000,
    ensures
        c.inserted(root, cached, now).found(ts, later) == c.found(ts, later),
{
    let r = c.entries[i].root;
    lemma_its_place(c.entries, i);
    if c.aliases.contains((ts, r)) {
        let k = choose|k: int| 0 <= k < c.aliases.len() && c.aliases[k] == (ts, r);
        lemma_alias_is(c.aliases, k);
    } else {
        lemma_root_is_itself(c, ts);
    }
    assert(c.resolved(ts) == r);
    let p = c.purged(now);
    lemma_purged(c, now);
    law_purging_loses_nothing(c, now, ts, later);
    lemma_unexpired(c.entries, now);
    lemma_unexpired_at(c.entries, i, now);
    let at = unexpired(c.entries.take(i), now).len() as int;
    assert(p.entries[at] == c.entries[i]);
    lemma_its_place(p.entries, at);
    lemma_found_among(c, p.entries, ts, later);
    assert(p.resolved(ts) == r);
    // the conversation that is put in
    let a = c.added(root, cached, now);
    lemma_added(c, root, cached, now);
    lemma_place(p.entries, root);
    assert(a.entries[at] == c.entries[i]);
    lemma_its_place(a.entries, at);
    lemma_unaliased(p.aliases, root);
    lemma_alias_of(p.aliases, ts);
    if alias_of(p.aliases, ts) is Some {
        assert(p.aliases.contains((ts, r)));
        assert(a.aliases.contains((ts, r)));
        let k = choose|k: int| 0 <= k < a.aliases.len() && a.aliases[k] == (ts, r);
        lemma_alias_is(a.aliases, k);
    } else {
        lemma_root_is_itself(a, ts);
    }
    assert(a.resolved(ts) == r);
    assert(a.found(ts, later) == c.found(ts, later));
    // room for it
    if a.entries.len() > a.cap {
        let d = a.entries.len() - a.cap;
        let es = a.entries.skip(d);
        if c.entries.len() >= c.cap {
            let j = choose|j: int|
                0 <= j < i && now < (#[trigger] c.entries[j]).created + 12 * 60 * 60 * 1000;
            assert(c.entries.take(i)[j] == c.entries[j]);
            lemma_some_unexpired(c.entries.take(i), j, now);
        }
        assert(at >= d);
        assert(es[at - d] == c.entries[i]);
        assert forall|x: int, y: int| 0 <= x < y < es.len() implies (#[trigger] es[x]).root != (
        #[trigger] es[y]).root by {
            assert(es[x] == a.entries[x + d] && es[y] == a.entries[y + d]);
        }
        assert forall|x: int| 0 <= x < es.len() implies a.entries.contains(#[trigger] es[x]) by {
            assert(es[x] == a.entries[x + d]);
        }
        lemma_its_place(es, at - d);
        lemma_found_among(a, es, ts, later);
    }
}

} // verus!
