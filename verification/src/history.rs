//! The recent messages of a chat, as one entry per message.
use std::collections::HashMap;
use vstd::prelude::*;

use crate::attachment::{attachments, Attachment, AttachmentV};
use crate::config::Config;
use crate::message::{reply_opt, ReplyRef, ReplyRefV, Version, VersionV};
use crate::text::same_text;

verus! {

broadcast use vstd::std_specs::hash::group_hash_axioms;

/// A message of the chat, its edits applied.
pub struct HistMsg {
    pub is_ai: bool,
    pub speaker: String,
    pub reply_to: Option<ReplyRef>,
    pub text: String,
    /// what came attached to the message
    pub atts: Vec<Attachment>,
    /// when the message was first sent
    pub ts: u64,
}

/// The mathematical model of a message of the chat.
#[verifier::ext_equal]
pub struct HistMsgV {
    pub is_ai: bool,
    pub speaker: Seq<char>,
    pub reply_to: Option<ReplyRefV>,
    pub text: Seq<char>,
    pub atts: Seq<AttachmentV>,
    pub ts: u64,
}

impl View for HistMsg {
    type V = HistMsgV;

    open spec fn view(&self) -> HistMsgV {
        HistMsgV {
            is_ai: self.is_ai,
            speaker: self.speaker@,
            reply_to: reply_opt(self.reply_to),
            text: self.text@,
            atts: attachments(self.atts@),
            ts: self.ts,
        }
    }
}

/// The models of a list of messages.
pub open spec fn hist_msgs(v: Seq<HistMsg>) -> Seq<HistMsgV> {
    Seq::new(v.len(), |i: int| v[i]@)
}

/// The models of a list of revisions.
pub open spec fn versions_view(v: Seq<Version>) -> Seq<VersionV> {
    Seq::new(v.len(), |i: int| v[i]@)
}

broadcast proof fn lemma_hist_push(v: Seq<HistMsg>, x: HistMsg)
    ensures
        #[trigger] hist_msgs(v.push(x)) == hist_msgs(v).push(x@),
{
    assert(hist_msgs(v.push(x)) =~= hist_msgs(v).push(x@));
}

proof fn lemma_hist_insert(v: Seq<HistMsg>, i: int, x: HistMsg)
    requires
        0 <= i <= v.len(),
    ensures
        hist_msgs(v.insert(i, x)) == hist_msgs(v).insert(i, x@),
{
    assert(hist_msgs(v.insert(i, x)) =~= hist_msgs(v).insert(i, x@));
}

// ---------------------------------------------------------------------------
// revisions in order

/// `v` put behind every revision that is not newer.
pub open spec fn version_placed(s: Seq<VersionV>, v: VersionV) -> Seq<VersionV>
    decreases s.len(),
{
    if s.len() > 0 && s.last().own_ts > v.own_ts {
        version_placed(s.drop_last(), v).push(s.last())
    } else {
        s.push(v)
    }
}

/// The revisions between the two times, both exclusive, the oldest first; of two
/// with the same time the one that is listed first.
pub open spec fn in_window(vs: Seq<VersionV>, since: u64, before: u64) -> Seq<VersionV>
    decreases vs.len(),
{
    if vs.len() == 0 {
        Seq::empty()
    } else {
        let rest = in_window(vs.drop_last(), since, before);
        if since < vs.last().own_ts < before {
            version_placed(rest, vs.last())
        } else {
            rest
        }
    }
}

proof fn lemma_version_placed(s: Seq<VersionV>, x: VersionV, n: int)
    requires
        0 <= n <= s.len(),
        forall|i: int| n <= i < s.len() ==> (#[trigger] s[i]).own_ts > x.own_ts,
        n == 0 || s[n - 1].own_ts <= x.own_ts,
    ensures
        version_placed(s, x) == s.insert(n, x),
    decreases s.len(),
{
    if n < s.len() {
        assert(s[s.len() - 1].own_ts > x.own_ts);
        assert forall|i: int| n <= i < s.drop_last().len() implies (
        #[trigger] s.drop_last()[i]).own_ts > x.own_ts by {
            assert(s.drop_last()[i] == s[i]);
        }
        lemma_version_placed(s.drop_last(), x, n);
        assert(s.drop_last().insert(n, x).push(s.last()) =~= s.insert(n, x));
    } else {
        assert(s.push(x) =~= s.insert(n, x));
    }
}

// ---------------------------------------------------------------------------
// one entry per message

/// The position of the entry of a message; the number of entries where it has
/// none.
pub open spec fn entry_at(es: Seq<HistMsgV>, root: u64) -> int
    decreases es.len(),
{
    if es.len() == 0 || es[0].ts == root {
        0
    } else {
        1 + entry_at(es.skip(1), root)
    }
}

/// The message that a revision is of: itself, or the one that its target is a
/// revision of.
pub open spec fn root_of(roots: Map<u64, u64>, v: VersionV) -> u64 {
    match v.target {
        None => v.own_ts,
        Some(t) => if roots.contains_key(t) {
            roots[t]
        } else {
            t
        },
    }
}

/// The entries after one revision more: an edit swaps the text of its message and
/// keeps the sender, the reply and the attachments of the original.
pub open spec fn entries_with(es: Seq<HistMsgV>, root: u64, v: VersionV) -> Seq<HistMsgV> {
    let k = entry_at(es, root);
    if k < es.len() {
        es.update(k, HistMsgV { text: v.body, ..es[k] })
    } else {
        es.push(
            HistMsgV {
                is_ai: v.is_ai,
                speaker: v.speaker,
                reply_to: v.reply_to,
                text: v.body,
                atts: v.atts,
                ts: root,
            },
        )
    }
}

/// The message of each revision.
pub open spec fn roots_of(vs: Seq<VersionV>) -> Map<u64, u64>
    decreases vs.len(),
{
    if vs.len() == 0 {
        Map::empty()
    } else {
        let roots = roots_of(vs.drop_last());
        roots.insert(vs.last().own_ts, root_of(roots, vs.last()))
    }
}

/// The messages that revisions collapse to, in the order in which they turn up.
pub open spec fn collapsed(vs: Seq<VersionV>) -> Seq<HistMsgV>
    decreases vs.len(),
{
    if vs.len() == 0 {
        Seq::empty()
    } else {
        let v = vs.last();
        entries_with(collapsed(vs.drop_last()), root_of(roots_of(vs.drop_last()), v), v)
    }
}

proof fn lemma_entry_at(es: Seq<HistMsgV>, root: u64)
    ensures
        0 <= entry_at(es, root) <= es.len(),
        entry_at(es, root) < es.len() ==> es[entry_at(es, root)].ts == root,
        forall|i: int| 0 <= i < entry_at(es, root) ==> (#[trigger] es[i]).ts != root,
    decreases es.len(),
{
    if es.len() == 0 || es[0].ts == root {
    } else {
        lemma_entry_at(es.skip(1), root);
        let n = entry_at(es.skip(1), root);
        assert forall|i: int| 0 <= i < n + 1 implies (#[trigger] es[i]).ts != root by {
            if i > 0 {
                assert(es.skip(1)[i - 1] == es[i]);
            }
        }
    }
}

/// No two entries are of the same message.
pub open spec fn one_each(es: Seq<HistMsgV>) -> bool {
    forall|i: int, j: int| 0 <= i < j < es.len() ==> (#[trigger] es[i]).ts != (#[trigger] es[j]).ts
}

proof fn lemma_entries_one_each(es: Seq<HistMsgV>, root: u64, v: VersionV)
    requires
        one_each(es),
    ensures
        one_each(entries_with(es, root, v)),
{
    lemma_entry_at(es, root);
}

/// Every message has one entry, however many revisions of it there are.
pub proof fn law_one_entry_per_message(vs: Seq<VersionV>)
    ensures
        one_each(collapsed(vs)),
    decreases vs.len(),
{
    if vs.len() > 0 {
        law_one_entry_per_message(vs.drop_last());
        let roots = roots_of(vs.drop_last());
        lemma_entries_one_each(collapsed(vs.drop_last()), root_of(roots, vs.last()), vs.last());
    }
}

proof fn lemma_last_edit_wins(vs: Seq<VersionV>, v: VersionV)
    ensures
        ({
            let root = root_of(roots_of(vs), v);
            let es = collapsed(vs.push(v));
            &&& entry_at(es, root) < es.len()
            &&& es[entry_at(es, root)].text == v.body
        }),
{
    assert(vs.push(v).drop_last() =~= vs);
    let root = root_of(roots_of(vs), v);
    let es = collapsed(vs);
    lemma_entry_at(es, root);
    let next = entries_with(es, root, v);
    let k = entry_at(es, root);
    lemma_entry_at(next, root);
    assert(next[k].ts == root);
    assert forall|i: int| 0 <= i < k implies (#[trigger] next[i]).ts != root by {
        assert(next[i] == es[i]);
    }
    assert(entry_at(next, root) == k);
}

/// The message that the revision at a position is of.
pub open spec fn root_at(vs: Seq<VersionV>, i: int) -> u64 {
    root_of(roots_of(vs.take(i)), vs[i])
}

/// The newest revision gives a message its text: the last one that is of it.
pub proof fn law_newest_edit_wins(vs: Seq<VersionV>, i: int)
    requires
        0 <= i < vs.len(),
        forall|j: int| i < j < vs.len() ==> #[trigger] root_at(vs, j) != root_at(vs, i),
    ensures
        ({
            let es = collapsed(vs);
            let k = entry_at(es, root_at(vs, i));
            &&& 0 <= k < es.len()
            &&& es[k].ts == root_at(vs, i)
            &&& es[k].text == vs[i].body
        }),
    decreases vs.len(),
{
    let head = vs.drop_last();
    let v = vs.last();
    let root = root_at(vs, i);
    assert(vs =~= head.push(v));
    lemma_entry_at(collapsed(vs), root);
    if i == vs.len() - 1 {
        assert(vs.take(i) =~= head);
        lemma_last_edit_wins(head, v);
    } else {
        assert(head.take(i) =~= vs.take(i));
        assert forall|j: int| i < j < head.len() implies #[trigger] root_at(head, j) != root_at(
            head,
            i,
        ) by {
            assert(head.take(j) =~= vs.take(j));
            assert(root_at(vs, j) != root_at(vs, i));
        }
        law_newest_edit_wins(head, i);
        assert(vs.take(vs.len() - 1) =~= head);
        assert(root_at(vs, vs.len() - 1) != root);
        let es = collapsed(head);
        let next = collapsed(vs);
        let k = entry_at(es, root);
        lemma_entry_at(es, root);
        lemma_entry_at(es, root_of(roots_of(head), v));
        assert(next == entries_with(es, root_of(roots_of(head), v), v));
        assert(next[k] == es[k]);
        assert forall|m: int| 0 <= m < k implies (#[trigger] next[m]).ts != root by {
            assert(next[m].ts == es[m].ts);
        }
        assert(entry_at(next, root) == k);
    }
}

/// An edit changes nothing of a message but its text.
pub proof fn law_edit_keeps_the_rest(vs: Seq<VersionV>, v: VersionV, i: int)
    requires
        0 <= i < collapsed(vs).len(),
    ensures
        i < collapsed(vs.push(v)).len(),
        collapsed(vs.push(v))[i].is_ai == collapsed(vs)[i].is_ai,
        collapsed(vs.push(v))[i].speaker == collapsed(vs)[i].speaker,
        collapsed(vs.push(v))[i].reply_to == collapsed(vs)[i].reply_to,
        collapsed(vs.push(v))[i].atts == collapsed(vs)[i].atts,
        collapsed(vs.push(v))[i].ts == collapsed(vs)[i].ts,
        collapsed(vs)[i].ts != root_of(roots_of(vs), v) ==> collapsed(vs.push(v))[i]
            == collapsed(vs)[i],
{
    assert(vs.push(v).drop_last() =~= vs);
    lemma_entry_at(collapsed(vs), root_of(roots_of(vs), v));
}

// ---------------------------------------------------------------------------
// the window that is shown

/// One of our own transient status lines.
pub open spec fn is_status(cfg: Config, text: Seq<char>) -> bool {
    ||| text == cfg.processing_msg@
    ||| text == cfg.reasoning_msg@
    ||| text == cfg.generating_msg@
    ||| text == cfg.tool_msg@
}

/// `e` put behind every entry that is not newer.
pub open spec fn entry_placed(s: Seq<HistMsgV>, e: HistMsgV) -> Seq<HistMsgV>
    decreases s.len(),
{
    if s.len() > 0 && s.last().ts > e.ts {
        entry_placed(s.drop_last(), e).push(s.last())
    } else {
        s.push(e)
    }
}

/// The entries the oldest first, without those of ours that only show a status
/// line.
pub open spec fn shown(cfg: Config, es: Seq<HistMsgV>) -> Seq<HistMsgV>
    decreases es.len(),
{
    if es.len() == 0 {
        Seq::empty()
    } else {
        let rest = shown(cfg, es.drop_last());
        if es.last().is_ai && is_status(cfg, es.last().text) {
            rest
        } else {
            entry_placed(rest, es.last())
        }
    }
}

/// Adjacent answers of ours with the same text folded into the first of them.
pub open spec fn folded(es: Seq<HistMsgV>) -> Seq<HistMsgV>
    decreases es.len(),
{
    if es.len() == 0 {
        Seq::empty()
    } else {
        let rest = folded(es.drop_last());
        let e = es.last();
        if rest.len() > 0 && rest.last().is_ai && e.is_ai && rest.last().text == e.text {
            rest
        } else {
            rest.push(e)
        }
    }
}

/// The newest `limit` entries, or all.
pub open spec fn newest(es: Seq<HistMsgV>, limit: Option<usize>) -> Seq<HistMsgV> {
    match limit {
        Some(n) => if es.len() > n {
            es.skip(es.len() - n)
        } else {
            es
        },
        None => es,
    }
}

/// The messages between the two times, both exclusive, that are shown.
pub open spec fn history_of(
    cfg: Config,
    vs: Seq<VersionV>,
    since: u64,
    before: u64,
    limit: Option<usize>,
) -> Seq<HistMsgV> {
    newest(folded(shown(cfg, collapsed(in_window(vs, since, before)))), limit)
}

proof fn lemma_entry_placed(s: Seq<HistMsgV>, x: HistMsgV, n: int)
    requires
        0 <= n <= s.len(),
        forall|i: int| n <= i < s.len() ==> (#[trigger] s[i]).ts > x.ts,
        n == 0 || s[n - 1].ts <= x.ts,
    ensures
        entry_placed(s, x) == s.insert(n, x),
    decreases s.len(),
{
    if n < s.len() {
        assert(s[s.len() - 1].ts > x.ts);
        assert forall|i: int| n <= i < s.drop_last().len() implies (
        #[trigger] s.drop_last()[i]).ts > x.ts by {
            assert(s.drop_last()[i] == s[i]);
        }
        lemma_entry_placed(s.drop_last(), x, n);
        assert(s.drop_last().insert(n, x).push(s.last()) =~= s.insert(n, x));
    } else {
        assert(s.push(x) =~= s.insert(n, x));
    }
}

fn status_line(cfg: &Config, text: &str) -> (r: bool)
    ensures
        r == is_status(*cfg, text@),
{
    same_text(text, &cfg.processing_msg) || same_text(text, &cfg.reasoning_msg) || same_text(
        text,
        &cfg.generating_msg,
    ) || same_text(text, &cfg.tool_msg)
}

/// The revisions between the two times, the oldest first. The store does not
/// reliably honour the bounds of a range, so they are checked here.
fn window(versions: Vec<Version>, since: u64, before: u64) -> (r: Vec<Version>)
    ensures
        versions_view(r@) == in_window(versions_view(versions@), since, before),
{
    let ghost all = versions_view(versions@);
    let mut out: Vec<Version> = Vec::new();
    assert(all.take(0) =~= Seq::empty());
    assert(versions_view(out@) =~= Seq::empty());
    for v in it: versions
        invariant
            all == versions_view(it.seq()),
            versions_view(out@) == in_window(all.take(it.index() as int), since, before),
    {
        let ghost i = it.index() as int;
        assert(all.take(i + 1).drop_last() =~= all.take(i));
        assert(all.take(i + 1).last() == v@);
        if since < v.own_ts && v.own_ts < before {
            let mut at: usize = out.len();
            let ts: u64 = v.own_ts;
            while at > 0 && out[at - 1].own_ts > ts
                invariant
                    at <= out@.len(),
                    forall|j: int| at <= j < out@.len() ==> (#[trigger] out@[j]).own_ts > ts,
                ensures
                    at <= out@.len(),
                    forall|j: int| at <= j < out@.len() ==> (#[trigger] out@[j]).own_ts > ts,
                    at == 0 || out@[at - 1].own_ts <= ts,
                decreases at,
            {
                at -= 1;
            }
            proof {
                let s = versions_view(out@);
                assert forall|j: int| at <= j < s.len() implies (#[trigger] s[j]).own_ts > ts by {
                    assert(s[j] == out@[j]@);
                }
                lemma_version_placed(s, v@, at as int);
                assert(versions_view(out@.insert(at as int, v)) =~= s.insert(at as int, v@));
            }
            out.insert(at, v);
        }
    }
    assert(all.take(all.len() as int) =~= all);
    out
}

/// Where each entry is, by the message it is of.
spec fn indexed(index: Map<u64, usize>, es: Seq<HistMsgV>) -> bool {
    &&& forall|root: u64| #[trigger]
        index.contains_key(root) ==> index[root] < es.len() && es[index[root] as int].ts == root
    &&& forall|i: int|
        0 <= i < es.len() ==> index.contains_key((#[trigger] es[i]).ts) && index[es[i].ts] == i
}

proof fn lemma_indexed(index: Map<u64, usize>, es: Seq<HistMsgV>, root: u64)
    requires
        indexed(index, es),
    ensures
        index.contains_key(root) ==> entry_at(es, root) == index[root],
        !index.contains_key(root) ==> entry_at(es, root) == es.len(),
{
    lemma_entry_at(es, root);
    let k = entry_at(es, root);
    if index.contains_key(root) {
        assert(es[index[root] as int].ts == root);
        if k < es.len() {
            assert(index[es[k].ts] == k);
        }
    } else if k < es.len() {
        assert(es[k].ts == root);
    }
}

/// The messages that revisions collapse to.
fn collapse(versions: Vec<Version>) -> (r: Vec<HistMsg>)
    ensures
        hist_msgs(r@) == collapsed(versions_view(versions@)),
{
    let ghost all = versions_view(versions@);
    let mut entries: Vec<HistMsg> = Vec::new();
    let mut index: HashMap<u64, usize> = HashMap::new();
    let mut roots: HashMap<u64, u64> = HashMap::new();
    assert(all.take(0) =~= Seq::empty());
    assert(hist_msgs(entries@) =~= Seq::empty());
    for v in it: versions
        invariant
            all == versions_view(it.seq()),
            hist_msgs(entries@) == collapsed(all.take(it.index() as int)),
            roots@ == roots_of(all.take(it.index() as int)),
            indexed(index@, hist_msgs(entries@)),
    {
        let ghost i = it.index() as int;
        assert(all.take(i + 1).drop_last() =~= all.take(i));
        assert(all.take(i + 1).last() == v@);
        let ghost es = hist_msgs(entries@);
        let root: u64 = match v.target {
            None => v.own_ts,
            Some(t) => match roots.get(&t) {
                Some(r) => *r,
                None => t,
            },
        };
        assert(root == root_of(roots@, v@));
        roots.insert(v.own_ts, root);
        proof {
            lemma_indexed(index@, es, root);
            lemma_entry_at(es, root);
        }
        let known: Option<usize> = match index.get(&root) {
            Some(k) => Some(*k),
            None => None,
        };
        match known {
            Some(k) => {
                entries[k].text = v.body;
                assert(hist_msgs(entries@) =~= entries_with(es, root, v@));
            },
            None => {
                index.insert(root, entries.len());
                entries.push(
                    HistMsg {
                        is_ai: v.is_ai,
                        speaker: v.speaker,
                        reply_to: v.reply_to,
                        text: v.body,
                        atts: v.atts,
                        ts: root,
                    },
                );
                assert(hist_msgs(entries@) =~= entries_with(es, root, v@));
            },
        }
    }
    assert(all.take(all.len() as int) =~= all);
    entries
}

/// The entries that are shown, the oldest first.
fn show(cfg: &Config, entries: Vec<HistMsg>) -> (r: Vec<HistMsg>)
    ensures
        hist_msgs(r@) == shown(*cfg, hist_msgs(entries@)),
{
    let ghost all = hist_msgs(entries@);
    let mut out: Vec<HistMsg> = Vec::new();
    assert(all.take(0) =~= Seq::empty());
    assert(hist_msgs(out@) =~= Seq::empty());
    for e in it: entries
        invariant
            all == hist_msgs(it.seq()),
            hist_msgs(out@) == shown(*cfg, all.take(it.index() as int)),
    {
        let ghost i = it.index() as int;
        assert(all.take(i + 1).drop_last() =~= all.take(i));
        assert(all.take(i + 1).last() == e@);
        if !(e.is_ai && status_line(cfg, &e.text)) {
            let mut at: usize = out.len();
            let ts: u64 = e.ts;
            while at > 0 && out[at - 1].ts > ts
                invariant
                    at <= out@.len(),
                    forall|j: int| at <= j < out@.len() ==> (#[trigger] out@[j]).ts > ts,
                ensures
                    at <= out@.len(),
                    forall|j: int| at <= j < out@.len() ==> (#[trigger] out@[j]).ts > ts,
                    at == 0 || out@[at - 1].ts <= ts,
                decreases at,
            {
                at -= 1;
            }
            proof {
                let s = hist_msgs(out@);
                assert forall|j: int| at <= j < s.len() implies (#[trigger] s[j]).ts > ts by {
                    assert(s[j] == out@[j]@);
                }
                lemma_entry_placed(s, e@, at as int);
                lemma_hist_insert(out@, at as int, e);
            }
            out.insert(at, e);
        }
    }
    assert(all.take(all.len() as int) =~= all);
    out
}

/// Folds adjacent answers with the same text. A reply's chain collapses to one
/// entry; if it ever fails to, adjacent entries carry the same answer text.
fn fold(entries: Vec<HistMsg>) -> (r: Vec<HistMsg>)
    ensures
        hist_msgs(r@) == folded(hist_msgs(entries@)),
{
    broadcast use lemma_hist_push;

    let ghost all = hist_msgs(entries@);
    let mut out: Vec<HistMsg> = Vec::new();
    assert(all.take(0) =~= Seq::empty());
    assert(hist_msgs(out@) =~= Seq::empty());
    for e in it: entries
        invariant
            all == hist_msgs(it.seq()),
            hist_msgs(out@) == folded(all.take(it.index() as int)),
    {
        let ghost i = it.index() as int;
        assert(all.take(i + 1).drop_last() =~= all.take(i));
        assert(all.take(i + 1).last() == e@);
        let n = out.len();
        assert(n > 0 ==> hist_msgs(out@).last() == out@[n - 1]@);
        if !(n > 0 && out[n - 1].is_ai && e.is_ai && same_text(&out[n - 1].text, &e.text)) {
            out.push(e);
        }
    }
    assert(all.take(all.len() as int) =~= all);
    out
}

/// Messages of the thread within `(since_ts, before_ts)`, oldest first. `limit`
/// optionally keeps only the newest that many (used for the fresh window; `None`
/// gathers every intervening message). The bot's own replies live in the store as
/// a placeholder edited into the answer; the chain collapses to one entry,
/// flagged as ai via its placeholder root. A reply whose final answer is not in
/// the window yet would collapse to a bare status line; it is dropped so that it
/// never surfaces as the bot's words.
pub fn thread_history(
    versions: Vec<Version>,
    since_ts: u64,
    before_ts: u64,
    limit: Option<usize>,
    cfg: &Config,
) -> (r: Vec<HistMsg>)
    ensures
        hist_msgs(r@) == history_of(
            *cfg,
            versions_view(versions@),
            since_ts,
            before_ts,
            limit,
        ),
{
    let mut out = fold(show(cfg, collapse(window(versions, since_ts, before_ts))));
    match limit {
        Some(n) => {
            if out.len() > n {
                let start: usize = out.len() - n;
                let ghost es = hist_msgs(out@);
                let kept = out.split_off(start);
                assert(hist_msgs(kept@) =~= es.skip(start as int));
                return kept;
            }
        },
        None => {},
    }
    out
}

// ---------------------------------------------------------------------------
// what holds of every window

proof fn lemma_folded_ends(es: Seq<HistMsgV>)
    ensures
        folded(es).len() <= es.len(),
        forall|i: int| 0 <= i < folded(es).len() ==> es.contains(#[trigger] folded(es)[i]),
        es.len() > 0 ==> folded(es).len() > 0,
    decreases es.len(),
{
    if es.len() > 0 {
        let head = es.drop_last();
        lemma_folded_ends(head);
        let f = folded(es);
        assert forall|i: int| 0 <= i < f.len() implies es.contains(#[trigger] f[i]) by {
            if i < folded(head).len() {
                assert(f[i] == folded(head)[i]);
                let k = choose|k: int| 0 <= k < head.len() && head[k] == f[i];
                assert(es[k] == f[i]);
            } else {
                assert(es[es.len() - 1] == f[i]);
            }
        }
    }
}

proof fn lemma_entry_placed_members(s: Seq<HistMsgV>, e: HistMsgV)
    ensures
        entry_placed(s, e).len() == s.len() + 1,
        forall|i: int|
            0 <= i < entry_placed(s, e).len() ==> (#[trigger] entry_placed(s, e)[i]) == e
                || s.contains(entry_placed(s, e)[i]),
    decreases s.len(),
{
    let p = entry_placed(s, e);
    if s.len() > 0 && s.last().ts > e.ts {
        let head = s.drop_last();
        lemma_entry_placed_members(head, e);
        let q = entry_placed(head, e);
        assert forall|i: int| 0 <= i < p.len() implies (#[trigger] p[i]) == e || s.contains(
            p[i],
        ) by {
            if i < q.len() {
                assert(p[i] == q[i]);
                if q[i] != e {
                    let k = choose|k: int| 0 <= k < head.len() && head[k] == q[i];
                    assert(s[k] == p[i]);
                }
            } else {
                assert(s[s.len() - 1] == p[i]);
            }
        }
    } else {
        assert forall|i: int| 0 <= i < p.len() implies (#[trigger] p[i]) == e || s.contains(
            p[i],
        ) by {
            if i < s.len() {
                assert(p[i] == s[i]);
            }
        }
    }
}

proof fn lemma_shown_members(cfg: Config, es: Seq<HistMsgV>)
    ensures
        forall|i: int|
            0 <= i < shown(cfg, es).len() ==> es.contains(#[trigger] shown(cfg, es)[i]) && !(
            shown(cfg, es)[i].is_ai && is_status(cfg, shown(cfg, es)[i].text)),
    decreases es.len(),
{
    if es.len() > 0 {
        let head = es.drop_last();
        lemma_shown_members(cfg, head);
        let rest = shown(cfg, head);
        let all = shown(cfg, es);
        lemma_entry_placed_members(rest, es.last());
        assert forall|i: int| 0 <= i < all.len() implies es.contains(#[trigger] all[i]) && !(
        all[i].is_ai && is_status(cfg, all[i].text)) by {
            let x = all[i];
            if x == es.last() && !(es.last().is_ai && is_status(cfg, es.last().text)) {
                assert(es[es.len() - 1] == x);
            } else {
                assert(rest.contains(x));
                let j = choose|j: int| 0 <= j < rest.len() && rest[j] == x;
                assert(rest[j] == x);
                let k = choose|k: int| 0 <= k < head.len() && head[k] == x;
                assert(es[k] == x);
            }
        }
    }
}

/// Our own status lines never surface as the bot's words.
pub proof fn law_no_status_lines(
    cfg: Config,
    vs: Seq<VersionV>,
    since: u64,
    before: u64,
    limit: Option<usize>,
    i: int,
)
    requires
        0 <= i < history_of(cfg, vs, since, before, limit).len(),
    ensures
        !only_says_what_it_does(cfg, history_of(cfg, vs, since, before, limit)[i]),
        collapsed(in_window(vs, since, before)).contains(
            history_of(cfg, vs, since, before, limit)[i],
        ),
{
    let es = collapsed(in_window(vs, since, before));
    let s = shown(cfg, es);
    let f = folded(s);
    lemma_shown_members(cfg, es);
    lemma_folded_ends(s);
    let h = newest(f, limit);
    let x = h[i];
    let at = if h.len() < f.len() {
        i + f.len() - h.len()
    } else {
        i
    };
    assert(f[at] == x);
    let k = choose|k: int| 0 <= k < s.len() && s[k] == x;
    assert(s[k] == x);
}

proof fn lemma_version_placed_members(s: Seq<VersionV>, v: VersionV, x: VersionV)
    ensures
        version_placed(s, v).contains(x) <==> x == v || s.contains(x),
    decreases s.len(),
{
    let p = version_placed(s, v);
    if s.len() > 0 && s.last().own_ts > v.own_ts {
        let head = s.drop_last();
        let q = version_placed(head, v);
        lemma_version_placed_members(head, v, x);
        assert(s =~= head.push(s.last()));
        lemma_push_members(head, s.last(), x);
        lemma_push_members(q, s.last(), x);
    } else {
        lemma_push_members(s, v, x);
    }
}

proof fn lemma_push_members(s: Seq<VersionV>, v: VersionV, x: VersionV)
    ensures
        s.push(v).contains(x) <==> x == v || s.contains(x),
{
    let p = s.push(v);
    assert(p[s.len() as int] == v);
    if s.contains(x) {
        let k = choose|k: int| 0 <= k < s.len() && s[k] == x;
        assert(p[k] == x);
    }
    if p.contains(x) {
        let k = choose|k: int| 0 <= k < p.len() && p[k] == x;
        if k < s.len() {
            assert(s[k] == x);
        }
    }
}

/// Everything in the window is taken in, and nothing from outside of it: neither the
/// message at its upper end, nor the one at its lower end.
pub proof fn law_window_is_exclusive(vs: Seq<VersionV>, since: u64, before: u64, v: VersionV)
    ensures
        in_window(vs, since, before).contains(v) <==> vs.contains(v) && since < v.own_ts < before,
    decreases vs.len(),
{
    if vs.len() > 0 {
        let head = vs.drop_last();
        law_window_is_exclusive(head, since, before, v);
        lemma_version_placed_members(in_window(head, since, before), vs.last(), v);
        assert(vs =~= head.push(vs.last()));
        lemma_push_members(head, vs.last(), v);
    }
}

/// From the oldest revision to the newest.
pub open spec fn revisions_ascend(vs: Seq<VersionV>) -> bool {
    forall|i: int, j: int|
        0 <= i <= j < vs.len() ==> (#[trigger] vs[i]).own_ts <= (#[trigger] vs[j]).own_ts
}

proof fn lemma_version_placed_ascends(s: Seq<VersionV>, v: VersionV)
    requires
        revisions_ascend(s),
    ensures
        revisions_ascend(version_placed(s, v)),
    decreases s.len(),
{
    let p = version_placed(s, v);
    if s.len() > 0 && s.last().own_ts > v.own_ts {
        let head = s.drop_last();
        assert forall|i: int, j: int| 0 <= i <= j < head.len() implies (
        #[trigger] head[i]).own_ts <= (#[trigger] head[j]).own_ts by {
            assert(head[i] == s[i] && head[j] == s[j]);
        }
        lemma_version_placed_ascends(head, v);
        let q = version_placed(head, v);
        assert forall|i: int, j: int| 0 <= i <= j < p.len() implies (#[trigger] p[i]).own_ts <= (
        #[trigger] p[j]).own_ts by {
            if j < q.len() {
                assert(p[i] == q[i] && p[j] == q[j]);
            } else if i < q.len() {
                assert(q.contains(q[i]));
                lemma_version_placed_members(head, v, q[i]);
                if q[i] != v {
                    let k = choose|k: int| 0 <= k < head.len() && head[k] == q[i];
                    assert(s[k].own_ts <= s[s.len() - 1].own_ts);
                }
            }
        }
    } else {
        assert forall|i: int, j: int| 0 <= i <= j < p.len() implies (#[trigger] p[i]).own_ts <= (
        #[trigger] p[j]).own_ts by {
            if j < s.len() {
                assert(p[i] == s[i] && p[j] == s[j]);
            } else if i < s.len() {
                assert(s[i].own_ts <= s[s.len() - 1].own_ts);
            }
        }
    }
}

/// Revisions are applied from the oldest to the newest.
pub proof fn law_revisions_are_oldest_first(vs: Seq<VersionV>, since: u64, before: u64)
    ensures
        revisions_ascend(in_window(vs, since, before)),
    decreases vs.len(),
{
    if vs.len() > 0 {
        law_revisions_are_oldest_first(vs.drop_last(), since, before);
        lemma_version_placed_ascends(in_window(vs.drop_last(), since, before), vs.last());
    }
}

/// At most as many messages as were asked for, and then the newest of those that there
/// are.
pub proof fn law_limit_is_kept(
    cfg: Config,
    vs: Seq<VersionV>,
    since: u64,
    before: u64,
    limit: usize,
)
    ensures
        ({
            let all = history_of(cfg, vs, since, before, None);
            let kept = history_of(cfg, vs, since, before, Some(limit));
            &&& kept.len() == (if all.len() > limit {
                limit as nat
            } else {
                all.len()
            })
            &&& kept == all.skip(all.len() - kept.len())
        }),
{
    let all = history_of(cfg, vs, since, before, None);
    let kept = history_of(cfg, vs, since, before, Some(limit));
    assert(kept =~= all.skip(all.len() - kept.len()));
}

/// From the oldest to the newest, no two of the same time.
pub open spec fn ascending(es: Seq<HistMsgV>) -> bool {
    forall|i: int, j: int| 0 <= i < j < es.len() ==> (#[trigger] es[i]).ts < (#[trigger] es[j]).ts
}

proof fn lemma_entry_placed_ascending(s: Seq<HistMsgV>, e: HistMsgV)
    requires
        ascending(s),
        forall|i: int| 0 <= i < s.len() ==> (#[trigger] s[i]).ts != e.ts,
    ensures
        ascending(entry_placed(s, e)),
    decreases s.len(),
{
    let p = entry_placed(s, e);
    if s.len() > 0 && s.last().ts > e.ts {
        let head = s.drop_last();
        assert forall|i: int, j: int| 0 <= i < j < head.len() implies (#[trigger] head[i]).ts < (
        #[trigger] head[j]).ts by {
            assert(head[i] == s[i] && head[j] == s[j]);
        }
        assert forall|i: int| 0 <= i < head.len() implies (#[trigger] head[i]).ts != e.ts by {
            assert(head[i] == s[i]);
        }
        lemma_entry_placed_ascending(head, e);
        lemma_entry_placed_members(head, e);
        let q = entry_placed(head, e);
        assert forall|i: int, j: int| 0 <= i < j < p.len() implies (#[trigger] p[i]).ts < (
        #[trigger] p[j]).ts by {
            assert(p[i] == q[i]);
            if j < q.len() {
                assert(p[j] == q[j]);
            } else if q[i] != e {
                let k = choose|k: int| 0 <= k < head.len() && head[k] == q[i];
                assert(s[k] == q[i]);
                assert(s[k].ts < s[s.len() - 1].ts);
            }
        }
    } else {
        assert forall|i: int, j: int| 0 <= i < j < p.len() implies (#[trigger] p[i]).ts < (
        #[trigger] p[j]).ts by {
            assert(p[i] == s[i]);
            if j < s.len() {
                assert(p[j] == s[j]);
            } else {
                assert(s[s.len() - 1].ts < e.ts);
                if i < s.len() - 1 {
                    assert(s[i].ts < s[s.len() - 1].ts);
                }
            }
        }
    }
}

proof fn lemma_shown_ascending(cfg: Config, es: Seq<HistMsgV>)
    requires
        one_each(es),
    ensures
        ascending(shown(cfg, es)),
    decreases es.len(),
{
    if es.len() > 0 {
        let head = es.drop_last();
        let rest = shown(cfg, head);
        assert forall|i: int, j: int| 0 <= i < j < head.len() implies (#[trigger] head[i]).ts != (
        #[trigger] head[j]).ts by {
            assert(head[i] == es[i] && head[j] == es[j]);
        }
        lemma_shown_ascending(cfg, head);
        lemma_shown_members(cfg, head);
        assert forall|i: int| 0 <= i < rest.len() implies (#[trigger] rest[i]).ts
            != es.last().ts by {
            let k = choose|k: int| 0 <= k < head.len() && head[k] == rest[i];
            assert(es[k] == rest[i]);
            assert(es[k].ts != es[es.len() - 1].ts);
        }
        lemma_entry_placed_ascending(rest, es.last());
    }
}

proof fn lemma_folded_ascending(es: Seq<HistMsgV>)
    requires
        ascending(es),
    ensures
        ascending(folded(es)),
        es.len() > 0 ==> folded(es).len() > 0 && folded(es).last().ts <= es.last().ts,
    decreases es.len(),
{
    if es.len() > 0 {
        let head = es.drop_last();
        assert forall|i: int, j: int| 0 <= i < j < head.len() implies (#[trigger] head[i]).ts < (
        #[trigger] head[j]).ts by {
            assert(head[i] == es[i] && head[j] == es[j]);
        }
        lemma_folded_ascending(head);
        let rest = folded(head);
        let f = folded(es);
        if head.len() > 0 {
            assert(es[head.len() - 1].ts < es[es.len() - 1].ts);
            assert(head[head.len() - 1] == es[head.len() - 1]);
        }
        assert forall|i: int, j: int| 0 <= i < j < f.len() implies (#[trigger] f[i]).ts < (
        #[trigger] f[j]).ts by {
            assert(f[i] == rest[i]);
            if j < rest.len() {
                assert(f[j] == rest[j]);
            } else if i < rest.len() - 1 {
                assert(rest[i].ts < rest[rest.len() - 1].ts);
            }
        }
    }
}

/// The window runs from the oldest message to the newest, and no message is in it
/// twice.
pub proof fn law_history_is_oldest_first(
    cfg: Config,
    vs: Seq<VersionV>,
    since: u64,
    before: u64,
    limit: Option<usize>,
)
    ensures
        ascending(history_of(cfg, vs, since, before, limit)),
{
    let es = collapsed(in_window(vs, since, before));
    let s = shown(cfg, es);
    law_one_entry_per_message(in_window(vs, since, before));
    lemma_shown_ascending(cfg, es);
    lemma_folded_ascending(s);
    let f = folded(s);
    let h = history_of(cfg, vs, since, before, limit);
    let d = f.len() - h.len();
    assert forall|i: int, j: int| 0 <= i < j < h.len() implies (#[trigger] h[i]).ts < (
    #[trigger] h[j]).ts by {
        assert(h[i] == f[i + d] && h[j] == f[j + d]);
    }
}

// ---------------------------------------------------------------------------
// what the window holds, told by the revisions themselves

/// A revision without a target is a message of its own; one with a target is of the
/// message that the newest revision with that time is of, and where there is none, of
/// the message with that time.
pub proof fn law_edits_belong_to_their_target(vs: Seq<VersionV>, i: int)
    requires
        0 <= i < vs.len(),
    ensures
        vs[i].target is None ==> root_at(vs, i) == vs[i].own_ts,
        vs[i].target is Some && (forall|j: int|
            0 <= j < i ==> (#[trigger] vs[j]).own_ts != vs[i].target->0) ==> root_at(vs, i)
            == vs[i].target->0,
        forall|j: int|
            0 <= j < i && vs[i].target == Some((#[trigger] vs[j]).own_ts) && (forall|k: int|
                j < k < i ==> (#[trigger] vs[k]).own_ts != vs[j].own_ts) ==> root_at(vs, i)
                == root_at(vs, j),
{
    let head = vs.take(i);
    if let Some(t) = vs[i].target {
        assert forall|j: int|
            0 <= j < i && (#[trigger] vs[j]).own_ts == t && (forall|k: int|
                j < k < i ==> (#[trigger] vs[k]).own_ts != t) implies root_at(vs, i) == root_at(
            vs,
            j,
        ) by {
            lemma_roots_of(head, t, j);
            assert(head.take(j) =~= vs.take(j));
        }
        if forall|j: int| 0 <= j < i ==> (#[trigger] vs[j]).own_ts != t {
            lemma_roots_of(head, t, -1);
        }
    }
}

/// The message of the newest revision with a time, which is at `j`; none where `j` is
/// negative.
proof fn lemma_roots_of(vs: Seq<VersionV>, t: u64, j: int)
    requires
        j < vs.len(),
        forall|k: int| 0 <= k < vs.len() && j < k ==> (#[trigger] vs[k]).own_ts != t,
        0 <= j ==> vs[j].own_ts == t,
    ensures
        roots_of(vs).contains_key(t) == (0 <= j),
        0 <= j ==> roots_of(vs)[t] == root_of(roots_of(vs.take(j)), vs[j]),
    decreases vs.len(),
{
    if vs.len() > 0 {
        let head = vs.drop_last();
        if j == vs.len() - 1 {
            assert(vs.take(j) =~= head);
        } else {
            assert(vs[vs.len() - 1].own_ts != t);
            assert forall|k: int| 0 <= k < head.len() && j < k implies (#[trigger] head[k]).own_ts
                != t by {
                assert(head[k] == vs[k]);
            }
            lemma_roots_of(head, t, j);
            if 0 <= j {
                assert(head.take(j) =~= vs.take(j));
            }
        }
    }
}

/// The oldest revision of a message gives it its sender, what it replies to and what is
/// attached to it, whatever revisions follow.
pub proof fn law_original_gives_the_rest(vs: Seq<VersionV>, i: int)
    requires
        0 <= i < vs.len(),
        forall|j: int| 0 <= j < i ==> #[trigger] root_at(vs, j) != root_at(vs, i),
    ensures
        exists|k: int|
            0 <= k < collapsed(vs).len() && ({
                let e = #[trigger] collapsed(vs)[k];
                &&& e.ts == root_at(vs, i)
                &&& e.is_ai == vs[i].is_ai
                &&& e.speaker == vs[i].speaker
                &&& e.reply_to == vs[i].reply_to
                &&& e.atts == vs[i].atts
            }),
    decreases vs.len(),
{
    let head = vs.drop_last();
    let v = vs.last();
    let root = root_at(vs, i);
    assert(vs =~= head.push(v));
    assert(vs.take(vs.len() - 1) =~= head);
    if i == vs.len() - 1 {
        let es = collapsed(head);
        lemma_entry_at(es, root);
        if entry_at(es, root) < es.len() {
            law_entries_are_messages(head, entry_at(es, root));
            let j = choose|j: int| 0 <= j < head.len() && #[trigger] root_at(head, j) == root;
            assert(head.take(j) =~= vs.take(j));
            assert(root_at(vs, j) == root);
        }
        assert(collapsed(vs)[es.len() as int].ts == root);
    } else {
        assert(head.take(i) =~= vs.take(i));
        assert forall|j: int| 0 <= j < i implies #[trigger] root_at(head, j) != root_at(
            head,
            i,
        ) by {
            assert(head.take(j) =~= vs.take(j));
            assert(root_at(vs, j) != root_at(vs, i));
        }
        law_original_gives_the_rest(head, i);
        let k = choose|k: int|
            0 <= k < collapsed(head).len() && ({
                let e = #[trigger] collapsed(head)[k];
                &&& e.ts == root_at(head, i)
                &&& e.is_ai == head[i].is_ai
                &&& e.speaker == head[i].speaker
                &&& e.reply_to == head[i].reply_to
                &&& e.atts == head[i].atts
            });
        law_edit_keeps_the_rest(head, v, k);
        assert(collapsed(vs)[k].ts == root);
    }
}

/// Every entry is of a message that there is a revision of.
pub proof fn law_entries_are_messages(vs: Seq<VersionV>, k: int)
    requires
        0 <= k < collapsed(vs).len(),
    ensures
        exists|i: int| 0 <= i < vs.len() && #[trigger] root_at(vs, i) == collapsed(vs)[k].ts,
    decreases vs.len(),
{
    if vs.len() > 0 {
        let head = vs.drop_last();
        let n = vs.len() - 1;
        assert(vs.take(n) =~= head);
        lemma_entry_at(collapsed(head), root_at(vs, n));
        if k < collapsed(head).len() {
            law_entries_are_messages(head, k);
            let i = choose|i: int|
                0 <= i < head.len() && #[trigger] root_at(head, i) == collapsed(head)[k].ts;
            assert(head.take(i) =~= vs.take(i));
            assert(root_at(vs, i) == collapsed(vs)[k].ts);
        } else {
            assert(root_at(vs, n) == collapsed(vs)[k].ts);
        }
    }
}

proof fn lemma_filter_push<A>(s: Seq<A>, x: A, pred: spec_fn(A) -> bool)
    ensures
        s.push(x).filter(pred) == (if pred(x) {
            s.filter(pred).push(x)
        } else {
            s.filter(pred)
        }),
{
    reveal(Seq::filter);
    assert(s.push(x).drop_last() =~= s);
}

proof fn lemma_version_placed_filter(s: Seq<VersionV>, v: VersionV, t: u64)
    ensures
        version_placed(s, v).filter(|x: VersionV| x.own_ts == t) == s.push(v).filter(
            |x: VersionV| x.own_ts == t,
        ),
    decreases s.len(),
{
    let pred = |x: VersionV| x.own_ts == t;
    lemma_filter_push(s, v, pred);
    if s.len() > 0 && s.last().own_ts > v.own_ts {
        let head = s.drop_last();
        let q = version_placed(head, v);
        lemma_version_placed_filter(head, v, t);
        lemma_filter_push(head, v, pred);
        lemma_filter_push(q, s.last(), pred);
        lemma_filter_push(head, s.last(), pred);
        assert(s =~= head.push(s.last()));
    }
}

/// The window takes in every revision of each time in it, those of the same time in the
/// order in which they are listed, and none of any other time.
pub proof fn law_window_keeps_every_revision(
    vs: Seq<VersionV>,
    since: u64,
    before: u64,
    t: u64,
)
    ensures
        in_window(vs, since, before).filter(|v: VersionV| v.own_ts == t) == (if since < t && t
            < before {
            vs.filter(|v: VersionV| v.own_ts == t)
        } else {
            Seq::empty()
        }),
    decreases vs.len(),
{
    let pred = |v: VersionV| v.own_ts == t;
    if vs.len() > 0 {
        let head = vs.drop_last();
        let rest = in_window(head, since, before);
        law_window_keeps_every_revision(head, since, before, t);
        lemma_filter_push(head, vs.last(), pred);
        assert(vs =~= head.push(vs.last()));
        lemma_version_placed_filter(rest, vs.last(), t);
        lemma_filter_push(rest, vs.last(), pred);
    } else {
        reveal(Seq::filter);
    }
}

/// One of the bot's own messages that only says what the bot is doing.
pub open spec fn only_says_what_it_does(cfg: Config, e: HistMsgV) -> bool {
    e.is_ai && (e.text == cfg.processing_msg@ || e.text == cfg.reasoning_msg@ || e.text
        == cfg.generating_msg@ || e.text == cfg.tool_msg@)
}

proof fn lemma_entry_placed_holds(s: Seq<HistMsgV>, e: HistMsgV, x: HistMsgV)
    ensures
        s.contains(x) || x == e ==> entry_placed(s, e).contains(x),
    decreases s.len(),
{
    let p = entry_placed(s, e);
    if s.len() > 0 && s.last().ts > e.ts {
        let head = s.drop_last();
        let q = entry_placed(head, e);
        lemma_entry_placed_holds(head, e, x);
        assert(p[p.len() - 1] == s[s.len() - 1]);
        if s.contains(x) {
            let k = choose|k: int| 0 <= k < s.len() && s[k] == x;
            if k < head.len() {
                assert(head[k] == x);
            }
        }
        if q.contains(x) {
            let k = choose|k: int| 0 <= k < q.len() && q[k] == x;
            assert(p[k] == x);
        }
    } else {
        assert(p[s.len() as int] == e);
        if s.contains(x) {
            let k = choose|k: int| 0 <= k < s.len() && s[k] == x;
            assert(p[k] == x);
        }
    }
}

proof fn lemma_shown_holds(cfg: Config, es: Seq<HistMsgV>, e: HistMsgV)
    requires
        es.contains(e),
        !only_says_what_it_does(cfg, e),
    ensures
        shown(cfg, es).contains(e),
    decreases es.len(),
{
    let head = es.drop_last();
    let rest = shown(cfg, head);
    let k = choose|k: int| 0 <= k < es.len() && es[k] == e;
    if k < head.len() {
        assert(head[k] == e);
        lemma_shown_holds(cfg, head, e);
    }
    lemma_entry_placed_holds(rest, es.last(), e);
}

/// `f` stands for `e`: both are answers of the bot's with the same text, and nothing but
/// such answers stands between them.
pub open spec fn stands_for(es: Seq<HistMsgV>, f: HistMsgV, e: HistMsgV) -> bool {
    &&& f.is_ai && e.is_ai && f.text == e.text && f.ts < e.ts
    &&& forall|x: HistMsgV| #[trigger]
        es.contains(x) && f.ts < x.ts < e.ts ==> x.is_ai && x.text == e.text
}

proof fn lemma_folded_holds(es: Seq<HistMsgV>, e: HistMsgV)
    requires
        ascending(es),
        es.contains(e),
    ensures
        folded(es).contains(e) || exists|f: HistMsgV| #[trigger]
            folded(es).contains(f) && stands_for(es, f, e),
        es.len() > 0 ==> {
            let g = folded(es).last();
            g == es.last() || stands_for(es, g, es.last())
        },
    decreases es.len(),
{
    let head = es.drop_last();
    let last = es.last();
    let rest = folded(head);
    let all = folded(es);
    let k = choose|k: int| 0 <= k < es.len() && es[k] == e;
    assert forall|i: int, j: int| 0 <= i < j < head.len() implies (#[trigger] head[i]).ts < (
    #[trigger] head[j]).ts by {
        assert(head[i] == es[i] && head[j] == es[j]);
    }
    assert forall|x: HistMsgV| #[trigger] es.contains(x) implies x == last || head.contains(
        x,
    ) by {
        let m = choose|m: int| 0 <= m < es.len() && es[m] == x;
        if m < head.len() {
            assert(head[m] == x);
        }
    }
    assert forall|i: int| 0 <= i < rest.len() implies all.contains(#[trigger] rest[i]) by {
        assert(all[i] == rest[i]);
    }
    if head.len() > 0 {
        lemma_folded_holds(head, head.last());
        lemma_folded_ends(head);
        let g = rest.last();
        assert(head[head.len() - 1] == es[head.len() - 1]);
        assert(es[head.len() - 1].ts < es[es.len() - 1].ts);
        assert(all.contains(g));
        if g.is_ai && last.is_ai && g.text == last.text {
            assert(all == rest);
            assert forall|x: HistMsgV| #[trigger]
                es.contains(x) && g.ts < x.ts < last.ts implies x.is_ai && x.text == last.text by {
                if head.contains(x) {
                    let m = choose|m: int| 0 <= m < head.len() && head[m] == x;
                    if m < head.len() - 1 {
                        assert(head[m].ts < head[head.len() - 1].ts);
                    }
                    if g == head.last() {
                        assert(false);
                    } else {
                        assert(x.ts <= head.last().ts);
                    }
                }
            }
            assert(stands_for(es, g, last));
        } else {
            assert(all == rest.push(last));
            assert(all[all.len() - 1] == last);
        }
    } else {
        assert(all == rest.push(last));
        assert(all[all.len() - 1] == last);
    }
    if k < head.len() {
        assert(head[k] == e);
        lemma_folded_holds(head, e);
        if rest.contains(e) {
            let m = choose|m: int| 0 <= m < rest.len() && rest[m] == e;
            assert(all.contains(rest[m]));
        } else {
            let f = choose|f: HistMsgV| #[trigger] rest.contains(f) && stands_for(head, f, e);
            let m = choose|m: int| 0 <= m < rest.len() && rest[m] == f;
            assert(all.contains(rest[m]));
            assert(es[k].ts < es[es.len() - 1].ts);
            assert(stands_for(es, f, e));
        }
    }
}

/// Nothing is left out of the window that has no limit: every message whose revisions
/// are in it is shown, unless it is one of the bot's own that only says what the bot is
/// doing, or an answer of the bot's that an equal one right before it stands for. So no
/// message of anyone else's is ever left out.
pub proof fn law_nothing_is_left_out(
    cfg: Config,
    vs: Seq<VersionV>,
    since: u64,
    before: u64,
    e: HistMsgV,
)
    requires
        collapsed(in_window(vs, since, before)).contains(e),
        !only_says_what_it_does(cfg, e),
    ensures
        history_of(cfg, vs, since, before, None).contains(e) || exists|f: HistMsgV| #[trigger]
            history_of(cfg, vs, since, before, None).contains(f) && f.is_ai && e.is_ai && f.text
                == e.text && f.ts < e.ts && (forall|x: HistMsgV| #[trigger]
                collapsed(in_window(vs, since, before)).contains(x) && f.ts < x.ts < e.ts
                    ==> x.is_ai && (x.text == e.text || only_says_what_it_does(cfg, x))),
        !e.is_ai ==> history_of(cfg, vs, since, before, None).contains(e),
{
    let es = collapsed(in_window(vs, since, before));
    let s = shown(cfg, es);
    let h = history_of(cfg, vs, since, before, None);
    law_one_entry_per_message(in_window(vs, since, before));
    lemma_shown_ascending(cfg, es);
    lemma_shown_holds(cfg, es, e);
    lemma_folded_holds(s, e);
    if !h.contains(e) {
        let f = choose|f: HistMsgV| #[trigger] h.contains(f) && stands_for(s, f, e);
        assert forall|x: HistMsgV| #[trigger] es.contains(x) && f.ts < x.ts < e.ts implies x.is_ai
            && (x.text == e.text || only_says_what_it_does(cfg, x)) by {
            if !only_says_what_it_does(cfg, x) {
                lemma_shown_holds(cfg, es, x);
            }
        }
    }
}

/// The same answer is not shown twice in a row.
pub proof fn law_no_answer_is_repeated(
    cfg: Config,
    vs: Seq<VersionV>,
    since: u64,
    before: u64,
    limit: Option<usize>,
    i: int,
)
    requires
        0 <= i < history_of(cfg, vs, since, before, limit).len() - 1,
    ensures
        ({
            let a = history_of(cfg, vs, since, before, limit)[i];
            let b = history_of(cfg, vs, since, before, limit)[i + 1];
            !(a.is_ai && b.is_ai && a.text == b.text)
        }),
{
    let f = folded(shown(cfg, collapsed(in_window(vs, since, before))));
    let h = history_of(cfg, vs, since, before, limit);
    let d = f.len() - h.len();
    lemma_folded_differs(shown(cfg, collapsed(in_window(vs, since, before))), i + d);
    assert(h[i] == f[i + d] && h[i + 1] == f[i + 1 + d]);
}

proof fn lemma_folded_differs(es: Seq<HistMsgV>, i: int)
    requires
        0 <= i < folded(es).len() - 1,
    ensures
        !(folded(es)[i].is_ai && folded(es)[i + 1].is_ai && folded(es)[i].text == folded(es)[i
            + 1].text),
    decreases es.len(),
{
    if es.len() > 0 {
        let rest = folded(es.drop_last());
        if i < rest.len() - 1 {
            lemma_folded_differs(es.drop_last(), i);
        }
    }
}

} // verus!
