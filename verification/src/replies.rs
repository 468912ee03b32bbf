//! A record of the bot's own replies.
use std::collections::BTreeMap;
use vstd::prelude::*;

verus! {

broadcast use vstd::std_specs::btree::group_btree_axioms;

/// How many replies are kept.
pub const MAX_ENTRIES: usize = 500;

/// The texts of a map.
pub open spec fn text_map(m: Map<u64, String>) -> Map<u64, Seq<char>> {
    m.map_values(|s: String| s@)
}

/// What `serde_json::from_str` reads from a text as a map from numbers to texts.
pub uninterp spec fn replies_value(text: Seq<char>) -> Option<Map<u64, Seq<char>>>;

/// What `serde_json::to_string` writes of a map from numbers to texts.
pub uninterp spec fn replies_text(map: Map<u64, Seq<char>>) -> Seq<char>;

/// `serde_json::from_str` for a map from numbers to texts: nothing where the text is
/// no such map. What is read depends on the text alone.
#[verifier::external_body]
fn parse_replies(text: &str) -> (r: Option<BTreeMap<u64, String>>)
    ensures
        match r {
            Some(m) => replies_value(text@) == Some(text_map(m@)),
            None => replies_value(text@) is None,
        },
{
    serde_json::from_str(text).ok()
}

/// `serde_json::to_string` for a map from numbers to texts. What is written depends on
/// the map alone, and `serde_json::from_str` reads the map back from it.
#[verifier::external_body]
fn write_replies(map: &BTreeMap<u64, String>) -> (r: Option<String>)
    ensures
        r is Some,
        r->0@ == replies_text(text_map(map@)),
        replies_value(r->0@) == Some(text_map(map@)),
{
    serde_json::to_string(map).ok()
}

/// `BTreeMap::pop_first`: takes out the entry with the smallest key; nothing where the
/// map is empty.
#[verifier::external_body]
fn pop_first(map: &mut BTreeMap<u64, String>) -> (r: Option<(u64, String)>)
    ensures
        match r {
            Some((k, v)) => old(map)@.contains_key(k) && old(map)@[k] == v && final(map)@ == old(
                map,
            )@.remove(k) && forall|other: u64| #[trigger]
                old(map)@.contains_key(other) ==> k <= other,
            None => old(map)@.len() == 0 && final(map)@ == old(map)@,
        },
{
    map.pop_first()
}

/// `kept` is what is left of `all` when the oldest make room: as much as there may be,
/// and nothing that is gone is newer than anything that is left.
pub open spec fn newest_of(all: Map<u64, Seq<char>>, kept: Map<u64, Seq<char>>, max: nat) -> bool {
    &&& kept.submap_of(all)
    &&& kept.dom().finite()
    &&& kept.len() == (if all.len() <= max {
        all.len()
    } else {
        max
    })
    &&& forall|gone: u64, left: u64|
        #![trigger all.contains_key(gone), kept.contains_key(left)]
        all.contains_key(gone) && !kept.contains_key(gone) && kept.contains_key(left) ==> gone
            < left
}

/// The bot's own replies are not reliably kept by the store (sent edits don't update
/// it), so there is a record of our own: sent timestamp to final answer text.
pub struct AiReplies {
    pub map: BTreeMap<u64, String>,
}

impl View for AiReplies {
    type V = Map<u64, Seq<char>>;

    open spec fn view(&self) -> Map<u64, Seq<char>> {
        text_map(self.map@)
    }
}

impl AiReplies {
    /// The record that a file holds, given its contents where it could be read; an
    /// empty one where it could not, or holds something else.
    pub fn load(text: Option<&str>) -> (r: AiReplies)
        ensures
            r@ == (match text {
                Some(t) => match replies_value(t@) {
                    Some(m) => m,
                    None => Map::empty(),
                },
                None => Map::empty(),
            }),
    {
        if let Some(t) = text {
            if let Some(map) = parse_replies(t) {
                return AiReplies { map };
            }
        }
        let r = AiReplies { map: BTreeMap::new() };
        assert(r@ =~= Map::empty());
        r
    }

    /// The reply that was sent at `ts`.
    pub fn get(&self, ts: u64) -> (r: Option<&str>)
        ensures
            match r {
                Some(s) => self@.contains_key(ts) && s@ == self@[ts],
                None => !self@.contains_key(ts),
            },
    {
        match self.map.get(&ts) {
            Some(s) => Some(s.as_str()),
            None => None,
        }
    }

    /// Records a reply, the oldest making room, and gives what the file is to hold
    /// then: what `load` reads the record back from.
    pub fn record(&mut self, ts: u64, text: String) -> (r: Option<String>)
        ensures
            newest_of(old(self)@.insert(ts, text@), final(self)@, MAX_ENTRIES as nat),
            r is Some,
            r->0@ == replies_text(final(self)@),
            replies_value(r->0@) == Some(final(self)@),
    {
        let ghost all = self@.insert(ts, text@);
        self.map.insert(ts, text);
        assert(self@ =~= all);
        assert(self@.dom() =~= self.map@.dom());
        while self.map.len() > MAX_ENTRIES
            invariant
                self@.submap_of(all),
                self@.dom() == self.map@.dom(),
                self@.len() <= all.len(),
                self@.len() < all.len() ==> self@.len() >= MAX_ENTRIES,
                forall|gone: u64, left: u64|
                    #![trigger all.contains_key(gone), self@.contains_key(left)]
                    all.contains_key(gone) && !self@.contains_key(gone) && self@.contains_key(left)
                        ==> gone < left,
            decreases self.map@.len(),
        {
            let ghost before = self@;
            let ghost m = self.map@;
            let popped = pop_first(&mut self.map);
            proof {
                let entry = popped->0;
                let k = entry.0;
                assert(m.contains_key(k));
                assert(self@.dom() =~= before.dom().remove(k));
                assert(self@ =~= before.remove(k));
                assert forall|gone: u64, left: u64|
                    #![trigger all.contains_key(gone), self@.contains_key(left)]
                    all.contains_key(gone) && !self@.contains_key(gone) && self@.contains_key(left)
                        implies gone < left by {
                    assert(before.contains_key(left));
                    assert(m.contains_key(left));
                    if gone == k {
                        assert(k <= left && k != left);
                    } else {
                        assert(!before.contains_key(gone));
                    }
                }
            }
        }
        write_replies(&self.map)
    }
}

/// The times of the replies that are newer than `ts`.
pub open spec fn newer_than(map: Map<u64, Seq<char>>, ts: u64) -> Set<u64> {
    map.dom().filter(|other: u64| other > ts)
}

/// What was recorded is there, unless the record is full of newer replies; and the
/// record is never larger than it may be.
pub proof fn law_recorded_is_kept(
    before: Map<u64, Seq<char>>,
    after: Map<u64, Seq<char>>,
    ts: u64,
    text: Seq<char>,
)
    requires
        before.dom().finite(),
        newest_of(before.insert(ts, text), after, MAX_ENTRIES as nat),
    ensures
        after.contains_key(ts) <==> newer_than(before, ts).len() < MAX_ENTRIES,
        after.contains_key(ts) ==> after[ts] == text,
        after.len() <= MAX_ENTRIES,
{
    let all = before.insert(ts, text);
    let newer = newer_than(before, ts);
    assert(all.contains_key(ts));
    assert(after.dom().subset_of(all.dom()));
    assert(newer.subset_of(before.dom()));
    vstd::set_lib::lemma_len_subset(newer, before.dom());
    if after.contains_key(ts) {
        assert forall|k: u64| newer.contains(k) implies after.dom().contains(k) by {
            assert(all.contains_key(k));
        }
        assert(newer.insert(ts).subset_of(after.dom()));
        vstd::set_lib::lemma_len_subset(newer.insert(ts), after.dom());
    } else {
        assert forall|k: u64| after.dom().contains(k) implies newer.contains(k) by {
            assert(after.contains_key(k) && all.contains_key(k));
        }
        vstd::set_lib::lemma_len_subset(after.dom(), newer);
        if all.len() <= MAX_ENTRIES {
            vstd::set_lib::lemma_subset_equality(after.dom(), all.dom());
        }
    }
}

/// Nothing is lost while there are fewer than five hundred replies; of more than that, the
/// five hundred newest are kept, word for word.
pub proof fn law_the_newest_replies_are_kept(
    before: Map<u64, Seq<char>>,
    after: Map<u64, Seq<char>>,
    ts: u64,
    text: Seq<char>,
    k: u64,
)
    requires
        before.dom().finite(),
        newest_of(before.insert(ts, text), after, MAX_ENTRIES as nat),
    ensures
        before.len() < 500 ==> after == before.insert(ts, text),
        before.insert(ts, text).contains_key(k) ==> (after.contains_key(k) <==> newer_than(
            before.insert(ts, text),
            k,
        ).len() < 500),
        after.contains_key(k) ==> before.insert(ts, text).contains_key(k) && after[k]
            == before.insert(ts, text)[k],
{
    let all = before.insert(ts, text);
    let newer = newer_than(all, k);
    assert(after.dom().subset_of(all.dom()));
    assert(newer.subset_of(all.dom()));
    vstd::set_lib::lemma_len_subset(newer, all.dom());
    if before.len() < 500 {
        assert(all.dom() =~= before.dom().insert(ts));
        vstd::set_lib::lemma_subset_equality(after.dom(), all.dom());
        assert(after =~= all);
    }
    if all.contains_key(k) {
        if after.contains_key(k) {
            assert forall|x: u64| newer.contains(x) implies after.dom().contains(x) by {
                assert(all.contains_key(x));
            }
            assert(newer.insert(k).subset_of(after.dom()));
            vstd::set_lib::lemma_len_subset(newer.insert(k), after.dom());
        } else {
            assert forall|x: u64| after.dom().contains(x) implies newer.contains(x) by {
                assert(after.contains_key(x) && all.contains_key(x));
            }
            vstd::set_lib::lemma_len_subset(after.dom(), newer);
            if all.len() <= MAX_ENTRIES {
                vstd::set_lib::lemma_subset_equality(after.dom(), all.dom());
            }
        }
    }
}

} // verus!
