//! Display names.
use vstd::prelude::*;

use crate::attachment::text_opt;
use crate::ids::{hex_fixed, lemma_hex_fixed_len, simple, simple_text, ServiceId};
use crate::text::{
    chars_of, copy, hex_digit, join, joined, lemma_texts_push, same_text, string_between, texts, trim, trimmed,
};

verus! {

/// The last 4 hexadecimal digits of the uuid, e.g. "User a3f9": stable across the
/// session, and distinguishes people whose name cannot be resolved.
pub open spec fn fallback(uuid: u128) -> Seq<char> {
    "User "@ + simple(uuid).subrange(28, 32)
}

/// A label for an account without a known name.
pub fn fallback_name(uuid: u128) -> (r: String)
    ensures
        r@ == fallback(uuid),
{
    let hex = chars_of(&simple_text(uuid));
    proof {
        lemma_hex_fixed_len(uuid as nat, 32);
    }
    let mut r = copy("User ");
    r.append(&string_between(&hex, 28, 32));
    r
}

/// A name without whitespace around it, or the fallback where nothing is left of
/// it or there is none.
pub open spec fn known_or_fallback(name: Option<Seq<char>>, uuid: u128) -> Seq<char> {
    match name {
        Some(n) => if trimmed(n).len() > 0 {
            trimmed(n)
        } else {
            fallback(uuid)
        },
        None => fallback(uuid),
    }
}

fn name_or_fallback(name: Option<String>, uuid: u128) -> (r: String)
    ensures
        r@ == known_or_fallback(text_opt(name), uuid),
{
    if let Some(n) = &name {
        let t = trim(n);
        if !t.as_str().is_empty() {
            return t;
        }
    }
    fallback_name(uuid)
}

/// Resolves display names: our own account maps to its profile name (fetched once
/// at startup), everyone else to their name among the contacts.
pub struct Names {
    pub my_aci: u128,
    pub my_name: String,
}

/// Each name once, where it is first.
pub open spec fn distinct(names: Seq<Seq<char>>) -> Seq<Seq<char>>
    decreases names.len(),
{
    if names.len() == 0 {
        Seq::empty()
    } else {
        let rest = distinct(names.drop_last());
        if rest.contains(names.last()) {
            rest
        } else {
            rest.push(names.last())
        }
    }
}

/// Every name is listed, and none twice.
pub proof fn law_members_are_listed_once(names: Seq<Seq<char>>)
    ensures
        distinct(names).no_duplicates(),
        forall|n: Seq<char>| #[trigger] distinct(names).contains(n) <==> names.contains(n),
    decreases names.len(),
{
    if names.len() > 0 {
        law_members_are_listed_once(names.drop_last());
        let rest = distinct(names.drop_last());
        let last = names.last();
        assert(names =~= names.drop_last().push(last));
        assert forall|n: Seq<char>| #[trigger]
            distinct(names).contains(n) <==> names.contains(n) by {
            if names.contains(n) && n != last {
                let i = choose|i: int| 0 <= i < names.len() && names[i] == n;
                assert(names.drop_last()[i] == n);
                assert(rest.contains(n));
                let k = choose|k: int| 0 <= k < rest.len() && rest[k] == n;
                assert(distinct(names)[k] == n);
            }
            if n == last {
                assert(names[names.len() - 1] == n);
                if !rest.contains(last) {
                    assert(distinct(names)[rest.len() as int] == n);
                }
            }
            if distinct(names).contains(n) && n != last {
                let k = choose|k: int| 0 <= k < distinct(names).len() && distinct(names)[k] == n;
                assert(rest[k] == n);
                assert(rest.contains(n));
                let i = choose|i: int|
                    0 <= i < names.drop_last().len() && names.drop_last()[i] == n;
                assert(names[i] == n);
            }
        }
    } else {
        assert(distinct(names) =~= Seq::empty());
    }
}

/// Where a conversation is happening, for the system prompt.
pub open spec fn direct_context(mine: Seq<char>, other: Seq<char>) -> Seq<char> {
    "---\nChat context:\n- Type: direct message\n- Between: \""@ + mine + "\" and \""@ + other
        + "\""@
}

/// Where a conversation is happening, for the system prompt.
pub open spec fn group_context_of(title: Seq<char>, members: Seq<Seq<char>>) -> Seq<char> {
    "---\nChat context:\n- Type: group\n- Group name: \""@ + title + "\"\n- Members: \""@ + joined(
        distinct(members),
        "\", \""@,
    ) + "\""@
}

/// What is known of where a conversation is happening.
pub enum ChatInfo {
    /// with someone of this name
    Direct(String),
    /// in a group of this title, with members of these names
    Group(String, Vec<String>),
    /// in a group that could not be looked up
    UnknownGroup,
}

impl Names {
    /// The name that an account goes by, given what the contacts say of it.
    pub open spec fn name(self, id: ServiceId, contact: Option<Seq<char>>) -> Seq<char> {
        if id.uuid() == self.my_aci {
            self.my_name@
        } else {
            known_or_fallback(contact, id.uuid())
        }
    }

    /// Where a conversation is happening, for the system prompt.
    pub open spec fn context(self, chat: ChatInfo) -> Seq<char> {
        match chat {
            ChatInfo::Direct(other) => direct_context(self.my_name@, other@),
            ChatInfo::Group(title, members) => group_context_of(title@, texts(members@)),
            ChatInfo::UnknownGroup => "---\nChat context:\n- Type: group"@,
        }
    }

    /// Names as seen from our account, whose profile gives the name it has, if
    /// any. Falls back to a uuid-derived label.
    pub fn resolve(my_aci: u128, profile_name: Option<String>) -> (r: Names)
        ensures
            r.my_aci == my_aci,
            r.my_name@ == known_or_fallback(text_opt(profile_name), my_aci),
    {
        Names { my_aci, my_name: name_or_fallback(profile_name, my_aci) }
    }

    pub fn my_aci(&self) -> (r: u128)
        ensures
            r == self.my_aci,
    {
        self.my_aci
    }

    /// The name that an account goes by, given its name among the contacts, if it
    /// is one of them.
    pub fn of(&self, id: &ServiceId, contact_name: Option<String>) -> (r: String)
        ensures
            r@ == self.name(*id, text_opt(contact_name)),
    {
        if id.raw_uuid() == self.my_aci {
            return copy(&self.my_name);
        }
        name_or_fallback(contact_name, id.raw_uuid())
    }

    /// The name that the account with this uuid goes by.
    pub fn of_uuid(&self, uuid: u128, contact_name: Option<String>) -> (r: String)
        ensures
            r@ == self.name(ServiceId::Aci(uuid), text_opt(contact_name)),
    {
        self.of(&ServiceId::Aci(uuid), contact_name)
    }

    /// A block describing where this conversation is happening, appended to the system
    /// prompt so that the model knows the chat type and who is involved.
    pub fn chat_context(&self, chat: ChatInfo) -> (r: String)
        ensures
            r@ == self.context(chat),
    {
        match chat {
            ChatInfo::Direct(other) => {
                let mut r = copy("---\nChat context:\n- Type: direct message\n- Between: \"");
                r.append(&self.my_name);
                r.append("\" and \"");
                r.append(&other);
                r.append("\"");
                r
            },
            ChatInfo::Group(title, members) => group_chat_context(&title, &members),
            ChatInfo::UnknownGroup => copy("---\nChat context:\n- Type: group"),
        }
    }
}

fn group_chat_context(title: &str, names: &Vec<String>) -> (r: String)
    ensures
        r@ == group_context_of(title@, texts(names@)),
{
    broadcast use lemma_texts_push;

    let ghost all = texts(names@);
    let mut members: Vec<String> = Vec::new();
    assert(all.take(0) =~= Seq::empty());
    assert(texts(members@) =~= Seq::empty());
    for i in 0..names.len()
        invariant
            all == texts(names@),
            texts(members@) == distinct(all.take(i as int)),
    {
        assert(all.take(i + 1).drop_last() =~= all.take(i as int));
        let mut known = false;
        for j in 0..members.len()
            invariant
                i < names@.len(),
                known == exists|k: int|
                    0 <= k < j && (#[trigger] members@[k])@ == names@[i as int]@,
        {
            if same_text(&members[j], &names[i]) {
                known = true;
            }
        }
        assert(known == texts(members@).contains(names@[i as int]@)) by {
            if texts(members@).contains(names@[i as int]@) {
                let k = choose|k: int|
                    0 <= k < texts(members@).len() && texts(members@)[k] == names@[i as int]@;
                assert(members@[k]@ == names@[i as int]@);
            }
            if known {
                let k = choose|k: int|
                    0 <= k < members@.len() && (#[trigger] members@[k])@ == names@[i as int]@;
                assert(texts(members@)[k] == names@[i as int]@);
            }
        }
        if !known {
            members.push(copy(&names[i]));
        }
    }
    assert(all.take(all.len() as int) =~= all);
    let mut r = copy("---\nChat context:\n- Type: group\n- Group name: \"");
    r.append(title);
    r.append("\"\n- Members: \"");
    r.append(&join(&members, "\", \""));
    r.append("\"");
    r
}

/// A name that is known is told without whitespace around it. Someone without one is told
/// apart by the last four hexadecimal digits of their account.
pub proof fn law_everyone_has_a_name(name: Seq<char>, uuid: u128)
    ensures
        trimmed(name).len() > 0 ==> known_or_fallback(Some(name), uuid) == trimmed(name),
        trimmed(name).len() == 0 ==> known_or_fallback(Some(name), uuid) == known_or_fallback(
            None,
            uuid,
        ),
        known_or_fallback(None, uuid) == "User "@ + seq![
            hex_digit((uuid / 4096 % 16) as int),
            hex_digit((uuid / 256 % 16) as int),
            hex_digit((uuid / 16 % 16) as int),
            hex_digit((uuid % 16) as int),
        ],
{
    let n = uuid as nat;
    lemma_hex_fixed_len(n, 32);
    lemma_hex_fixed_len(n / 16, 31);
    lemma_hex_fixed_len(n / 16 / 16, 30);
    lemma_hex_fixed_len(n / 16 / 16 / 16, 29);
    lemma_hex_fixed_len(n / 16 / 16 / 16 / 16, 28);
    let s = simple(uuid);
    assert(s == hex_fixed(n / 16, 31).push(hex_digit((n % 16) as int)));
    assert(hex_fixed(n / 16, 31) == hex_fixed(n / 16 / 16, 30).push(
        hex_digit((n / 16 % 16) as int),
    ));
    assert(hex_fixed(n / 16 / 16, 30) == hex_fixed(n / 16 / 16 / 16, 29).push(
        hex_digit((n / 16 / 16 % 16) as int),
    ));
    assert(hex_fixed(n / 16 / 16 / 16, 29) == hex_fixed(n / 16 / 16 / 16 / 16, 28).push(
        hex_digit((n / 16 / 16 / 16 % 16) as int),
    ));
    assert(n / 16 / 16 == n / 256);
    assert(n / 16 / 16 / 16 == n / 4096);
    assert(s.subrange(28, 32) =~= seq![
        hex_digit((n / 4096 % 16) as int),
        hex_digit((n / 256 % 16) as int),
        hex_digit((n / 16 % 16) as int),
        hex_digit((n % 16) as int),
    ]);
}

/// We go by our own name, under either identity; everyone else goes by theirs among the
/// contacts, whatever ours is.
pub proof fn law_who_goes_by_what(n: Names, uuid: u128, contact: Option<Seq<char>>)
    ensures
        n.name(ServiceId::Aci(n.my_aci), contact) == n.my_name@,
        n.name(ServiceId::Pni(n.my_aci), contact) == n.my_name@,
        uuid != n.my_aci ==> n.name(ServiceId::Aci(uuid), contact) == known_or_fallback(
            contact,
            uuid,
        ),
        uuid != n.my_aci ==> n.name(ServiceId::Pni(uuid), contact) == known_or_fallback(
            contact,
            uuid,
        ),
{
}

/// Members are listed in the order in which they are first named.
pub proof fn law_members_are_listed_in_order(names: Seq<Seq<char>>, x: Seq<char>)
    ensures
        distinct(Seq::empty()).len() == 0,
        names.contains(x) ==> distinct(names.push(x)) == distinct(names),
        !names.contains(x) ==> distinct(names.push(x)) == distinct(names).push(x),
{
    law_members_are_listed_once(names);
    assert(names.push(x).drop_last() =~= names);
}

/// The model is told what kind of chat it is in, and with whom: both names of a direct one,
/// the title and all members of a group. Of a group that could not be looked up it is told
/// that it is one.
pub proof fn law_the_chat_is_described(
    n: Names,
    other: String,
    title: String,
    members: Vec<String>,
)
    ensures
        n.context(ChatInfo::Direct(other))
            == "---\nChat context:\n- Type: direct message\n- Between: \""@ + n.my_name@
            + "\" and \""@ + other@ + "\""@,
        n.context(ChatInfo::Group(title, members))
            == "---\nChat context:\n- Type: group\n- Group name: \""@ + title@
            + "\"\n- Members: \""@ + joined(distinct(texts(members@)), "\", \""@) + "\""@,
        n.context(ChatInfo::UnknownGroup) == "---\nChat context:\n- Type: group"@,
{
}

} // verus!
