//! Who sends, and where: accounts, groups and their chats.
use vstd::prelude::*;

use crate::text::hex_digit;

verus! {

/// The number that bytes stand for, the most significant first.
pub open spec fn be_value(b: Seq<u8>) -> nat
    decreases b.len(),
{
    if b.len() == 0 {
        0
    } else {
        be_value(b.drop_last()) * 256 + b.last() as nat
    }
}

/// The lowest `width` hexadecimal digits of a number, in lower case.
pub open spec fn hex_fixed(n: nat, width: nat) -> Seq<char>
    decreases width,
{
    if width == 0 {
        Seq::empty()
    } else {
        hex_fixed(n / 16, (width - 1) as nat).push(hex_digit((n % 16) as int))
    }
}

/// A uuid in its plain form.
pub open spec fn simple(uuid: u128) -> Seq<char> {
    hex_fixed(uuid as nat, 32)
}

/// A uuid in its hyphenated form.
pub open spec fn hyphenated(uuid: u128) -> Seq<char> {
    let s = simple(uuid);
    s.subrange(0, 8) + "-"@ + s.subrange(8, 12) + "-"@ + s.subrange(12, 16) + "-"@ + s.subrange(
        16,
        20,
    ) + "-"@ + s.subrange(20, 32)
}

/// What `uuid::Uuid::parse_str` reads from a text.
pub uninterp spec fn uuid_value(text: Seq<char>) -> Option<u128>;

/// `uuid::Uuid::parse_str`: the uuid that a text stands for in any of the forms
/// that it knows. What it is depends on the text alone.
#[verifier::external_body]
pub(crate) fn parse_uuid(text: &str) -> (r: Option<u128>)
    ensures
        r == uuid_value(text@),
{
    match uuid::Uuid::parse_str(text) {
        Ok(u) => Some(u.as_u128()),
        Err(_) => None,
    }
}

/// `uuid::Uuid::from_slice`: the uuid whose bytes these are, the most
/// significant first; none unless there are exactly sixteen.
#[verifier::external_body]
pub(crate) fn uuid_of_bytes(bytes: &[u8]) -> (r: Option<u128>)
    ensures
        match r {
            Some(u) => bytes@.len() == 16 && u as nat == be_value(bytes@),
            None => bytes@.len() != 16,
        },
{
    match uuid::Uuid::from_slice(bytes) {
        Ok(u) => Some(u.as_u128()),
        Err(_) => None,
    }
}

/// `uuid::Uuid::simple`, written out: the 32 hexadecimal digits of a uuid, in
/// lower case.
#[verifier::external_body]
pub(crate) fn simple_text(uuid: u128) -> (r: String)
    ensures
        r@ == simple(uuid),
{
    uuid::Uuid::from_u128(uuid).simple().to_string()
}

/// `uuid::Uuid`, written out: the hexadecimal digits of a uuid, in lower case,
/// with hyphens behind the first 8, 12, 16 and 20 of them.
#[verifier::external_body]
pub(crate) fn hyphenated_text(uuid: u128) -> (r: String)
    ensures
        r@ == hyphenated(uuid),
{
    uuid::Uuid::from_u128(uuid).to_string()
}

proof fn lemma_be_front(x: u8, b: Seq<u8>)
    ensures
        be_value(seq![x] + b) == x * vstd::arithmetic::power::pow(256, b.len()) + be_value(b),
    decreases b.len(),
{
    let s = seq![x] + b;
    reveal(vstd::arithmetic::power::pow);
    if b.len() == 0 {
        vstd::arithmetic::power::lemma_pow0(256);
        assert(s.drop_last() =~= Seq::empty());
        assert(be_value(s.drop_last()) == 0);
    } else {
        lemma_be_front(x, b.drop_last());
        assert(s.drop_last() =~= seq![x] + b.drop_last());
        let p = vstd::arithmetic::power::pow(256, (b.len() - 1) as nat);
        assert((x * p) * 256 == x * (256 * p)) by (nonlinear_arith);
    }
}

/// The bytes of a uuid, the most significant first.
pub fn uuid_bytes(uuid: u128) -> (r: Vec<u8>)
    ensures
        r@.len() == 16,
        be_value(r@) == uuid,
{
    let mut out: Vec<u8> = Vec::new();
    let mut left: u128 = uuid;
    let mut i: usize = 0;
    proof {
        vstd::arithmetic::power::lemma_pow0(256);
        assert(left * vstd::arithmetic::power::pow(256, 0) == left) by (nonlinear_arith)
            requires
                vstd::arithmetic::power::pow(256, 0) == 1,
        ;
        assert(be_value(out@) == 0);
    }
    while i < 16
        invariant
            i <= 16,
            out@.len() == i,
            uuid == left * vstd::arithmetic::power::pow(256, i as nat) + be_value(out@),
        decreases 16 - i,
    {
        let x = (left % 256) as u8;
        let ghost before = out@;
        let ghost p = vstd::arithmetic::power::pow(256, i as nat);
        let ghost l = left as int;
        out.insert(0, x);
        proof {
            assert(out@ =~= seq![x] + before);
            lemma_be_front(x, before);
            reveal(vstd::arithmetic::power::pow);
            assert(vstd::arithmetic::power::pow(256, (i + 1) as nat) == 256 * p);
            assert(l * p == (l / 256) * (256 * p) + (l % 256) * p) by (nonlinear_arith)
                requires
                    l >= 0,
            ;
        }
        left = left / 256;
        i += 1;
    }
    proof {
        assert(vstd::arithmetic::power::pow(256, 16) == u128::MAX + 1) by {
            reveal(vstd::arithmetic::power::pow);
            reveal_with_fuel(vstd::arithmetic::power::pow, 17);
        }
        let l = left as int;
        let p = vstd::arithmetic::power::pow(256, 16);
        assert(l == 0) by (nonlinear_arith)
            requires
                l >= 0,
                p == u128::MAX + 1,
                l * p <= u128::MAX,
        ;
        assert(l * p == 0) by (nonlinear_arith)
            requires
                l == 0,
        ;
    }
    out
}

/// An account, under one of its two identities.
#[derive(Clone, Copy, PartialEq, Eq, Structural)]
pub enum ServiceId {
    Aci(u128),
    Pni(u128),
}

impl ServiceId {
    /// The uuid, whichever identity it is of.
    pub open spec fn uuid(self) -> u128 {
        match self {
            ServiceId::Aci(u) => u,
            ServiceId::Pni(u) => u,
        }
    }

    /// The uuid, whichever identity it is of.
    pub fn raw_uuid(&self) -> (r: u128)
        ensures
            r == self.uuid(),
    {
        match self {
            ServiceId::Aci(u) => *u,
            ServiceId::Pni(u) => *u,
        }
    }
}

/// A chat: with one account, or in the group of a master key.
#[derive(Clone, Copy)]
pub enum Thread {
    Contact(ServiceId),
    Group([u8; 32]),
}

proof fn lemma_hex_digit(a: int, b: int)
    requires
        0 <= a < 16,
        0 <= b < 16,
        hex_digit(a) == hex_digit(b),
    ensures
        a == b,
{
}

/// Numbers with as many hexadecimal digits at most are told apart by them.
pub proof fn lemma_hex_fixed(a: nat, b: nat, width: nat)
    requires
        a < vstd::arithmetic::power::pow(16, width),
        b < vstd::arithmetic::power::pow(16, width),
        hex_fixed(a, width) == hex_fixed(b, width),
    ensures
        a == b,
    decreases width,
{
    vstd::arithmetic::power::lemma_pow0(16);
    if width > 0 {
        let w = (width - 1) as nat;
        let x = hex_fixed(a, width);
        let y = hex_fixed(b, width);
        assert(x.drop_last() =~= hex_fixed(a / 16, w));
        assert(y.drop_last() =~= hex_fixed(b / 16, w));
        assert(x.last() == hex_digit((a % 16) as int));
        assert(y.last() == hex_digit((b % 16) as int));
        lemma_hex_digit((a % 16) as int, (b % 16) as int);
        reveal(vstd::arithmetic::power::pow);
        assert(vstd::arithmetic::power::pow(16, width) == 16 * vstd::arithmetic::power::pow(16, w));
        lemma_hex_fixed(a / 16, b / 16, w);
    }
}

/// As many digits as were asked for.
pub proof fn lemma_hex_fixed_len(n: nat, width: nat)
    ensures
        hex_fixed(n, width).len() == width,
    decreases width,
{
    if width > 0 {
        lemma_hex_fixed_len(n / 16, (width - 1) as nat);
    }
}

/// Two uuids that are written alike are the same one.
pub proof fn law_uuids_are_told_apart(a: u128, b: u128)
    requires
        hyphenated(a) == hyphenated(b),
    ensures
        a == b,
{
    reveal_strlit("-");
    lemma_hex_fixed_len(a as nat, 32);
    lemma_hex_fixed_len(b as nat, 32);
    let x = simple(a);
    let y = simple(b);
    let p = hyphenated(a);
    let q = hyphenated(b);
    assert(p.subrange(0, 8) =~= x.subrange(0, 8));
    assert(q.subrange(0, 8) =~= y.subrange(0, 8));
    assert(p.subrange(9, 13) =~= x.subrange(8, 12));
    assert(q.subrange(9, 13) =~= y.subrange(8, 12));
    assert(p.subrange(14, 18) =~= x.subrange(12, 16));
    assert(q.subrange(14, 18) =~= y.subrange(12, 16));
    assert(p.subrange(19, 23) =~= x.subrange(16, 20));
    assert(q.subrange(19, 23) =~= y.subrange(16, 20));
    assert(p.subrange(24, 36) =~= x.subrange(20, 32));
    assert(q.subrange(24, 36) =~= y.subrange(20, 32));
    assert(x =~= x.subrange(0, 8) + x.subrange(8, 12) + x.subrange(12, 16) + x.subrange(16, 20)
        + x.subrange(20, 32));
    assert(y =~= y.subrange(0, 8) + y.subrange(8, 12) + y.subrange(12, 16) + y.subrange(16, 20)
        + y.subrange(20, 32));
    assert(vstd::arithmetic::power::pow(16, 32) == u128::MAX + 1) by {
        reveal(vstd::arithmetic::power::pow);
        reveal_with_fuel(vstd::arithmetic::power::pow, 33);
    }
    lemma_hex_fixed(a as nat, b as nat, 32);
}

} // verus!
