//! The answer in what the model writes, apart from its reasoning.
use vstd::prelude::*;

use crate::ai::Phase;
use crate::text::{
    chars_of, contains, copy, ends, find, find_chars, find_from, is_blank,
    law_trimmed_is_the_middle, lemma_find_from, lemma_find_has, lemma_rfind_from, occurs, occurs_at, rfind, rfind_chars, string_between, trim,
    trim_start, trim_start_of, trimmed, white,
};

verus! {

/// The mark that opens a run of reasoning.
pub open spec fn think_open() -> Seq<char> {
    seq!['<', 't', 'h', 'i', 'n', 'k', '>']
}

/// The mark that closes a run of reasoning.
pub open spec fn think_close() -> Seq<char> {
    seq!['<', '/', 't', 'h', 'i', 'n', 'k', '>']
}

/// What follows a run of reasoning that the content starts inside of; all of it
/// where it does not.
pub open spec fn after_leading(content: Seq<char>) -> Seq<char> {
    match find(content, think_close()) {
        Some(close) => {
            let leads = match find(content, think_open()) {
                Some(open) => close < open,
                None => true,
            };
            if leads {
                content.skip(close + think_close().len())
            } else {
                content
            }
        },
        None => content,
    }
}

/// What stands outside the marked runs of reasoning, the last of which may be
/// unfinished.
pub open spec fn outside(rest: Seq<char>) -> Seq<char>
    decreases rest.len(),
{
    match find(rest, think_open()) {
        Some(open) => {
            let after = rest.skip(open + think_open().len());
            match find(after, think_close()) {
                Some(close) => {
                    proof {
                        lemma_find_from(rest, think_open(), 0);
                        lemma_find_from(after, think_close(), 0);
                    }
                    rest.take(open) + outside(after.skip(close + think_close().len()))
                },
                None => rest.take(open),
            }
        },
        None => rest,
    }
}

/// The answer with the reasoning removed.
pub open spec fn stitched(content: Seq<char>) -> Seq<char> {
    trimmed(outside(after_leading(content)))
}

fn open_mark() -> (r: Vec<char>)
    ensures
        r@ == think_open(),
{
    proof {
        reveal_strlit("<think>");
    }
    let r = chars_of("<think>");
    assert(r@ =~= think_open());
    r
}

fn close_mark() -> (r: Vec<char>)
    ensures
        r@ == think_close(),
{
    proof {
        reveal_strlit("</think>");
    }
    let r = chars_of("</think>");
    assert(r@ =~= think_close());
    r
}

/// A search in the rest of a text is a search in the text from there on.
proof fn lemma_find_shift(s: Seq<char>, pat: Seq<char>, base: int, from: int)
    requires
        0 <= base <= s.len(),
        0 <= from,
    ensures
        find_from(s, pat, base + from) == (match find_from(s.skip(base), pat, from) {
            Some(i) => Some(i + base),
            None => None,
        }),
    decreases s.len() - base - from + 1,
{
    let t = s.skip(base);
    if from + pat.len() > t.len() {
    } else {
        assert(t.subrange(from, from + pat.len()) =~= s.subrange(
            base + from,
            base + from + pat.len(),
        ));
        if occurs_at(t, pat, from) {
        } else {
            lemma_find_shift(s, pat, base, from + 1);
        }
    }
}

/// The answer with reasoning removed. The prompt opens the first `<think>` for
/// the model, so content can start inside reasoning with only a closing
/// `</think>`; that leading block is dropped, then any further explicit
/// `<think>…</think>` blocks (the model may re-enter reasoning between answer
/// segments).
pub fn stitched_answer(content: &str) -> (r: String)
    ensures
        r@ == stitched(content@),
{
    let cs = chars_of(content);
    let open_tag = open_mark();
    let close_tag = close_mark();
    let mut at: usize = 0;
    if let Some(close) = find_chars(&cs, &close_tag, 0) {
        let leads = match find_chars(&cs, &open_tag, 0) {
            Some(open) => close < open,
            None => true,
        };
        if leads {
            at = close + close_tag.len();
        }
    }
    let ghost rest = after_leading(content@);
    assert(cs@.skip(at as int) =~= rest);
    let mut out = String::new();
    assert(out@ + outside(cs@.skip(at as int)) =~= outside(rest));
    loop
        invariant_except_break
            cs@ == content@,
            at <= cs@.len(),
            open_tag@ == think_open(),
            close_tag@ == think_close(),
            out@ + outside(cs@.skip(at as int)) == outside(rest),
        ensures
            out@ == outside(rest),
        decreases cs@.len() - at,
    {
        let ghost here = cs@.skip(at as int);
        let ghost so_far = out@;
        proof {
            lemma_find_shift(cs@, think_open(), at as int, 0);
        }
        match find_chars(&cs, &open_tag, at) {
            None => {
                out.append(&string_between(&cs, at, cs.len()));
                assert(cs@.subrange(at as int, cs@.len() as int) =~= here);
                break;
            },
            Some(open) => {
                out.append(&string_between(&cs, at, open));
                assert(cs@.subrange(at as int, open as int) =~= here.take(open - at));
                let inner = open + open_tag.len();
                let ghost after = here.skip(open - at + think_open().len());
                proof {
                    assert(after =~= cs@.skip(inner as int));
                    lemma_find_shift(cs@, think_close(), inner as int, 0);
                }
                match find_chars(&cs, &close_tag, inner) {
                    Some(close) => {
                        at = close + close_tag.len();
                        assert(after.skip(close - inner + think_close().len()) =~= cs@.skip(
                            at as int,
                        ));
                        assert(out@ + outside(cs@.skip(at as int)) =~= so_far + outside(here));
                    },
                    None => {
                        assert(out@ =~= so_far + outside(here));
                        break;
                    },
                }
            },
        }
    }
    trim(&out)
}

/// What stands before a run of reasoning that is under way; all of it where none is.
pub open spec fn before_open(rest: Seq<char>) -> Seq<char> {
    match find(rest, think_open()) {
        Some(j) => rest.take(j),
        None => rest,
    }
}

/// The user-visible answer within the content, an in-progress run of reasoning
/// hidden: what follows the last run that is closed, up to one that is open again.
pub open spec fn visible(content: Seq<char>) -> Option<Seq<char>> {
    match rfind(content, think_close()) {
        Some(i) => Some(trim_start_of(before_open(content.skip(i + think_close().len())))),
        None => if occurs(content, think_open()) {
            None
        } else {
            Some(content)
        },
    }
}

/// The user-visible answer within the content, an in-progress `<think>` block
/// hidden.
pub fn visible_answer(content: &str) -> (r: Option<String>)
    ensures
        match r {
            Some(s) => visible(content@) == Some(s@),
            None => visible(content@) is None,
        },
{
    let cs = chars_of(content);
    let open_tag = open_mark();
    let close_tag = close_mark();
    match rfind_chars(&cs, &close_tag) {
        Some(i) => {
            let from = i + close_tag.len();
            let ghost rest = content@.skip(from as int);
            proof {
                lemma_find_shift(cs@, think_open(), from as int, 0);
            }
            let to = match find_chars(&cs, &open_tag, from) {
                Some(open) => open,
                None => cs.len(),
            };
            assert(cs@.subrange(from as int, to as int) =~= before_open(rest));
            let shown = string_between(&cs, from, to);
            Some(trim_start(&shown))
        },
        None => {
            proof {
                lemma_find_has(content@, think_open());
            }
            if find_chars(&cs, &open_tag, 0).is_some() {
                None
            } else {
                Some(copy(content))
            }
        },
    }
}

/// The phase implied by what has arrived so far: visible text means writing,
/// reasoning before that means thinking, nothing yet means neither.
pub open spec fn implied_phase(saw_reasoning: bool, content: Seq<char>) -> Option<Phase> {
    let shows = match visible(content) {
        Some(s) => trimmed(s).len() > 0,
        None => false,
    };
    if shows {
        Some(Phase::Generating)
    } else if saw_reasoning || occurs(content, think_open()) {
        Some(Phase::Reasoning)
    } else {
        None
    }
}

/// The phase implied by what has arrived so far.
pub fn next_phase(saw_reasoning: bool, content: &str) -> (r: Option<Phase>)
    ensures
        r == implied_phase(saw_reasoning, content@),
{
    let shows = match visible_answer(content) {
        Some(s) => !is_blank(&s),
        None => false,
    };
    if shows {
        Some(Phase::Generating)
    } else {
        proof {
            reveal_strlit("<think>");
            assert("<think>"@ =~= think_open());
        }
        if saw_reasoning || contains(content, "<think>") {
            Some(Phase::Reasoning)
        } else {
            None
        }
    }
}

// ---------------------------------------------------------------------------
// laws

/// Content without any mark is its own answer, but for whitespace at its ends.
pub proof fn law_plain_content_is_the_answer(content: Seq<char>)
    requires
        !occurs(content, think_open()),
        !occurs(content, think_close()),
    ensures
        stitched(content) == trimmed(content),
        visible(content) == Some(content),
{
    lemma_find_has(content, think_open());
    lemma_find_has(content, think_close());
    lemma_rfind_from(content, think_close(), content.len() - think_close().len());
    if let Some(i) = rfind(content, think_close()) {
        assert(occurs_at(content, think_close(), i));
    }
}

/// A mark that opens with a character it holds nowhere else does not start in
/// the text before that character and reach over it.
proof fn lemma_first_mark(before: Seq<char>, tail: Seq<char>, mark: Seq<char>)
    requires
        mark.len() > 0,
        forall|j: int| 0 < j < mark.len() ==> #[trigger] mark[j] != mark[0],
        !occurs(before, mark),
        tail.len() > 0,
        tail[0] == mark[0],
    ensures
        forall|i: int| 0 <= i < before.len() ==> !occurs_at(before + tail, mark, i),
        match find(before + tail, mark) {
            Some(i) => before.len() <= i,
            None => true,
        },
{
    let n = before.len() as int;
    let s = before + tail;
    assert forall|i: int| 0 <= i < n implies !occurs_at(s, mark, i) by {
        if occurs_at(s, mark, i) {
            if i + mark.len() <= n {
                assert(before.subrange(i, i + mark.len()) =~= s.subrange(i, i + mark.len()));
                assert(occurs_at(before, mark, i));
            } else {
                assert(s.subrange(i, i + mark.len())[n - i] == s[n]);
                assert(s[n] == tail[0]);
            }
        }
    }
    lemma_find_from(s, mark, 0);
}

/// The first mark in text that holds none is the one written behind it.
proof fn lemma_mark_behind(before: Seq<char>, mark: Seq<char>, tail: Seq<char>)
    requires
        mark.len() > 0,
        forall|j: int| 0 < j < mark.len() ==> #[trigger] mark[j] != mark[0],
        !occurs(before, mark),
    ensures
        find(before + mark + tail, mark) == Some(before.len() as int),
        (before + mark + tail).take(before.len() as int) == before,
        (before + mark + tail).skip((before.len() + mark.len()) as int) == tail,
{
    let n = before.len() as int;
    let s = before + mark + tail;
    assert(s =~= before + (mark + tail));
    assert((mark + tail)[0] == mark[0]);
    lemma_first_mark(before, mark + tail, mark);
    assert(s.subrange(n, n + mark.len()) =~= mark);
    assert(occurs_at(s, mark, n));
    lemma_find_from(s, mark, 0);
    assert(s.take(n) =~= before);
    assert(s.skip(n + mark.len()) =~= tail);
}

/// Reasoning that the content starts inside of is no part of the answer, which
/// is what stands outside the reasoning in the rest.
pub proof fn law_leading_reasoning_is_dropped(reasoning: Seq<char>, rest: Seq<char>)
    requires
        !occurs(reasoning, think_open()),
        !occurs(reasoning, think_close()),
    ensures
        stitched(reasoning + think_close() + rest) == trimmed(outside(rest)),
{
    let n = reasoning.len() as int;
    let content = reasoning + think_close() + rest;
    lemma_mark_behind(reasoning, think_close(), rest);
    assert(content =~= reasoning + (think_close() + rest));
    lemma_first_mark(reasoning, think_close() + rest, think_open());
    lemma_find_from(content, think_open(), 0);
    if let Some(i) = find(content, think_open()) {
        assert(content.subrange(i, i + think_open().len())[1] == content[i + 1]);
        assert(content[n + 1] == think_close()[1]);
    }
}

/// A marked run of reasoning is no part of the answer; what stands before it
/// is, and what stands outside the reasoning behind it.
pub proof fn law_marked_reasoning_is_dropped(
    before: Seq<char>,
    reasoning: Seq<char>,
    rest: Seq<char>,
)
    requires
        !occurs(before, think_open()),
        !occurs(before, think_close()),
        !occurs(reasoning, think_close()),
    ensures
        stitched(before + think_open() + (reasoning + think_close() + rest)) == trimmed(
            before + outside(rest),
        ),
{
    let tail = reasoning + think_close() + rest;
    let content = before + think_open() + tail;
    lemma_mark_behind(before, think_open(), tail);
    lemma_mark_behind(reasoning, think_close(), rest);
    assert(content =~= before + (think_open() + tail));
    lemma_first_mark(before, think_open() + tail, think_close());
    assert(after_leading(content) == content);
    assert(outside(content) == before + outside(rest));
}

/// Reasoning that is not finished yet is no part of the answer either, and it
/// is never shown.
pub proof fn law_unfinished_reasoning_is_dropped(before: Seq<char>, reasoning: Seq<char>)
    requires
        !occurs(before, think_open()),
        !occurs(before + think_open() + reasoning, think_close()),
    ensures
        stitched(before + think_open() + reasoning) == trimmed(before),
        visible(before + think_open() + reasoning) is None,
{
    let n = before.len() as int;
    let content = before + think_open() + reasoning;
    lemma_mark_behind(before, think_open(), reasoning);
    assert(occurs(content, think_open())) by {
        lemma_find_has(content, think_open());
    }
    assert(find(content, think_close()) is None) by {
        lemma_find_has(content, think_close());
    }
    assert(rfind(content, think_close()) is None) by {
        lemma_rfind_from(content, think_close(), content.len() - think_close().len());
        if let Some(i) = rfind(content, think_close()) {
            assert(occurs_at(content, think_close(), i));
        }
    }
    assert(find(reasoning, think_close()) is None) by {
        lemma_find_from(reasoning, think_close(), 0);
        if let Some(i) = find(reasoning, think_close()) {
            let at = n + think_open().len() + i;
            assert(content.subrange(at, at + think_close().len()) =~= reasoning.subrange(
                i,
                i + think_close().len(),
            ));
            assert(occurs_at(content, think_close(), at));
        }
    }
    assert(outside(content) == before);
}

proof fn lemma_part_has(s: Seq<char>, from: int, to: int, pat: Seq<char>, i: int)
    requires
        0 <= from <= to <= s.len(),
        occurs_at(s.subrange(from, to), pat, i),
    ensures
        occurs_at(s, pat, from + i),
{
    assert(s.subrange(from + i, from + i + pat.len()) =~= s.subrange(from, to).subrange(
        i,
        i + pat.len(),
    ));
}

proof fn lemma_trim_start_is_part(s: Seq<char>)
    ensures
        trim_start_of(s).len() <= s.len(),
        trim_start_of(s) == s.subrange(s.len() - trim_start_of(s).len(), s.len() as int),
    decreases s.len(),
{
    if s.len() > 0 && white(s[0]) {
        let t = s.skip(1);
        lemma_trim_start_is_part(t);
        let n = trim_start_of(t).len();
        assert(t.subrange(t.len() - n, t.len() as int) =~= s.subrange(
            s.len() - n,
            s.len() as int,
        ));
    } else {
        assert(s.subrange(0, s.len() as int) =~= s);
    }
}

/// Whatever has arrived, neither a mark nor anything behind an open one is shown.
pub proof fn law_no_mark_is_shown(content: Seq<char>)
    ensures
        visible(content) is Some ==> !occurs(visible(content)->0, think_open()) && !occurs(
            visible(content)->0,
            think_close(),
        ),
{
    let last = content.len() - think_close().len();
    lemma_rfind_from(content, think_close(), last);
    match rfind(content, think_close()) {
        Some(i) => {
            let from = i + think_close().len();
            let rest = content.skip(from);
            let part = before_open(rest);
            let shown = trim_start_of(part);
            let cut = part.len() - shown.len();
            lemma_trim_start_is_part(part);
            lemma_find_from(rest, think_open(), 0);
            assert(part =~= rest.subrange(0, part.len() as int));
            assert(part =~= content.subrange(from, from + part.len()));
            assert forall|k: int| !occurs_at(shown, think_open(), k) by {
                if occurs_at(shown, think_open(), k) {
                    lemma_part_has(part, cut, part.len() as int, think_open(), k);
                    lemma_part_has(rest, 0, part.len() as int, think_open(), cut + k);
                    assert(occurs_at(rest, think_open(), cut + k));
                }
            }
            assert forall|k: int| !occurs_at(shown, think_close(), k) by {
                if occurs_at(shown, think_close(), k) {
                    lemma_part_has(part, cut, part.len() as int, think_close(), k);
                    lemma_part_has(content, from, from + part.len(), think_close(), cut + k);
                    assert(occurs_at(content, think_close(), from + cut + k));
                }
            }
        },
        None => {
            assert forall|k: int| !occurs_at(content, think_close(), k) by {
                if k <= last {
                    assert(!occurs_at(content, think_close(), k));
                }
            }
        },
    }
}

/// Behind the first character of a closing mark, none starts but in what follows it.
proof fn lemma_no_close_behind(done: Seq<char>, rest: Seq<char>, k: int)
    requires
        !occurs(rest, think_close()),
        done.len() < k,
    ensures
        !occurs_at(done + think_close() + rest, think_close(), k),
{
    let n = done.len() as int;
    let m = think_close().len() as int;
    let s = done + think_close() + rest;
    if occurs_at(s, think_close(), k) {
        assert(s.subrange(k, k + m)[0] == s[k]);
        if k < n + m {
            assert(s[k] == think_close()[k - n]);
        } else {
            assert(rest.subrange(k - n - m, k - n) =~= s.subrange(k, k + m));
            assert(occurs_at(rest, think_close(), k - n - m));
        }
    }
}

/// The last mark in a text is the one behind which none is written.
proof fn lemma_last_close(done: Seq<char>, rest: Seq<char>)
    requires
        !occurs(rest, think_close()),
    ensures
        rfind(done + think_close() + rest, think_close()) == Some(done.len() as int),
        (done + think_close() + rest).skip((done.len() + think_close().len()) as int) == rest,
{
    let n = done.len() as int;
    let m = think_close().len() as int;
    let s = done + think_close() + rest;
    assert(s.skip(n + m) =~= rest);
    assert(occurs_at(s, think_close(), n)) by {
        assert(s.subrange(n, n + m) =~= think_close());
    }
    let last = s.len() - m;
    lemma_rfind_from(s, think_close(), last);
    let found = rfind(s, think_close());
    if found is Some && found->0 > n {
        lemma_no_close_behind(done, rest, found->0);
    }
}

/// Where reasoning is entered again behind what is closed, only the text between the
/// two is shown, and it alone decides the phase.
pub proof fn law_reopened_reasoning_is_hidden(
    done: Seq<char>,
    text: Seq<char>,
    reasoning: Seq<char>,
    saw_reasoning: bool,
)
    requires
        !occurs(text, think_open()),
        !occurs(text + think_open() + reasoning, think_close()),
    ensures
        ({
            let content = done + think_close() + (text + think_open() + reasoning);
            &&& visible(content) == Some(trim_start_of(text))
            &&& implied_phase(saw_reasoning, content) == Some(
                if trimmed(trim_start_of(text)).len() > 0 {
                    Phase::Generating
                } else {
                    Phase::Reasoning
                },
            )
        }),
{
    let rest = text + think_open() + reasoning;
    let content = done + think_close() + rest;
    lemma_last_close(done, rest);
    lemma_mark_behind(text, think_open(), reasoning);
    assert(before_open(rest) == text);
    let at = done.len() + think_close().len() + text.len();
    assert(content.subrange(at as int, (at + think_open().len()) as int) =~= think_open());
    assert(occurs_at(content, think_open(), at as int));
}

/// Empty, or with a closing mark at its end: text behind which the model is outside of
/// its reasoning.
pub open spec fn is_closed(p: Seq<char>) -> bool {
    p.len() == 0 || ends(p, think_close())
}

/// In a closed text the first closing mark is within it whatever follows, and what
/// stands behind that mark is closed.
proof fn lemma_close_in_closed(p: Seq<char>, q: Seq<char>)
    requires
        is_closed(p),
        p.len() > 0,
    ensures
        find(p + q, think_close()) is Some,
        find(p + q, think_close()) == find(p, think_close()),
        find(p, think_close())->0 + think_close().len() <= p.len(),
        is_closed(p.skip(find(p, think_close())->0 + think_close().len())),
        (p + q).skip(find(p, think_close())->0 + think_close().len()) == p.skip(
            find(p, think_close())->0 + think_close().len(),
        ) + q,
{
    let m = think_close().len() as int;
    let n = p.len() as int;
    let s = p + q;
    lemma_find_from(p, think_close(), 0);
    lemma_find_from(s, think_close(), 0);
    assert(p.subrange(n - m, n) =~= p.skip(n - m));
    assert(occurs_at(p, think_close(), n - m));
    let k = find(p, think_close())->0;
    assert(s.subrange(k, k + m) =~= p.subrange(k, k + m));
    assert(occurs_at(s, think_close(), k));
    assert forall|j: int| 0 <= j < k implies !occurs_at(s, think_close(), j) by {
        if occurs_at(s, think_close(), j) {
            assert(s.subrange(j, j + m) =~= p.subrange(j, j + m));
            assert(occurs_at(p, think_close(), j));
        }
    }
    assert(s.skip(k + m) =~= p.skip(k + m) + q);
    let left = p.skip(k + m);
    if left.len() > 0 {
        // two closing marks do not overlap
        if k + m > n - m {
            assert(p.subrange(k, k + m)[n - m - k] == p[n - m]);
            assert(p.subrange(n - m, n)[0] == p[n - m]);
        }
        assert(left.skip(left.len() - m) =~= p.skip(n - m));
    }
}

/// An opening mark that starts in a closed text is within it.
proof fn lemma_open_in_closed(p: Seq<char>, q: Seq<char>, i: int)
    requires
        is_closed(p),
        0 <= i < p.len(),
    ensures
        occurs_at(p + q, think_open(), i) <==> occurs_at(p, think_open(), i),
        occurs_at(p, think_open(), i) ==> is_closed(p.skip(i + think_open().len())) && i
            + think_open().len() < p.len(),
{
    let m = think_close().len() as int;
    let n = p.len() as int;
    let o = think_open().len() as int;
    let s = p + q;
    assert(p.skip(n - m)[0] == p[n - m]);
    if i + o <= n {
        assert(s.subrange(i, i + o) =~= p.subrange(i, i + o));
    }
    if occurs_at(s, think_open(), i) {
        assert(s.subrange(i, i + o)[0] == s[i]);
        assert(s.subrange(i, i + o)[1] == s[i + 1]);
        if i > n - m {
            assert(p.skip(n - m)[i - (n - m)] == p[i]);
        } else if i == n - m {
            assert(p.skip(n - m)[1] == p[i + 1]);
        } else if i + o > n - m {
            assert(s.subrange(i, i + o)[n - m - i] == s[n - m]);
        }
        let left = p.skip(i + o);
        assert(left.skip(left.len() - m) =~= p.skip(n - m));
    }
}

/// The first opening mark in a closed text is the first whatever follows.
proof fn lemma_first_open_in_closed(p: Seq<char>, q: Seq<char>)
    requires
        is_closed(p),
    ensures
        match find(p, think_open()) {
            Some(i) => find(p + q, think_open()) == Some(i) && is_closed(
                p.skip(i + think_open().len()),
            ) && 0 <= i && i + think_open().len() < p.len(),
            None => match find(p + q, think_open()) {
                Some(i) => p.len() <= i,
                None => true,
            },
        },
{
    lemma_find_from(p, think_open(), 0);
    lemma_find_from(p + q, think_open(), 0);
    if let Some(i) = find(p, think_open()) {
        lemma_open_in_closed(p, q, i);
    }
    if let Some(i) = find(p + q, think_open()) {
        if i < p.len() {
            lemma_open_in_closed(p, q, i);
        }
    }
}

/// Behind `p`, a pattern stands in `p + q` where it stands in `q`.
proof fn lemma_behind(p: Seq<char>, q: Seq<char>, pat: Seq<char>, j: int)
    requires
        p.len() <= j,
    ensures
        occurs_at(p + q, pat, j) <==> occurs_at(q, pat, j - p.len()),
{
    let n = p.len();
    if j + pat.len() <= (p + q).len() {
        assert((p + q).subrange(j, j + pat.len()) =~= q.subrange(j - n, j - n + pat.len()));
    }
}

/// Behind a closed text without an opening mark, the first one is the first in what
/// follows.
proof fn lemma_next_open(p: Seq<char>, q: Seq<char>)
    requires
        is_closed(p),
        find(p, think_open()) is None,
    ensures
        find(p + q, think_open()) == (match find(q, think_open()) {
            Some(j) => Some(p.len() + j),
            None => None,
        }),
{
    let n = p.len() as int;
    lemma_first_open_in_closed(p, q);
    lemma_find_from(p + q, think_open(), 0);
    lemma_find_from(q, think_open(), 0);
    if let Some(i) = find(p + q, think_open()) {
        lemma_behind(p, q, think_open(), i);
    }
    if let Some(j) = find(q, think_open()) {
        lemma_behind(p, q, think_open(), n + j);
    }
}

/// Behind a closed text, what is outside of reasoning goes on as far as the next
/// opening mark.
proof fn lemma_outside_unfinished(p: Seq<char>, text: Seq<char>, reasoning: Seq<char>)
    requires
        is_closed(p),
        !occurs(text, think_open()),
        !occurs(text + think_open() + reasoning, think_close()),
    ensures
        outside(p + (text + think_open() + reasoning)) == outside(p + text),
    decreases p.len(),
{
    let q = text + think_open() + reasoning;
    let o = think_open().len() as int;
    let m = think_close().len() as int;
    if let Some(i) = find(p, think_open()) {
        lemma_first_open_in_closed(p, q);
        lemma_first_open_in_closed(p, text);
        let after = p.skip(i + o);
        assert((p + q).skip(i + o) =~= after + q);
        assert((p + text).skip(i + o) =~= after + text);
        lemma_close_in_closed(after, q);
        lemma_close_in_closed(after, text);
        let k = find(after, think_close())->0;
        assert(0 <= k) by {
            lemma_find_from(after, think_close(), 0);
        }
        let left = after.skip(k + m);
        assert(left.len() < p.len());
        lemma_outside_unfinished(left, text, reasoning);
        assert((p + q).take(i) =~= (p + text).take(i));
        assert(outside(p + q) == (p + q).take(i) + outside(left + q));
        assert(outside(p + text) == (p + text).take(i) + outside(left + text));
    } else {
        let at = p.len() + text.len();
        lemma_mark_behind(text, think_open(), reasoning);
        lemma_find_has(text, think_open());
        lemma_next_open(p, q);
        lemma_next_open(p, text);
        assert((p + q).skip(at + o) =~= reasoning);
        assert((p + q).take(at as int) =~= p + text);
        assert(find(reasoning, think_close()) is None) by {
            lemma_find_from(reasoning, think_close(), 0);
            if let Some(j) = find(reasoning, think_close()) {
                let w = text.len() + o + j;
                assert(q.subrange(w, w + m) =~= reasoning.subrange(j, j + m));
                assert(occurs_at(q, think_close(), w));
            }
        }
    }
}

/// Reasoning that is entered again and not finished yet is no part of the answer: it
/// is the same as without it.
pub proof fn law_reopened_reasoning_is_dropped(
    done: Seq<char>,
    text: Seq<char>,
    reasoning: Seq<char>,
)
    requires
        !occurs(text, think_open()),
        !occurs(text + think_open() + reasoning, think_close()),
    ensures
        stitched(done + think_close() + (text + think_open() + reasoning)) == stitched(
            done + think_close() + text,
        ),
{
    let p = done + think_close();
    let q = text + think_open() + reasoning;
    assert(p.skip(p.len() - think_close().len()) =~= think_close());
    lemma_close_in_closed(p, q);
    lemma_close_in_closed(p, text);
    let close = find(p, think_close())->0;
    lemma_first_open_in_closed(p, q);
    lemma_first_open_in_closed(p, text);
    let left = p.skip(close + think_close().len());
    lemma_outside_unfinished(left, text, reasoning);
    lemma_outside_unfinished(p, text, reasoning);
}

/// The phase is told by what is shown: text to read means writing; without any,
/// reasoning that was seen or opened means thinking, and nothing means neither.
pub proof fn law_the_phase_is_told_by_what_is_shown(saw_reasoning: bool, content: Seq<char>)
    ensures
        ({
            let shows = visible(content) is Some && exists|i: int|
                0 <= i < visible(content)->0.len() && !#[trigger] white(visible(content)->0[i]);
            implied_phase(saw_reasoning, content) == (if shows {
                Some(Phase::Generating)
            } else if saw_reasoning || occurs(content, think_open()) {
                Some(Phase::Reasoning)
            } else {
                None
            })
        }),
{
    if let Some(s) = visible(content) {
        law_trimmed_is_the_middle(s);
        let (from, to) = choose|from: int, to: int|
            0 <= from <= to <= s.len() && trimmed(s) == #[trigger] s.subrange(from, to) && (
            forall|i: int| 0 <= i < from || to <= i < s.len() ==> white(#[trigger] s[i]));
        if trimmed(s).len() > 0 {
            assert(trimmed(s)[0] == s[from]);
            assert(!white(s[from]));
        }
    }
}

/// Text behind what is closed is shown and is part of the answer.
pub proof fn law_text_behind_reasoning_is_shown(done: Seq<char>, text: Seq<char>)
    requires
        !occurs(text, think_open()),
        !occurs(text, think_close()),
    ensures
        visible(done + think_close() + text) == Some(trim_start_of(text)),
{
    lemma_last_close(done, text);
    lemma_find_has(text, think_open());
}

/// The marks are those that models write.
pub proof fn law_the_marks()
    ensures
        think_open() == "<think>"@,
        think_close() == "</think>"@,
{
    reveal_strlit("<think>");
    reveal_strlit("</think>");
    assert(think_open() =~= "<think>"@);
    assert(think_close() =~= "</think>"@);
}

/// Outside of reasoning is all that stands before an opening mark, and what is outside
/// behind the closing mark that follows it; all of the text where it has no opening mark.
pub proof fn law_outside_is_what_no_marks_hold(
    before: Seq<char>,
    reasoning: Seq<char>,
    rest: Seq<char>,
)
    requires
        !occurs(before, think_open()),
        !occurs(reasoning, think_close()),
    ensures
        outside(before) == before,
        outside(before + think_open() + (reasoning + think_close() + rest)) == before + outside(
            rest,
        ),
        outside(before + think_open() + reasoning) == before,
{
    lemma_find_has(before, think_open());
    lemma_find_has(reasoning, think_close());
    lemma_mark_behind(before, think_open(), reasoning + think_close() + rest);
    lemma_mark_behind(before, think_open(), reasoning);
    lemma_mark_behind(reasoning, think_close(), rest);
}

} // verus!
