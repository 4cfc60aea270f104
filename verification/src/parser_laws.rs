//! What holds of every source text and the program parsed from it.

use crate::command::{Command, HEART, POINT_LEFT, POINT_RIGHT, SELECTOR};
use crate::parser::{parse, single, ParserError};
use vstd::prelude::*;

verus! {

/// `c` is the first code point of a lexeme. Every other code point is
/// passed over where a lexeme may begin.
pub open spec fn starts_lexeme(c: char) -> bool {
    c == HEART || c == POINT_RIGHT || single(c) is Some
}

/// The code point that must follow `c` to complete a lexeme, where `c`
/// begins one of two code points.
pub open spec fn partner(c: char) -> Option<char> {
    if c == HEART {
        Some(SELECTOR)
    } else if c == POINT_RIGHT {
        Some(POINT_LEFT)
    } else {
        None
    }
}

/// The text that spells `program`, lexeme after lexeme.
pub open spec fn spelling(program: Seq<Command>) -> Seq<char>
    decreases program.len(),
{
    if program.len() == 0 {
        Seq::empty()
    } else {
        program[0].lexeme() + spelling(program.skip(1))
    }
}

/// `at` names, for each item of `a` in turn, a place in `b` that holds it,
/// each place behind the one before.
pub open spec fn embeds(a: Seq<char>, b: Seq<char>, at: Seq<int>) -> bool {
    &&& at.len() == a.len()
    &&& forall|i: int| 0 <= i < a.len() ==> 0 <= #[trigger] at[i] < b.len() && a[i] == b[at[i]]
    &&& forall|i: int, j: int| 0 <= i < j < a.len() ==> #[trigger] at[i] < #[trigger] at[j]
}

/// `a` is what is left of `b` when some of its items are taken out.
pub open spec fn is_subsequence(a: Seq<char>, b: Seq<char>) -> bool {
    exists|at: Seq<int>| embeds(a, b, at)
}

/// The places `0, 1, .. taken - 1`, followed by the places of `at`, each
/// moved up by `dropped`.
pub open spec fn moved(at: Seq<int>, taken: int, dropped: int) -> Seq<int> {
    Seq::new(
        (taken + at.len()) as nat,
        |i: int|
            if i < taken {
                i
            } else {
                at[i - taken] + dropped
            },
    )
}

/// A text embedded behind the first `dropped` items of `b` stays embedded
/// when the first `taken` of those items are put in front of it.
proof fn lemma_embeds_behind(a: Seq<char>, b: Seq<char>, at: Seq<int>, taken: int, dropped: int)
    requires
        0 <= taken <= dropped <= b.len(),
        embeds(a, b.skip(dropped), at),
    ensures
        embeds(b.take(taken) + a, b, moved(at, taken, dropped)),
{
    let whole = b.take(taken) + a;
    let places = moved(at, taken, dropped);
    assert forall|i: int| 0 <= i < whole.len() implies 0 <= #[trigger] places[i] < b.len()
        && whole[i] == b[places[i]] by {
        if i >= taken {
            assert(0 <= at[i - taken] < b.skip(dropped).len());
            assert(a[i - taken] == b.skip(dropped)[at[i - taken]]);
        }
    }
    assert forall|i: int, j: int| 0 <= i < j < whole.len() implies #[trigger] places[i]
        < #[trigger] places[j] by {
        if i >= taken {
            assert(at[i - taken] < at[j - taken]);
        } else if j >= taken {
            assert(0 <= at[j - taken]);
        }
    }
}

/// A program with one instruction in front is spelled by that
/// instruction's lexeme followed by the spelling of the rest.
proof fn lemma_spelling_prepend(c: Command, program: Seq<Command>)
    ensures
        spelling(seq![c] + program) == c.lexeme() + spelling(program),
{
    assert((seq![c] + program).skip(1) =~= program);
}

/// The places in `s` of the code points that spell the program parsed
/// from it.
proof fn lemma_parse_embeds(s: Seq<char>) -> (at: Seq<int>)
    requires
        parse(s) is Ok,
    ensures
        embeds(spelling(parse(s)->Ok_0), s, at),
    decreases s.len(),
{
    if s.len() == 0 {
        Seq::empty()
    } else if partner(s[0]) is Some {
        let c = if s[0] == HEART {
            Command::Left
        } else {
            Command::Add
        };
        let rest = lemma_parse_embeds(s.skip(2));
        let tail = parse(s.skip(2))->Ok_0;
        lemma_spelling_prepend(c, tail);
        lemma_embeds_behind(spelling(tail), s, rest, 2, 2);
        assert(s.take(2) =~= c.lexeme());
        moved(rest, 2, 2)
    } else if single(s[0]) is Some {
        let c = single(s[0])->0;
        let rest = lemma_parse_embeds(s.skip(1));
        let tail = parse(s.skip(1))->Ok_0;
        lemma_spelling_prepend(c, tail);
        lemma_embeds_behind(spelling(tail), s, rest, 1, 1);
        assert(s.take(1) =~= c.lexeme());
        moved(rest, 1, 1)
    } else {
        let rest = lemma_parse_embeds(s.skip(1));
        let tail = parse(s.skip(1))->Ok_0;
        lemma_embeds_behind(spelling(tail), s, rest, 0, 1);
        assert(s.take(0) + spelling(tail) =~= spelling(tail));
        moved(rest, 0, 1)
    }
}

/// The spelling of a parsed program is a subsequence of its source: the
/// parser takes code points out and puts none in.
pub proof fn lemma_spelling_is_subsequence(s: Seq<char>)
    requires
        parse(s) is Ok,
    ensures
        is_subsequence(spelling(parse(s)->Ok_0), s),
{
    let at = lemma_parse_embeds(s);
}

/// A text in which no code point begins a lexeme is the empty program.
pub proof fn lemma_ignored_text_is_empty_program(s: Seq<char>)
    requires
        forall|i: int| 0 <= i < s.len() ==> !starts_lexeme(#[trigger] s[i]),
    ensures
        parse(s) == Ok::<Seq<Command>, ParserError>(Seq::empty()),
    decreases s.len(),
{
    if s.len() > 0 {
        assert(!starts_lexeme(s[0]));
        assert forall|i: int| 0 <= i < s.skip(1).len() implies !starts_lexeme(
            #[trigger] s.skip(1)[i],
        ) by {
            assert(s.skip(1)[i] == s[i + 1]);
        }
        lemma_ignored_text_is_empty_program(s.skip(1));
    }
}

/// Putting `c` into `s` at `k` parts no lexeme: `c` begins none, and where
/// the code point before it begins one of two code points, neither `c` nor
/// the code point behind it is the one that completes it.
pub open spec fn parts_no_lexeme(s: Seq<char>, k: int, c: char) -> bool {
    &&& 0 <= k <= s.len()
    &&& !starts_lexeme(c)
    &&& k > 0 ==> match partner(s[k - 1]) {
        Some(second) => c != second && (k == s.len() || s[k] != second),
        None => true,
    }
}

/// A code point that begins no lexeme changes nothing where it is put in,
/// unless it parts a lexeme of two code points or completes one.
pub proof fn lemma_insert_ignored(s: Seq<char>, k: int, c: char)
    requires
        parts_no_lexeme(s, k, c),
    ensures
        parse(s.insert(k, c)) == parse(s),
    decreases s.len(),
{
    let t = s.insert(k, c);
    if k == 0 {
        assert(t.skip(1) =~= s);
    } else {
        assert(t[0] == s[0]);
        if partner(s[0]) is Some {
            if k == 1 {
                assert(t[1] == c);
            } else {
                assert(t[1] == s[1]);
                assert(t.skip(2) =~= s.skip(2).insert(k - 2, c));
                if k > 2 {
                    assert(s.skip(2)[k - 3] == s[k - 1]);
                }
                if k < s.len() {
                    assert(s.skip(2)[k - 2] == s[k]);
                }
                lemma_insert_ignored(s.skip(2), k - 2, c);
            }
        } else {
            assert(t.skip(1) =~= s.skip(1).insert(k - 1, c));
            if k > 1 {
                assert(s.skip(1)[k - 2] == s[k - 1]);
            }
            if k < s.len() {
                assert(s.skip(1)[k - 1] == s[k]);
            }
            lemma_insert_ignored(s.skip(1), k - 1, c);
        }
    }
}

/// Taking out a code point that begins no lexeme changes nothing either,
/// under the same condition.
pub proof fn lemma_remove_ignored(s: Seq<char>, k: int)
    requires
        0 <= k < s.len(),
        parts_no_lexeme(s.remove(k), k, s[k]),
    ensures
        parse(s.remove(k)) == parse(s),
{
    assert(s.remove(k).insert(k, s[k]) =~= s);
    lemma_insert_ignored(s.remove(k), k, s[k]);
}

/// A program is parsed back from its own spelling.
pub proof fn lemma_parse_inverts_spelling(program: Seq<Command>)
    ensures
        parse(spelling(program)) == Ok::<Seq<Command>, ParserError>(program),
    decreases program.len(),
{
    if program.len() > 0 {
        let c = program[0];
        let rest = program.skip(1);
        let text = spelling(program);
        lemma_parse_inverts_spelling(rest);
        assert(text == c.lexeme() + spelling(rest));
        assert(text[0] == c.lexeme()[0]);
        if c == Command::Left || c == Command::Add {
            assert(text[1] == c.lexeme()[1]);
            assert(text.skip(2) =~= spelling(rest));
        } else {
            assert(text.skip(1) =~= spelling(rest));
        }
        assert(seq![c] + rest =~= program);
    } else {
        assert(program =~= Seq::empty());
    }
}

} // verus!
