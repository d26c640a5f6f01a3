//! Text: decimal numbers and replacing a pattern.

use vstd::prelude::*;
use vstd::string::StringExecFns;

verus! {

/// The digits.
pub open spec fn digit(d: nat) -> char {
    (48 + d) as char
}

/// A number in decimal digits.
pub open spec fn decimal(n: nat) -> Seq<char>
    decreases n,
{
    if n < 10 {
        seq![digit(n)]
    } else {
        decimal(n / 10).push(digit(n % 10))
    }
}

/// A digit as text.
fn digit_str(d: usize) -> (text: &'static str)
    requires
        d < 10,
    ensures
        text@ == seq![digit(d as nat)],
{
    proof {
        reveal_strlit("0");
        reveal_strlit("1");
        reveal_strlit("2");
        reveal_strlit("3");
        reveal_strlit("4");
        reveal_strlit("5");
        reveal_strlit("6");
        reveal_strlit("7");
        reveal_strlit("8");
        reveal_strlit("9");
    }
    let text: &'static str = match d {
        0 => "0",
        1 => "1",
        2 => "2",
        3 => "3",
        4 => "4",
        5 => "5",
        6 => "6",
        7 => "7",
        8 => "8",
        _ => "9",
    };
    assert(text@ =~= seq![digit(d as nat)]);
    text
}

/// Appends a number in decimal digits.
pub fn push_decimal(text: &mut String, n: usize)
    ensures
        final(text)@ == old(text)@ + decimal(n as nat),
    decreases n,
{
    if n >= 10 {
        push_decimal(text, n / 10);
    }
    text.append(digit_str(n % 10));
    assert(text@ =~= old(text)@ + decimal(n as nat));
}

/// A text with every occurrence of a pattern replaced, from left to right.
pub open spec fn replaced(text: Seq<char>, pattern: Seq<char>, with: Seq<char>) -> Seq<char>
    decreases text.len(),
{
    if pattern.len() == 0 || text.len() < pattern.len() {
        text
    } else if text.take(pattern.len() as int) == pattern {
        with + replaced(text.skip(pattern.len() as int), pattern, with)
    } else {
        seq![text[0]] + replaced(text.skip(1), pattern, with)
    }
}

/// `str::replace`: it replaces every match of the pattern, each found behind the one before.
#[verifier::external_body]
pub(crate) fn replace(text: &str, pattern: &str, with: &str) -> (result: String)
    requires
        pattern@.len() > 0,
    ensures
        result@ == replaced(text@, pattern@, with@),
{
    text.replace(pattern, with)
}

/// Whether a pattern stands in a text at `i`.
pub open spec fn occurs_at(text: Seq<char>, pattern: Seq<char>, i: int) -> bool {
    0 <= i && i + pattern.len() <= text.len() && text.subrange(i, i + pattern.len()) == pattern
}

/// Where a pattern does not occur, nothing is replaced.
proof fn lemma_replace_none(text: Seq<char>, pattern: Seq<char>, with: Seq<char>)
    requires
        pattern.len() > 0,
        forall|i: int| !#[trigger] occurs_at(text, pattern, i),
    ensures
        replaced(text, pattern, with) == text,
    decreases text.len(),
{
    if text.len() >= pattern.len() {
        assert(!occurs_at(text, pattern, 0));
        assert(text.take(pattern.len() as int) =~= text.subrange(0, pattern.len() as int));
        let rest = text.skip(1);
        assert forall|i: int| !#[trigger] occurs_at(rest, pattern, i) by {
            assert(!occurs_at(text, pattern, i + 1));
            if 0 <= i && i + pattern.len() <= rest.len() {
                assert(rest.subrange(i, i + pattern.len()) =~= text.subrange(
                    i + 1,
                    i + 1 + pattern.len(),
                ));
            }
        }
        lemma_replace_none(rest, pattern, with);
        assert(seq![text[0]] + rest =~= text);
    }
}

/// Where a pattern occurs once, replacing it puts the new text in its place and leaves the rest.
pub proof fn law_replace_once(text: Seq<char>, pattern: Seq<char>, with: Seq<char>, at: int)
    requires
        pattern.len() > 0,
        forall|i: int| #[trigger] occurs_at(text, pattern, i) <==> i == at,
    ensures
        replaced(text, pattern, with) == text.take(at) + with + text.skip(at + pattern.len()),
    decreases text.len(),
{
    assert(occurs_at(text, pattern, at));
    let n = pattern.len() as int;
    if at == 0 {
        assert(text.take(n) =~= text.subrange(0, n));
        let rest = text.skip(n);
        assert forall|i: int| !#[trigger] occurs_at(rest, pattern, i) by {
            assert(occurs_at(text, pattern, i + n) <==> i + n == at);
            if 0 <= i && i + n <= rest.len() {
                assert(rest.subrange(i, i + n) =~= text.subrange(i + n, i + n + n));
            }
        }
        lemma_replace_none(rest, pattern, with);
        assert(text.take(0) + with + rest =~= with + rest);
    } else {
        assert(!occurs_at(text, pattern, 0));
        assert(text.take(n) =~= text.subrange(0, n));
        let rest = text.skip(1);
        assert forall|i: int| #[trigger] occurs_at(rest, pattern, i) <==> i == at - 1 by {
            assert(occurs_at(text, pattern, i + 1) <==> i + 1 == at);
            if 0 <= i && i + n <= rest.len() {
                assert(rest.subrange(i, i + n) =~= text.subrange(i + 1, i + 1 + n));
            }
        }
        law_replace_once(rest, pattern, with, at - 1);
        assert(seq![text[0]] + (rest.take(at - 1) + with + rest.skip(at - 1 + n)) =~= text.take(at)
            + with + text.skip(at + n));
    }
}

/// The number that decimal digits spell.
pub open spec fn spelled(text: Seq<char>) -> int
    decreases text.len(),
{
    if text.len() == 0 {
        0
    } else {
        10 * spelled(text.drop_last()) + (text.last() as int - '0' as int)
    }
}

/// A number's decimal digits are digits, spell the number, and do not begin with a zero unless the
/// number is 0.
pub proof fn law_decimal_spells_number(n: nat)
    ensures
        spelled(decimal(n)) == n,
        decimal(n).len() >= 1,
        forall|i: int| 0 <= i < decimal(n).len() ==> '0' <= #[trigger] decimal(n)[i] <= '9',
        n > 0 ==> decimal(n)[0] != '0',
    decreases n,
{
    if n < 10 {
        assert(decimal(n).drop_last() =~= Seq::<char>::empty());
        assert(decimal(n).last() as int == 48 + n);
        assert(spelled(Seq::<char>::empty()) == 0);
    } else {
        law_decimal_spells_number(n / 10);
        assert(decimal(n).drop_last() =~= decimal(n / 10));
        assert(decimal(n).last() as int == 48 + n % 10);
    }
}

} // verus!
