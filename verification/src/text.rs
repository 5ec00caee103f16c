//! Small text helpers shared by the puzzle modules.

use vstd::prelude::*;
use vstd::string::StrSliceExecFns;

verus! {

/// Relies on String::push: appends the given character to the end of the
/// string.
#[verifier::external_body]
pub fn push_char(s: &mut String, c: char)
    ensures
        final(s)@ == old(s)@.push(c),
{
    s.push(c)
}

/// Whether the string holds the character anywhere.
pub fn contains_char(s: &str, c: char) -> (r: bool)
    ensures
        r == s@.contains(c),
{
    let n = s.unicode_len();
    let mut i: usize = 0;
    while i < n
        invariant
            n == s@.len(),
            i <= n,
            forall|k: int| 0 <= k < i ==> s@[k] != c,
        decreases n - i,
    {
        if s.get_char(i) == c {
            assert(s@.contains(c));
            return true;
        }
        i = i + 1;
    }
    assert(forall|k: int| 0 <= k < s@.len() ==> s@[k] != c);
    false
}

/// A whitespace character, as the puzzle inputs use them.
pub open spec fn is_ws(c: char) -> bool {
    c == ' ' || c == '\t' || c == '\n' || c == '\r'
}

/// How far the token starting at `i` runs: to the first whitespace character
/// at or after `i`, or to the end.
pub open spec fn tok_end(s: Seq<char>, i: int) -> int
    decreases s.len() - i,
{
    if i < 0 || i >= s.len() || is_ws(s[i]) {
        i
    } else {
        tok_end(s, i + 1)
    }
}

/// The string's maximal runs of non-whitespace characters, in order.
pub open spec fn spec_tokens(s: Seq<char>) -> Seq<Seq<char>>
    decreases s.len(),
    via spec_tokens_decreases
{
    if s.len() == 0 {
        Seq::empty()
    } else if is_ws(s[0]) {
        spec_tokens(s.drop_first())
    } else {
        seq![s.subrange(0, tok_end(s, 0))] + spec_tokens(s.skip(tok_end(s, 0)))
    }
}

#[via_fn]
proof fn spec_tokens_decreases(s: Seq<char>) {
    if s.len() > 0 && !is_ws(s[0]) {
        lemma_tok_end_bounds(s, 0);
    }
}

/// A token's end lies between its start and the string's end, and past its
/// start when the start is not whitespace.
proof fn lemma_tok_end_bounds(s: Seq<char>, i: int)
    requires
        0 <= i <= s.len(),
    ensures
        i <= tok_end(s, i) <= s.len(),
        i < s.len() && !is_ws(s[i]) ==> tok_end(s, i) > i,
    decreases s.len() - i,
{
    if i < s.len() && !is_ws(s[i]) {
        lemma_tok_end_bounds(s, i + 1);
    }
}

/// Scanning over non-whitespace characters up to a stop (whitespace or the
/// end) finds exactly the token's end.
proof fn lemma_tok_end_exact(s: Seq<char>, i: int, k: int)
    requires
        0 <= i <= k <= s.len(),
        forall|m: int| i <= m < k ==> !is_ws(s[m]),
        k == s.len() || is_ws(s[k]),
    ensures
        tok_end(s, i) == k,
    decreases k - i,
{
    if i < k {
        lemma_tok_end_exact(s, i + 1, k);
    }
}

/// Split a string into its whitespace-separated tokens.
pub fn split_ws(s: &str) -> (r: Vec<String>)
    ensures
        r@.map_values(|t: String| t@) == spec_tokens(s@),
{
    let n = s.unicode_len();
    let mut out: Vec<String> = Vec::new();
    let mut i: usize = 0;
    proof {
        assert(s@.skip(0) =~= s@);
        assert(out@.map_values(|t: String| t@) =~= Seq::<Seq<char>>::empty());
    }
    while i < n
        invariant
            n == s@.len(),
            i <= n,
            spec_tokens(s@) == out@.map_values(|t: String| t@) + spec_tokens(s@.skip(i as int)),
        decreases n - i,
    {
        let c = s.get_char(i);
        if c == ' ' || c == '\t' || c == '\n' || c == '\r' {
            proof {
                assert(s@.skip(i as int).drop_first() =~= s@.skip(i + 1));
                assert(s@.skip(i as int)[0] == s@[i as int]);
            }
            i = i + 1;
        } else {
            let ghost rest = s@.skip(i as int);
            let mut token = String::new();
            let mut j: usize = i;
            while j < n
                invariant
                    n == s@.len(),
                    i <= j <= n,
                    token@ == s@.subrange(i as int, j as int),
                    forall|m: int| i <= m < j ==> !is_ws(s@[m]),
                ensures
                    i <= j <= n,
                    token@ == s@.subrange(i as int, j as int),
                    forall|m: int| i <= m < j ==> !is_ws(s@[m]),
                    j == n || is_ws(s@[j as int]),
                decreases n - j,
            {
                let cj = s.get_char(j);
                if cj == ' ' || cj == '\t' || cj == '\n' || cj == '\r' {
                    break ;
                }
                push_char(&mut token, cj);
                proof {
                    assert(token@ =~= s@.subrange(i as int, j + 1));
                }
                j = j + 1;
            }
            proof {
                assert forall|m: int| 0 <= m < j - i implies !is_ws(rest[m]) by {
                    assert(rest[m] == s@[i + m]);
                }
                if j < n {
                    assert(rest[j - i] == s@[j as int]);
                }
                lemma_tok_end_exact(rest, 0, j - i);
                assert(rest.subrange(0, j - i) =~= s@.subrange(i as int, j as int));
                assert(rest.skip(j - i) =~= s@.skip(j as int));
                assert(spec_tokens(rest) == seq![token@] + spec_tokens(s@.skip(j as int)));
            }
            let ghost out0 = out@;
            out.push(token);
            proof {
                assert(out@.map_values(|t: String| t@) =~= out0.map_values(|t: String| t@)
                    + seq![s@.subrange(i as int, j as int)]);
            }
            i = j;
        }
    }
    proof {
        assert(s@.skip(n as int) =~= Seq::<char>::empty());
        assert(out@.map_values(|t: String| t@) =~= spec_tokens(s@));
    }
    out
}

/// Every comma replaced by a space.
pub fn replace_commas(s: &str) -> (r: String)
    ensures
        r@ == s@.map_values(
            |c: char|
                if c == ',' {
                    ' '
                } else {
                    c
                },
        ),
{
    let n = s.unicode_len();
    let mut out = String::new();
    let mut i: usize = 0;
    while i < n
        invariant
            n == s@.len(),
            i <= n,
            out@ == s@.subrange(0, i as int).map_values(
                |c: char|
                    if c == ',' {
                        ' '
                    } else {
                        c
                    },
            ),
        decreases n - i,
    {
        let c = s.get_char(i);
        let mapped = if c == ',' {
            ' '
        } else {
            c
        };
        push_char(&mut out, mapped);
        proof {
            assert(s@.subrange(0, i + 1) =~= s@.subrange(0, i as int).push(s@[i as int]));
            assert(out@ =~= s@.subrange(0, i + 1).map_values(
                |c: char|
                    if c == ',' {
                        ' '
                    } else {
                        c
                    },
            ));
        }
        i = i + 1;
    }
    proof {
        assert(s@.subrange(0, n as int) =~= s@);
    }
    out
}

} // verus!
