//! Character scanning: first/last occurrence of a character class,
//! whitespace trimming, and whitespace tokenization, with the executable
//! scanners proved equal to the specification-level definitions.

use vstd::prelude::*;

verus! {

pub open spec fn is_ws(c: char) -> bool {
    c == ' ' || c == '\t' || c == '\r' || c == '\n'
}

/// Index of the first character satisfying `p`, or `s.len()` if none does.
pub open spec fn first_where(s: Seq<char>, p: spec_fn(char) -> bool) -> int
    decreases s.len(),
{
    if s.len() == 0 {
        0
    } else if p(s[0]) {
        0
    } else {
        1 + first_where(s.drop_first(), p)
    }
}

/// Index of the last character satisfying `p`, or `-1` if none does.
pub open spec fn last_where(s: Seq<char>, p: spec_fn(char) -> bool) -> int
    decreases s.len(),
{
    if s.len() == 0 {
        -1
    } else if p(s.last()) {
        s.len() - 1
    } else {
        last_where(s.drop_last(), p)
    }
}

pub open spec fn ws_p() -> spec_fn(char) -> bool {
    |c: char| is_ws(c)
}

pub open spec fn non_ws_p() -> spec_fn(char) -> bool {
    |c: char| !is_ws(c)
}

pub open spec fn comma_p() -> spec_fn(char) -> bool {
    |c: char| c == ','
}

pub open spec fn dot_p() -> spec_fn(char) -> bool {
    |c: char| c == '.'
}

pub proof fn lemma_first_where_bounds(s: Seq<char>, p: spec_fn(char) -> bool)
    ensures
        0 <= first_where(s, p) <= s.len(),
        first_where(s, p) < s.len() ==> p(s[first_where(s, p)]),
        forall|k: int| 0 <= k < first_where(s, p) ==> !p(s[k]),
    decreases s.len(),
{
    if s.len() > 0 && !p(s[0]) {
        lemma_first_where_bounds(s.drop_first(), p);
        assert forall|k: int| 0 <= k < first_where(s, p) implies !p(s[k]) by {
            if k > 0 {
                assert(s.drop_first()[k - 1] == s[k]);
            }
        }
        if first_where(s, p) < s.len() {
            assert(s.drop_first()[first_where(s, p) - 1] == s[first_where(s, p)]);
        }
    }
}

/// The first index at which `p` holds, with nothing satisfying `p` before
/// it, is exactly `first_where`.
pub proof fn lemma_first_where_is(s: Seq<char>, p: spec_fn(char) -> bool, i: int)
    requires
        0 <= i <= s.len(),
        forall|k: int| 0 <= k < i ==> !p(#[trigger] s[k]),
        i < s.len() ==> p(s[i]),
    ensures
        first_where(s, p) == i,
{
    lemma_first_where_bounds(s, p);
    let f = first_where(s, p);
    if f < i {
        assert(!p(s[f]));
    }
    if f > i {
        assert(!p(s[i]));
    }
}

pub proof fn lemma_last_where_is(s: Seq<char>, p: spec_fn(char) -> bool, j: int)
    requires
        -1 <= j < s.len(),
        j >= 0 ==> p(s[j]),
        forall|k: int| j < k < s.len() ==> !p(#[trigger] s[k]),
    ensures
        last_where(s, p) == j,
    decreases s.len(),
{
    if s.len() > 0 {
        if p(s.last()) {
            assert(j == s.len() - 1);
        } else {
            assert(j < s.len() - 1);
            lemma_last_where_is(s.drop_last(), p, j);
            assert forall|k: int| 0 <= k < s.drop_last().len() implies s.drop_last()[k] == s[k] by {}
        }
    }
}

/// `s` with all leading and trailing whitespace removed.
pub open spec fn trimmed(s: Seq<char>) -> Seq<char> {
    let a = first_where(s, non_ws_p());
    if a == s.len() {
        Seq::empty()
    } else {
        s.subrange(a, last_where(s, non_ws_p()) + 1)
    }
}

/// A string without whitespace trims to itself.
pub proof fn lemma_trimmed_id(s: Seq<char>)
    requires
        forall|k: int| 0 <= k < s.len() ==> !is_ws(#[trigger] s[k]),
    ensures
        trimmed(s) == s,
{
    lemma_first_where_is(s, non_ws_p(), 0);
    if s.len() == 0 {
        assert(trimmed(s) =~= s);
    } else {
        lemma_last_where_is(s, non_ws_p(), s.len() - 1);
        assert(trimmed(s) =~= s);
    }
}

/// The whitespace-separated tokens of `s`, in order; each token is a
/// maximal nonempty run of non-whitespace characters.
pub open spec fn tokens_of(s: Seq<char>) -> Seq<Seq<char>>
    decreases s.len(),
    via tokens_of_decreases
{
    let a = first_where(s, non_ws_p());
    if a >= s.len() {
        Seq::empty()
    } else {
        let rest = s.subrange(a, s.len() as int);
        let t = first_where(rest, ws_p());
        seq![rest.subrange(0, t)] + tokens_of(rest.subrange(t, rest.len() as int))
    }
}

#[via_fn]
proof fn tokens_of_decreases(s: Seq<char>) {
    lemma_first_where_bounds(s, non_ws_p());
    let a = first_where(s, non_ws_p());
    if a < s.len() {
        let rest = s.subrange(a, s.len() as int);
        lemma_first_where_bounds(rest, ws_p());
        assert(!is_ws(rest[0]));
        assert(first_where(rest, ws_p()) >= 1);
    }
}

/// Splits a string into its whitespace-separated tokens.
pub fn tokenize(s: &str) -> (toks: Vec<String>)
    ensures
        toks@.map_values(|t: String| t@) == tokens_of(s@),
{
    let n = s.unicode_len();
    let mut toks: Vec<String> = Vec::new();
    let mut pos: usize = 0;
    proof {
        assert(s@.subrange(0, n as int) =~= s@);
        assert(toks@.map_values(|t: String| t@) =~= Seq::<Seq<char>>::empty());
    }
    while pos < n
        invariant
            0 <= pos <= n == s@.len(),
            tokens_of(s@) =~= toks@.map_values(|t: String| t@) + tokens_of(
                s@.subrange(pos as int, n as int),
            ),
        decreases n - pos,
    {
        // skip whitespace up to the next token (or the end)
        let mut a: usize = pos;
        while a < n && is_ws_char(s.get_char(a))
            invariant
                pos <= a <= n == s@.len(),
                forall|k: int| pos <= k < a ==> is_ws(#[trigger] s@[k]),
            decreases n - a,
        {
            a = a + 1;
        }
        let ghost rem = s@.subrange(pos as int, n as int);
        proof {
            assert forall|k: int| 0 <= k < a - pos implies !(non_ws_p())(rem[k]) by {
                assert(rem[k] == s@[pos + k]);
            }
            if a < n {
                assert(rem[a - pos] == s@[a as int]);
            }
            lemma_first_where_is(rem, non_ws_p(), a - pos);
        }
        if a == n {
            proof {
                assert(tokens_of(rem) =~= Seq::<Seq<char>>::empty());
            }
            pos = n;
        } else {
            // scan to the end of the token
            let mut b: usize = a;
            while b < n && !is_ws_char(s.get_char(b))
                invariant
                    a <= b <= n == s@.len(),
                    forall|k: int| a <= k < b ==> !is_ws(#[trigger] s@[k]),
                decreases n - b,
            {
                b = b + 1;
            }
            let ghost rest = rem.subrange(a - pos, rem.len() as int);
            proof {
                assert(rest =~= s@.subrange(a as int, n as int));
                assert forall|k: int| 0 <= k < b - a implies !(ws_p())(rest[k]) by {
                    assert(rest[k] == s@[a + k]);
                }
                if b < n {
                    assert(rest[b - a] == s@[b as int]);
                }
                lemma_first_where_is(rest, ws_p(), b - a);
            }
            let tok: String = s.substring_char(a, b).to_owned();
            toks.push(tok);
            proof {
                assert(tok@ =~= rest.subrange(0, b - a));
                assert(rest.subrange(b - a, rest.len() as int) =~= s@.subrange(
                    b as int,
                    n as int,
                ));
                assert(tokens_of(rem) =~= seq![tok@] + tokens_of(s@.subrange(b as int, n as int)));
                assert(toks@.map_values(|t: String| t@) =~= toks@.map_values(
                    |t: String| t@,
                ).drop_last() + seq![tok@]);
            }
            pos = b;
        }
    }
    proof {
        assert(tokens_of(s@.subrange(n as int, n as int)) =~= Seq::<Seq<char>>::empty());
        assert(toks@.map_values(|t: String| t@) =~= tokens_of(s@));
    }
    toks
}

/// Executable test for the whitespace class of `is_ws`.
pub fn is_ws_char(c: char) -> (r: bool)
    ensures
        r == is_ws(c),
{
    c == ' ' || c == '\t' || c == '\r' || c == '\n'
}

/// Character-for-character string equality.
pub fn str_eq(a: &str, b: &str) -> (r: bool)
    ensures
        r == (a@ == b@),
{
    let n = a.unicode_len();
    if n != b.unicode_len() {
        return false;
    }
    let mut i: usize = 0;
    while i < n
        invariant
            0 <= i <= n == a@.len(),
            n == b@.len(),
            forall|k: int| 0 <= k < i ==> a@[k] == b@[k],
        decreases n - i,
    {
        if a.get_char(i) != b.get_char(i) {
            return false;
        }
        i = i + 1;
    }
    proof {
        assert(a@ =~= b@);
    }
    true
}

/// Whether `s` begins with the characters of `p`.
pub open spec fn spec_has_prefix(s: Seq<char>, p: Seq<char>) -> bool {
    p.len() <= s.len() && s.subrange(0, p.len() as int) == p
}

pub fn has_prefix(s: &str, p: &str) -> (r: bool)
    ensures
        r == spec_has_prefix(s@, p@),
{
    let m = p.unicode_len();
    if m > s.unicode_len() {
        return false;
    }
    let mut i: usize = 0;
    while i < m
        invariant
            0 <= i <= m == p@.len(),
            m <= s@.len(),
            forall|k: int| 0 <= k < i ==> s@[k] == p@[k],
        decreases m - i,
    {
        if s.get_char(i) != p.get_char(i) {
            proof {
                assert(s@.subrange(0, m as int)[i as int] != p@[i as int]);
            }
            return false;
        }
        i = i + 1;
    }
    proof {
        assert(s@.subrange(0, m as int) =~= p@);
    }
    true
}

} // verus!
