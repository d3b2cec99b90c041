//! Tokenization: a token is a maximal run of alphanumeric characters in the
//! case-folded line. This module defines the tokens of a character sequence,
//! the executable tokenizer, and the containment equivalence the search
//! dispatcher relies on: an alphanumeric pattern occurs in a line exactly when
//! it occurs inside one of the line's tokens.

use vstd::prelude::*;
use vstd::string::StrSliceExecFns;
use vstd::string::StringExecFns;

use crate::text::contains_sub;
use crate::text::contains_sub_at;
use crate::text::is_alphanum;
use crate::text::lower_of;

verus! {

/// Length of the alphanumeric prefix of `s`.
pub open spec fn run_len(s: Seq<char>) -> int
    decreases s.len(),
{
    if s.len() == 0 || !is_alphanum(s[0]) {
        0
    } else {
        1 + run_len(s.drop_first())
    }
}

pub proof fn lemma_run_len(s: Seq<char>)
    ensures
        0 <= run_len(s) <= s.len(),
        forall|k: int| 0 <= k < run_len(s) ==> is_alphanum(s[k]),
        run_len(s) < s.len() ==> !is_alphanum(s[run_len(s)]),
    decreases s.len(),
{
    if s.len() > 0 && is_alphanum(s[0]) {
        lemma_run_len(s.drop_first());
        assert forall|k: int| 0 <= k < run_len(s) implies is_alphanum(s[k]) by {
            if k > 0 {
                assert(s[k] == s.drop_first()[k - 1]);
            }
        }
        if run_len(s) < s.len() {
            assert(s[run_len(s)] == s.drop_first()[run_len(s) - 1]);
        }
    }
}

/// `run_len` is determined by where the alphanumeric characters are.
pub proof fn lemma_run_len_is(s: Seq<char>, m: int)
    requires
        0 <= m <= s.len(),
        forall|k: int| 0 <= k < m ==> is_alphanum(s[k]),
        m < s.len() ==> !is_alphanum(s[m]),
    ensures
        run_len(s) == m,
    decreases s.len(),
{
    if s.len() == 0 {
    } else if !is_alphanum(s[0]) {
        assert(m == 0);
    } else {
        assert(m > 0);
        lemma_run_len_is(s.drop_first(), m - 1);
    }
}

/// The tokens of a character sequence: its maximal alphanumeric runs, in
/// order of appearance.
pub open spec fn tokens_of(s: Seq<char>) -> Seq<Seq<char>>
    decreases s.len(),
    via tokens_of_dec
{
    if s.len() == 0 {
        Seq::empty()
    } else if !is_alphanum(s[0]) {
        tokens_of(s.drop_first())
    } else {
        seq![s.take(run_len(s))] + tokens_of(s.skip(run_len(s)))
    }
}

#[via_fn]
proof fn tokens_of_dec(s: Seq<char>) {
    lemma_run_len(s);
}

/// Splits a line into tokens: the line is case-folded, then cut at every
/// non-alphanumeric character, empty segments discarded.
pub fn tokenize(line: &str) -> (r: Vec<String>)
    ensures
        r.deep_view() == tokens_of(lower_of(line@)),
{
    let lowered = line.to_lowercase();
    let low = lowered.as_str();
    let n = low.unicode_len();
    let mut out: Vec<String> = Vec::new();
    let mut i: usize = 0;
    proof {
        assert(out.deep_view() =~= Seq::<Seq<char>>::empty());
        assert(low@.skip(0) =~= low@);
    }
    while i < n
        invariant
            0 <= i <= n,
            n == low@.len(),
            low@ == lower_of(line@),
            tokens_of(low@) == out.deep_view() + tokens_of(low@.skip(i as int)),
        decreases n - i,
    {
        let ghost rest = low@.skip(i as int);
        if !low.get_char(i).is_alphanumeric() {
            proof {
                assert(rest[0] == low@[i as int]);
                assert(rest.drop_first() =~= low@.skip(i + 1));
            }
            i += 1;
        } else {
            let mut j: usize = i + 1;
            while j < n && low.get_char(j).is_alphanumeric()
                invariant
                    i < j <= n,
                    n == low@.len(),
                    forall|k: int| i <= k < j ==> is_alphanum(low@[k]),
                decreases n - j,
            {
                j += 1;
            }
            proof {
                assert forall|k: int| 0 <= k < j - i implies is_alphanum(rest[k]) by {
                    assert(rest[k] == low@[i + k]);
                }
                if j < n {
                    assert(rest[j - i] == low@[j as int]);
                }
                lemma_run_len_is(rest, j - i);
            }
            let tok = String::from_str(low.substring_char(i, j));
            let ghost pre = out.deep_view();
            out.push(tok);
            proof {
                assert(rest.take(j - i) =~= low@.subrange(i as int, j as int));
                assert(tok@ == rest.take(j - i));
                assert(out.deep_view() =~= pre.push(tok@));
                assert(rest.skip(j - i) =~= low@.skip(j as int));
                assert(tokens_of(rest) == seq![rest.take(j - i)] + tokens_of(rest.skip(j - i)));
                assert(pre + tokens_of(rest) =~= out.deep_view() + tokens_of(low@.skip(j as int)));
            }
            i = j;
        }
    }
    proof {
        assert(low@.skip(i as int).len() == 0);
        assert(out.deep_view() + tokens_of(low@.skip(i as int)) =~= out.deep_view());
    }
    out
}

// ---------------------------------------------------------------------------
// Characterization: the tokens of `s` are exactly its maximal alphanumeric
// runs.
// ---------------------------------------------------------------------------

/// `s[i..j]` is a maximal alphanumeric run.
pub open spec fn is_token_at(s: Seq<char>, i: int, j: int) -> bool {
    &&& 0 <= i < j <= s.len()
    &&& forall|k: int| i <= k < j ==> is_alphanum(s[k])
    &&& (i == 0 || !is_alphanum(s[i - 1]))
    &&& (j == s.len() || !is_alphanum(s[j]))
}

/// Every maximal alphanumeric run of `s` appears among its tokens.
pub proof fn lemma_tokens_complete(s: Seq<char>, i: int, j: int)
    requires
        is_token_at(s, i, j),
    ensures
        tokens_of(s).contains(s.subrange(i, j)),
    decreases s.len(),
{
    lemma_run_len(s);
    if !is_alphanum(s[0]) {
        assert(i >= 1);
        let d = s.drop_first();
        assert(is_token_at(d, i - 1, j - 1)) by {
            assert forall|k: int| i - 1 <= k < j - 1 implies is_alphanum(d[k]) by {
                assert(d[k] == s[k + 1]);
            }
            if i - 1 > 0 {
                assert(d[i - 2] == s[i - 1]);
            }
            if j - 1 < d.len() {
                assert(d[j - 1] == s[j]);
            }
        }
        lemma_tokens_complete(d, i - 1, j - 1);
        assert(d.subrange(i - 1, j - 1) =~= s.subrange(i, j));
    } else {
        let k = run_len(s);
        if i == 0 {
            // The token is the leading run itself.
            lemma_run_len_is(s, j);
            assert(s.take(k) =~= s.subrange(i, j));
            assert(tokens_of(s)[0] == s.take(k));
        } else {
            // The token lies beyond the leading run.
            assert(!is_alphanum(s[i - 1]));
            assert(i - 1 >= k) by {
                if i - 1 < k {
                    assert(is_alphanum(s[i - 1]));
                }
            }
            let r = s.skip(k);
            assert(is_token_at(r, i - k, j - k)) by {
                assert forall|m: int| i - k <= m < j - k implies is_alphanum(r[m]) by {
                    assert(r[m] == s[m + k]);
                }
                assert(r[i - k - 1] == s[i - 1]);
                if j - k < r.len() {
                    assert(r[j - k] == s[j]);
                }
            }
            lemma_tokens_complete(r, i - k, j - k);
            assert(r.subrange(i - k, j - k) =~= s.subrange(i, j));
            // Membership carries over from the tail of the concatenation.
            let t = s.subrange(i, j);
            let idx = choose|idx: int| 0 <= idx < tokens_of(r).len() && tokens_of(r)[idx] == t;
            assert(tokens_of(s)[idx + 1] == t);
        }
    }
}

/// Every token of `s` is one of its maximal alphanumeric runs.
pub proof fn lemma_tokens_sound(s: Seq<char>, t: Seq<char>)
    requires
        tokens_of(s).contains(t),
    ensures
        exists|i: int, j: int| is_token_at(s, i, j) && t == s.subrange(i, j),
    decreases s.len(),
{
    lemma_run_len(s);
    if s.len() == 0 {
    } else if !is_alphanum(s[0]) {
        let d = s.drop_first();
        lemma_tokens_sound(d, t);
        let (i, j) = choose|i: int, j: int| is_token_at(d, i, j) && t == d.subrange(i, j);
        assert(is_token_at(s, i + 1, j + 1)) by {
            assert forall|k: int| i + 1 <= k < j + 1 implies is_alphanum(s[k]) by {
                assert(s[k] == d[k - 1]);
            }
            if i + 1 > 1 {
                assert(s[i] == d[i - 1]);
            }
            if j + 1 < s.len() {
                assert(s[j + 1] == d[j]);
            }
        }
        assert(t =~= s.subrange(i + 1, j + 1));
    } else {
        let k = run_len(s);
        if t == s.take(k) {
            assert(is_token_at(s, 0, k));
            assert(t =~= s.subrange(0, k));
        } else {
            // `t` is not the leading run, so it comes from the tail.
            let r = s.skip(k);
            let idx = choose|idx: int| 0 <= idx < tokens_of(s).len() && tokens_of(s)[idx] == t;
            assert(idx >= 1);
            assert(tokens_of(r)[idx - 1] == t);
            assert(tokens_of(r).contains(t));
            lemma_tokens_sound(r, t);
            let (i, j) = choose|i: int, j: int| is_token_at(r, i, j) && t == r.subrange(i, j);
            assert(is_token_at(s, i + k, j + k)) by {
                assert forall|m: int| i + k <= m < j + k implies is_alphanum(s[m]) by {
                    assert(s[m] == r[m - k]);
                }
                if i + k > 0 {
                    if i == 0 {
                        assert(k < s.len());
                        assert(r[0] == s[k as int]);
                        assert(is_alphanum(r[0]));
                        assert(false);
                    } else {
                        assert(s[i + k - 1] == r[i - 1]);
                    }
                }
                if j + k < s.len() {
                    assert(s[j + k] == r[j]);
                }
            }
            assert(t =~= s.subrange(i + k, j + k));
        }
    }
}

// ---------------------------------------------------------------------------
// The run around an alphanumeric position.
// ---------------------------------------------------------------------------

/// Start of the alphanumeric run that reaches position `m`.
pub open spec fn run_start(s: Seq<char>, m: int) -> int
    decreases m,
{
    if m <= 0 {
        0
    } else if !is_alphanum(s[m - 1]) {
        m
    } else {
        run_start(s, m - 1)
    }
}

pub proof fn lemma_run_start(s: Seq<char>, m: int)
    requires
        0 <= m <= s.len(),
    ensures
        0 <= run_start(s, m) <= m,
        forall|k: int| run_start(s, m) <= k < m ==> is_alphanum(s[k]),
        run_start(s, m) == 0 || !is_alphanum(s[run_start(s, m) - 1]),
    decreases m,
{
    if m > 0 && is_alphanum(s[m - 1]) {
        lemma_run_start(s, m - 1);
    }
}

/// End of the alphanumeric run that starts at or after position `m`.
pub open spec fn run_end(s: Seq<char>, m: int) -> int
    decreases s.len() - m,
{
    if m < 0 || m >= s.len() || !is_alphanum(s[m]) {
        m
    } else {
        run_end(s, m + 1)
    }
}

pub proof fn lemma_run_end(s: Seq<char>, m: int)
    requires
        0 <= m <= s.len(),
    ensures
        m <= run_end(s, m) <= s.len(),
        forall|k: int| m <= k < run_end(s, m) ==> is_alphanum(s[k]),
        run_end(s, m) == s.len() || !is_alphanum(s[run_end(s, m)]),
    decreases s.len() - m,
{
    if m < s.len() && is_alphanum(s[m]) {
        lemma_run_end(s, m + 1);
    }
}

// ---------------------------------------------------------------------------
// The equivalence the dispatcher's index strategy rests on.
// ---------------------------------------------------------------------------

/// A nonempty all-alphanumeric pattern occurs in `s` exactly when it occurs
/// inside one of the tokens of `s`.
pub proof fn lemma_token_substring_equiv(s: Seq<char>, p: Seq<char>)
    requires
        p.len() > 0,
        forall|k: int| 0 <= k < p.len() ==> is_alphanum(p[k]),
    ensures
        contains_sub(s, p) <==> exists|t: Seq<char>| tokens_of(s).contains(t) && contains_sub(t, p),
{
    if contains_sub(s, p) {
        let m = choose|m: int| contains_sub_at(s, p, m);
        assert forall|k: int| m <= k < m + p.len() implies is_alphanum(s[k]) by {
            assert(s.subrange(m, m + p.len() as int)[k - m] == s[k]);
            assert(is_alphanum(p[k - m]));
        }
        lemma_run_start(s, m);
        lemma_run_end(s, m);
        let l = run_start(s, m);
        let r = run_end(s, m);
        assert(r >= m + p.len()) by {
            if r < m + p.len() {
                assert(is_alphanum(s[r]));
            }
        }
        assert(is_token_at(s, l, r)) by {
            assert(is_alphanum(s[m]));
        }
        lemma_tokens_complete(s, l, r);
        let t = s.subrange(l, r);
        assert(contains_sub_at(t, p, m - l)) by {
            assert(t.subrange(m - l, m - l + p.len() as int) =~= s.subrange(m, m + p.len() as int));
        }
        assert(tokens_of(s).contains(t) && contains_sub(t, p));
    }
    if exists|t: Seq<char>| tokens_of(s).contains(t) && contains_sub(t, p) {
        let t = choose|t: Seq<char>| tokens_of(s).contains(t) && contains_sub(t, p);
        lemma_tokens_sound(s, t);
        let (i, j) = choose|i: int, j: int| is_token_at(s, i, j) && t == s.subrange(i, j);
        let m = choose|m: int| contains_sub_at(t, p, m);
        assert(contains_sub_at(s, p, i + m)) by {
            assert(s.subrange(i + m, i + m + p.len() as int) =~= t.subrange(m, m + p.len() as int));
        }
    }
}

} // verus!
