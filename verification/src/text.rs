//! Character-sequence specifications and verified executable helpers for the
//! string processing the library does: substring containment, lexicographic
//! order on paths, splitting raw text into lines, and decimal formatting.

use vstd::prelude::*;
use vstd::string::StrSliceExecFns;
use vstd::string::StringExecFns;

verus! {

// ---------------------------------------------------------------------------
// Trusted items: case folding and the alphanumeric test.
// ---------------------------------------------------------------------------

/// The case-folded form of a character sequence, as `str::to_lowercase`
/// computes it. The result depends on the characters alone.
pub uninterp spec fn lower_of(s: Seq<char>) -> Seq<char>;

/// Relies on `str::to_lowercase`: returns the lowercase equivalent of the
/// string; the result is empty exactly when the input is.
pub assume_specification[ str::to_lowercase ](s: &str) -> (r: String)
    ensures
        r@ == lower_of(s@),
        (s@.len() == 0) == (r@.len() == 0),
;

/// Whether a character is alphanumeric, as `char::is_alphanumeric` decides it.
pub uninterp spec fn is_alphanum(c: char) -> bool;

/// Relies on `char::is_alphanumeric`: the Unicode alphanumeric test, a pure
/// function of the character.
pub assume_specification[ char::is_alphanumeric ](c: char) -> (r: bool)
    ensures
        r == is_alphanum(c),
;

// ---------------------------------------------------------------------------
// Substring containment.
// ---------------------------------------------------------------------------

/// `p` occurs in `s` starting at index `i`.
pub open spec fn contains_sub_at(s: Seq<char>, p: Seq<char>, i: int) -> bool {
    0 <= i && i + p.len() <= s.len() && s.subrange(i, i + p.len() as int) == p
}

/// `p` occurs somewhere in `s` as a contiguous subsequence.
pub open spec fn contains_sub(s: Seq<char>, p: Seq<char>) -> bool {
    exists|i: int| contains_sub_at(s, p, i)
}

/// Two characters with the same scalar value are the same character.
pub proof fn lemma_char_eq(a: char, b: char)
    requires
        a as u32 == b as u32,
    ensures
        a == b,
{
    vstd::utf8::char_u32_cast(a, a as u32);
    vstd::utf8::char_u32_cast(b, b as u32);
}

/// Compares the characters of `s` at offset `i` against all of `p`.
fn match_at(s: &str, p: &str, i: usize) -> (r: bool)
    requires
        i + p@.len() <= s@.len(),
        i + p@.len() <= usize::MAX,
    ensures
        r == contains_sub_at(s@, p@, i as int),
{
    let pn = p.unicode_len();
    let mut j: usize = 0;
    while j < pn
        invariant
            0 <= j <= pn,
            pn == p@.len(),
            i + pn <= s@.len(),
            i + pn <= usize::MAX,
            forall|k: int| 0 <= k < j ==> s@[i + k] == p@[k],
        decreases pn - j,
    {
        if s.get_char(i + j) != p.get_char(j) {
            assert(s@.subrange(i as int, i + pn as int)[j as int] != p@[j as int]);
            return false;
        }
        j += 1;
    }
    assert(s@.subrange(i as int, i + pn as int) =~= p@);
    true
}

/// Case-sensitive substring search over character sequences.
pub fn str_contains(s: &str, p: &str) -> (r: bool)
    ensures
        r == contains_sub(s@, p@),
{
    let sn = s.unicode_len();
    let pn = p.unicode_len();
    if pn > sn {
        assert(forall|i: int| !contains_sub_at(s@, p@, i));
        return false;
    }
    if pn == 0 {
        assert(s@.subrange(0, 0) =~= p@);
        assert(contains_sub_at(s@, p@, 0));
        return true;
    }
    let mut i: usize = 0;
    while i <= sn - pn
        invariant
            0 <= i <= sn - pn + 1,
            1 <= pn <= sn,
            sn == s@.len(),
            pn == p@.len(),
            forall|k: int| 0 <= k < i ==> !contains_sub_at(s@, p@, k),
        decreases sn + 1 - pn - i,
    {
        if match_at(s, p, i) {
            return true;
        }
        i += 1;
    }
    assert(forall|k: int| k >= i ==> !contains_sub_at(s@, p@, k));
    false
}

// ---------------------------------------------------------------------------
// Lexicographic order on character sequences (code-point order, which for
// valid text agrees with the byte order `str` comparison uses).
// ---------------------------------------------------------------------------

pub open spec fn seq_lt(a: Seq<char>, b: Seq<char>) -> bool
    decreases a.len(),
{
    if b.len() == 0 {
        false
    } else if a.len() == 0 {
        true
    } else if (a[0] as u32) < (b[0] as u32) {
        true
    } else if (a[0] as u32) > (b[0] as u32) {
        false
    } else {
        seq_lt(a.drop_first(), b.drop_first())
    }
}

/// The order is total: any two sequences compare.
pub proof fn lemma_seq_lt_total(a: Seq<char>, b: Seq<char>)
    ensures
        seq_lt(a, b) || seq_lt(b, a) || a == b,
    decreases a.len(),
{
    if b.len() == 0 {
        if a.len() == 0 {
            assert(a =~= b);
        }
    } else if a.len() == 0 {
    } else if (a[0] as u32) < (b[0] as u32) || (a[0] as u32) > (b[0] as u32) {
    } else {
        lemma_seq_lt_total(a.drop_first(), b.drop_first());
        if a.drop_first() == b.drop_first() {
            lemma_char_eq(a[0], b[0]);
            assert(a.len() == b.len()) by {
                assert(a.drop_first().len() == a.len() - 1);
                assert(b.drop_first().len() == b.len() - 1);
            }
            assert(a =~= b) by {
                assert forall|i: int| 0 <= i < a.len() implies a[i] == b[i] by {
                    if i > 0 {
                        assert(a[i] == a.drop_first()[i - 1]);
                        assert(b[i] == b.drop_first()[i - 1]);
                    }
                }
            }
        }
    }
}

/// The order is irreflexive.
pub proof fn lemma_seq_lt_irrefl(a: Seq<char>)
    ensures
        !seq_lt(a, a),
    decreases a.len(),
{
    if a.len() > 0 {
        lemma_seq_lt_irrefl(a.drop_first());
    }
}

/// The order is asymmetric.
pub proof fn lemma_seq_lt_asym(a: Seq<char>, b: Seq<char>)
    ensures
        !(seq_lt(a, b) && seq_lt(b, a)),
    decreases a.len(),
{
    if a.len() > 0 && b.len() > 0 && (a[0] as u32) == (b[0] as u32) {
        lemma_seq_lt_asym(a.drop_first(), b.drop_first());
    }
}

/// The order is transitive.
pub proof fn lemma_seq_lt_trans(a: Seq<char>, b: Seq<char>, c: Seq<char>)
    requires
        seq_lt(a, b),
        seq_lt(b, c),
    ensures
        seq_lt(a, c),
    decreases a.len(),
{
    if a.len() > 0 && b.len() > 0 && c.len() > 0 && (a[0] as u32) == (b[0] as u32) && (b[0] as u32)
        == (c[0] as u32) {
        lemma_seq_lt_trans(a.drop_first(), b.drop_first(), c.drop_first());
    }
}

/// Equal prefixes do not decide the order: it is settled by the suffixes.
pub proof fn lemma_seq_lt_common_prefix(a: Seq<char>, b: Seq<char>, k: int)
    requires
        0 <= k <= a.len(),
        k <= b.len(),
        a.subrange(0, k) == b.subrange(0, k),
    ensures
        seq_lt(a, b) == seq_lt(a.skip(k), b.skip(k)),
    decreases k,
{
    if k == 0 {
        assert(a.skip(0) =~= a);
        assert(b.skip(0) =~= b);
    } else {
        assert(a.subrange(0, k)[0] == a[0]);
        assert(b.subrange(0, k)[0] == b[0]);
        assert(a[0] == b[0]);
        assert(a.drop_first().subrange(0, k - 1) =~= b.drop_first().subrange(0, k - 1)) by {
            assert forall|j: int| 0 <= j < k - 1 implies #[trigger] a.drop_first().subrange(
                0,
                k - 1,
            )[j] == b.drop_first().subrange(0, k - 1)[j] by {
                assert(a.drop_first().subrange(0, k - 1)[j] == a[j + 1]);
                assert(b.drop_first().subrange(0, k - 1)[j] == b[j + 1]);
                assert(a.subrange(0, k)[j + 1] == a[j + 1]);
                assert(b.subrange(0, k)[j + 1] == b[j + 1]);
                assert(a.subrange(0, k)[j + 1] == b.subrange(0, k)[j + 1]);
            }
        }
        lemma_seq_lt_common_prefix(a.drop_first(), b.drop_first(), k - 1);
        assert(a.drop_first().skip(k - 1) =~= a.skip(k));
        assert(b.drop_first().skip(k - 1) =~= b.skip(k));
    }
}

/// Executable lexicographic comparison of two strings.
pub fn str_lt(a: &str, b: &str) -> (r: bool)
    ensures
        r == seq_lt(a@, b@),
{
    let an = a.unicode_len();
    let bn = b.unicode_len();
    let mut i: usize = 0;
    loop
        invariant
            0 <= i <= an,
            i <= bn,
            an == a@.len(),
            bn == b@.len(),
            a@.subrange(0, i as int) =~= b@.subrange(0, i as int),
        decreases an - i,
    {
        proof {
            lemma_seq_lt_common_prefix(a@, b@, i as int);
        }
        if i >= an {
            // a is exhausted: a < b exactly when b has more characters.
            assert(a@.skip(i as int).len() == 0);
            return i < bn;
        }
        if i >= bn {
            assert(b@.skip(i as int).len() == 0);
            return false;
        }
        let ca = a.get_char(i);
        let cb = b.get_char(i);
        if ca as u32 != cb as u32 {
            assert(a@.skip(i as int)[0] == ca);
            assert(b@.skip(i as int)[0] == cb);
            return (ca as u32) < (cb as u32);
        }
        assert(a@.subrange(0, i + 1) =~= b@.subrange(0, i + 1)) by {
            assert(forall|j: int|
                0 <= j < i ==> a@.subrange(0, i + 1)[j] == a@.subrange(0, i as int)[j]);
            assert(forall|j: int|
                0 <= j < i ==> b@.subrange(0, i + 1)[j] == b@.subrange(0, i as int)[j]);
            assert(a@[i as int] as u32 == b@[i as int] as u32);
        }
        i += 1;
    }
}

/// Whether `p` is a prefix of `s`.
pub fn str_is_prefix(s: &str, p: &str) -> (r: bool)
    ensures
        r == p@.is_prefix_of(s@),
{
    let sn = s.unicode_len();
    let pn = p.unicode_len();
    if pn > sn {
        return false;
    }
    let r = match_at(s, p, 0);
    proof {
        if r {
            assert(p@ =~= s@.subrange(0, p@.len() as int));
        } else {
            if p@.is_prefix_of(s@) {
                assert(s@.subrange(0, p@.len() as int) == p@);
            }
        }
    }
    r
}

// ---------------------------------------------------------------------------
// Sorted string lists.
// ---------------------------------------------------------------------------

/// Strictly ascending in lexicographic order (so also free of duplicates).
pub open spec fn strs_sorted(s: Seq<Seq<char>>) -> bool {
    forall|i: int, j: int| 0 <= i < j < s.len() ==> seq_lt(s[i], s[j])
}

/// Two strictly sorted string lists with the same members are equal.
pub proof fn lemma_sorted_strs_unique(a: Seq<Seq<char>>, b: Seq<Seq<char>>)
    requires
        strs_sorted(a),
        strs_sorted(b),
        forall|q: Seq<char>| a.contains(q) == b.contains(q),
    ensures
        a == b,
    decreases a.len(),
{
    if a.len() == 0 {
        if b.len() > 0 {
            assert(a.contains(b[0]));
        }
        assert(a =~= b);
    } else {
        assert(b.contains(a[0]));
        assert(a.contains(b[0]));
        let ka = choose|k: int| 0 <= k < b.len() && b[k] == a[0];
        let kb = choose|k: int| 0 <= k < a.len() && a[k] == b[0];
        assert(a[0] == b[0]) by {
            if ka > 0 {
                assert(seq_lt(b[0], a[0]));
            }
            if kb > 0 {
                assert(seq_lt(a[0], b[0]));
            }
            lemma_seq_lt_asym(a[0], b[0]);
        }
        let at = a.drop_first();
        let bt = b.drop_first();
        assert forall|q: Seq<char>| at.contains(q) == bt.contains(q) by {
            lemma_strs_tail_membership(a, q);
            lemma_strs_tail_membership(b, q);
        }
        lemma_sorted_strs_unique(at, bt);
        assert(a =~= b) by {
            assert forall|i: int| 0 <= i < a.len() implies a[i] == b[i] by {
                if i > 0 {
                    assert(a[i] == at[i - 1]);
                    assert(b[i] == bt[i - 1]);
                }
            }
        }
    }
}

/// In a strictly sorted string list, the tail holds exactly the members
/// other than the head.
proof fn lemma_strs_tail_membership(a: Seq<Seq<char>>, q: Seq<char>)
    requires
        strs_sorted(a),
        a.len() > 0,
    ensures
        a.drop_first().contains(q) == (a.contains(q) && q != a[0]),
{
    let at = a.drop_first();
    if at.contains(q) {
        let k = choose|k: int| 0 <= k < at.len() && at[k] == q;
        assert(a[k + 1] == q);
        assert(seq_lt(a[0], a[k + 1]));
        lemma_seq_lt_asym(a[0], q);
        lemma_seq_lt_irrefl(a[0]);
        assert(a.contains(q));
    }
    if a.contains(q) && q != a[0] {
        let k = choose|k: int| 0 <= k < a.len() && a[k] == q;
        assert(k > 0);
        assert(at[k - 1] == q);
        assert(at.contains(q));
    }
}

/// Inserts `s` into a strictly sorted string list, keeping it sorted and
/// ignoring the insertion when the string is already present.
pub fn sorted_insert_string(v: &mut Vec<String>, s: &str)
    requires
        strs_sorted(old(v).deep_view()),
    ensures
        strs_sorted(final(v).deep_view()),
        forall|q: Seq<char>|
            final(v).deep_view().contains(q) == (old(v).deep_view().contains(q) || q == s@),
{
    let mut i: usize = 0;
    while i < v.len() && str_lt(v[i].as_str(), s)
        invariant
            0 <= i <= v@.len(),
            strs_sorted(v.deep_view()),
            forall|k: int| 0 <= k < i ==> seq_lt(v.deep_view()[k], s@),
        decreases v@.len() - i,
    {
        proof {
            assert(v.deep_view()[i as int] == v@[i as int]@);
        }
        i += 1;
    }
    proof {
        if i < v@.len() {
            assert(!seq_lt(v.deep_view()[i as int], s@));
        }
    }
    if i < v.len() && str_eq(v[i].as_str(), s) {
        proof {
            assert(v.deep_view()[i as int] == s@);
            assert(v.deep_view().contains(s@));
        }
        return ;
    }
    proof {
        if i < v@.len() {
            assert(v.deep_view()[i as int] != s@);
            lemma_seq_lt_total(v.deep_view()[i as int], s@);
            assert(seq_lt(s@, v.deep_view()[i as int]));
        }
    }
    let ghost pre = v.deep_view();
    v.insert(i, s.to_owned());
    proof {
        let post = v.deep_view();
        assert(post =~= pre.insert(i as int, s@)) by {
            assert forall|k: int| 0 <= k < post.len() implies post[k] == pre.insert(i as int, s@)[k]
            by {
                if k < i {
                    assert(v@[k] == old(v)@[k]);
                } else if k > i {
                    assert(v@[k] == old(v)@[k - 1]);
                }
            }
        }
        pre.insert_ensures(i as int, s@);
        assert(strs_sorted(post)) by {
            assert forall|x: int, y: int| 0 <= x < y < post.len() implies seq_lt(post[x], post[y])
            by {
                let px = if x < i {
                    pre[x]
                } else if x == i {
                    s@
                } else {
                    pre[x - 1]
                };
                let py = if y < i {
                    pre[y]
                } else if y == i {
                    s@
                } else {
                    pre[y - 1]
                };
                assert(post[x] == px);
                assert(post[y] == py);
                if x < i && y == i {
                } else if x == i && y > i {
                    if y - 1 > i {
                        lemma_seq_lt_trans(s@, pre[i as int], pre[y - 1]);
                    }
                } else if x < i && y > i {
                    if y - 1 > i {
                        lemma_seq_lt_trans(s@, pre[i as int], pre[y - 1]);
                    }
                    lemma_seq_lt_trans(pre[x], s@, py);
                }
            }
        }
        assert forall|q: Seq<char>| post.contains(q) == (pre.contains(q) || q == s@) by {
            if pre.contains(q) {
                let k = choose|k: int| 0 <= k < pre.len() && pre[k] == q;
                if k < i {
                    assert(post[k] == q);
                } else {
                    assert(post[k + 1] == q);
                }
                assert(post.contains(q));
            }
            if q == s@ {
                assert(post[i as int] == q);
                assert(post.contains(q));
            }
            if post.contains(q) && q != s@ {
                let k = choose|k: int| 0 <= k < post.len() && post[k] == q;
                if k < i {
                    assert(pre[k] == q);
                } else {
                    assert(k > i);
                    assert(pre[k - 1] == q);
                }
                assert(pre.contains(q));
            }
        }
    }
}

// ---------------------------------------------------------------------------
// Splitting raw text into lines. A line ends at `\n` or `\r\n`; a final line
// ending produces no extra empty line.
// ---------------------------------------------------------------------------

/// Removes one trailing carriage return, left behind when a line ended `\r\n`.
pub open spec fn strip_cr(p: Seq<char>) -> Seq<char> {
    if p.len() > 0 && p.last() == '\r' {
        p.drop_last()
    } else {
        p
    }
}

/// Index of the first occurrence of `c` in `s`, or `s.len()` if there is
/// none.
pub open spec fn first_at(s: Seq<char>, c: char) -> int
    decreases s.len(),
{
    if s.len() == 0 {
        0
    } else if s[0] == c {
        0
    } else {
        1 + first_at(s.drop_first(), c)
    }
}

pub proof fn lemma_first_at(s: Seq<char>, c: char)
    ensures
        0 <= first_at(s, c) <= s.len(),
        forall|j: int| 0 <= j < first_at(s, c) ==> s[j] != c,
        first_at(s, c) < s.len() ==> s[first_at(s, c)] == c,
    decreases s.len(),
{
    if s.len() > 0 && s[0] != c {
        lemma_first_at(s.drop_first(), c);
        assert forall|j: int| 0 <= j < first_at(s, c) implies s[j] != c by {
            if j > 0 {
                assert(s[j] == s.drop_first()[j - 1]);
            }
        }
    }
}

/// `first_at` is determined by where the occurrences are.
pub proof fn lemma_first_at_is(s: Seq<char>, c: char, m: int)
    requires
        0 <= m <= s.len(),
        forall|j: int| 0 <= j < m ==> s[j] != c,
        m < s.len() ==> s[m] == c,
    ensures
        first_at(s, c) == m,
    decreases s.len(),
{
    if s.len() == 0 {
    } else if s[0] == c {
        assert(m == 0);
    } else {
        assert(m > 0);
        lemma_first_at_is(s.drop_first(), c, m - 1);
    }
}

/// Index of the first newline in `s`, or `s.len()` if there is none.
pub open spec fn first_nl(s: Seq<char>) -> int {
    first_at(s, '\n')
}

/// The lines of a raw text, in order.
pub open spec fn lines_of(s: Seq<char>) -> Seq<Seq<char>>
    decreases s.len(),
    via lines_of_dec
{
    if s.len() == 0 {
        Seq::empty()
    } else {
        let k = first_nl(s);
        if k == s.len() {
            seq![s]
        } else {
            seq![strip_cr(s.take(k))] + lines_of(s.skip(k + 1))
        }
    }
}

#[via_fn]
proof fn lines_of_dec(s: Seq<char>) {
    lemma_first_at(s, '\n');
}

/// Splits raw text into its lines, as `lines_of` describes them.
pub fn split_lines(s: &str) -> (r: Vec<String>)
    ensures
        r.deep_view() == lines_of(s@),
{
    let n = s.unicode_len();
    let mut out: Vec<String> = Vec::new();
    let mut i: usize = 0;
    proof {
        assert(out.deep_view() =~= Seq::<Seq<char>>::empty());
        assert(s@.skip(0) =~= s@);
    }
    while i < n
        invariant
            0 <= i <= n,
            n == s@.len(),
            lines_of(s@) == out.deep_view() + lines_of(s@.skip(i as int)),
        decreases n - i,
    {
        let ghost rest = s@.skip(i as int);
        // Find the next newline at or after `i`.
        let mut j: usize = i;
        while j < n && s.get_char(j) != '\n'
            invariant
                i <= j <= n,
                n == s@.len(),
                forall|k: int| i <= k < j ==> s@[k] != '\n',
            decreases n - j,
        {
            j += 1;
        }
        proof {
            assert forall|k: int| 0 <= k < j - i implies rest[k] != '\n' by {
                assert(rest[k] == s@[i + k]);
            }
            if j < n {
                assert(rest[j - i] == s@[j as int]);
            }
            lemma_first_at_is(rest, '\n', j - i);
        }
        if j < n {
            // The line ends at the newline; drop one carriage return before it.
            let end = if j > i && s.get_char(j - 1) == '\r' {
                j - 1
            } else {
                j
            };
            let piece = String::from_str(s.substring_char(i, end));
            proof {
                assert(rest.take(j - i) =~= s@.subrange(i as int, j as int));
                if j > i && s@[j - 1] == '\r' {
                    assert(strip_cr(rest.take(j - i)) =~= s@.subrange(i as int, j - 1));
                } else {
                    assert(strip_cr(rest.take(j - i)) =~= s@.subrange(i as int, j as int));
                }
                assert(piece@ == strip_cr(rest.take(j - i)));
            }
            let ghost pre = out.deep_view();
            out.push(piece);
            proof {
                assert(out.deep_view() =~= pre.push(piece@));
                assert(rest.skip(j - i + 1) =~= s@.skip(j + 1));
                assert(lines_of(rest) == seq![strip_cr(rest.take(j - i))] + lines_of(
                    rest.skip(j - i + 1),
                ));
                assert(pre + lines_of(rest) =~= out.deep_view() + lines_of(s@.skip(j + 1)));
            }
            i = j + 1;
        } else {
            // No further newline: the remainder is the last line.
            let piece = String::from_str(s.substring_char(i, n));
            proof {
                assert(piece@ =~= rest);
                assert(lines_of(rest) == seq![rest]);
            }
            let ghost pre = out.deep_view();
            out.push(piece);
            proof {
                assert(out.deep_view() =~= pre.push(piece@));
                assert(s@.skip(n as int).len() == 0);
                assert(pre + lines_of(rest) =~= out.deep_view() + lines_of(s@.skip(n as int)));
            }
            i = n;
        }
    }
    proof {
        assert(s@.skip(i as int).len() == 0);
        assert(out.deep_view() + lines_of(s@.skip(i as int)) =~= out.deep_view());
    }
    out
}

// ---------------------------------------------------------------------------
// Decimal formatting of line numbers.
// ---------------------------------------------------------------------------

pub open spec fn digit_char(d: int) -> char {
    if d == 0 {
        '0'
    } else if d == 1 {
        '1'
    } else if d == 2 {
        '2'
    } else if d == 3 {
        '3'
    } else if d == 4 {
        '4'
    } else if d == 5 {
        '5'
    } else if d == 6 {
        '6'
    } else if d == 7 {
        '7'
    } else if d == 8 {
        '8'
    } else {
        '9'
    }
}

/// The decimal digits of a nonnegative number, most significant first.
pub open spec fn dec_str(n: int) -> Seq<char>
    decreases n,
{
    if n < 10 {
        seq![digit_char(n)]
    } else {
        dec_str(n / 10).push(digit_char(n % 10))
    }
}

/// One decimal digit as a string slice.
fn digit_str(d: usize) -> (r: &'static str)
    requires
        d < 10,
    ensures
        r@ == seq![digit_char(d as int)],
{
    if d == 0 {
        proof {
            reveal_strlit("0");
        }
        assert("0"@ =~= seq!['0']);
        "0"
    } else if d == 1 {
        proof {
            reveal_strlit("1");
        }
        assert("1"@ =~= seq!['1']);
        "1"
    } else if d == 2 {
        proof {
            reveal_strlit("2");
        }
        assert("2"@ =~= seq!['2']);
        "2"
    } else if d == 3 {
        proof {
            reveal_strlit("3");
        }
        assert("3"@ =~= seq!['3']);
        "3"
    } else if d == 4 {
        proof {
            reveal_strlit("4");
        }
        assert("4"@ =~= seq!['4']);
        "4"
    } else if d == 5 {
        proof {
            reveal_strlit("5");
        }
        assert("5"@ =~= seq!['5']);
        "5"
    } else if d == 6 {
        proof {
            reveal_strlit("6");
        }
        assert("6"@ =~= seq!['6']);
        "6"
    } else if d == 7 {
        proof {
            reveal_strlit("7");
        }
        assert("7"@ =~= seq!['7']);
        "7"
    } else if d == 8 {
        proof {
            reveal_strlit("8");
        }
        assert("8"@ =~= seq!['8']);
        "8"
    } else {
        proof {
            reveal_strlit("9");
        }
        assert("9"@ =~= seq!['9']);
        "9"
    }
}

/// Renders a number in decimal.
pub fn usize_to_dec(n: usize) -> (r: String)
    ensures
        r@ == dec_str(n as int),
    decreases n,
{
    if n < 10 {
        String::from_str(digit_str(n))
    } else {
        let mut s = usize_to_dec(n / 10);
        s.append(digit_str(n % 10));
        proof {
            assert(s@ =~= dec_str(n as int / 10).push(digit_char(n as int % 10)));
        }
        s
    }
}

pub open spec fn spaces(n: int) -> Seq<char>
    decreases n,
{
    if n <= 0 {
        Seq::empty()
    } else {
        spaces(n - 1).push(' ')
    }
}

/// `s` right-aligned in a field of `w` characters (unchanged if already wider).
pub open spec fn pad_left(s: Seq<char>, w: int) -> Seq<char> {
    spaces(w - s.len()) + s
}

/// Renders `num` in decimal, right-aligned to `width` characters.
pub fn padded_dec(num: usize, width: usize) -> (r: String)
    ensures
        r@ == pad_left(dec_str(num as int), width as int),
{
    let digits = usize_to_dec(num);
    let dl = digits.as_str().unicode_len();
    let padn = if width > dl {
        width - dl
    } else {
        0
    };
    let mut s = String::new();
    let mut k: usize = 0;
    proof {
        reveal_strlit(" ");
        assert(" "@ =~= seq![' ']);
        assert(s@ =~= spaces(0));
    }
    while k < padn
        invariant
            0 <= k <= padn,
            s@ == spaces(k as int),
        decreases padn - k,
    {
        s.append(" ");
        proof {
            reveal_strlit(" ");
            assert(" "@ =~= seq![' ']);
            assert(spaces(k as int).push(' ') =~= spaces(k as int) + seq![' ']);
        }
        k += 1;
    }
    s.append(digits.as_str());
    proof {
        if width <= dl {
            assert(spaces(width - dl) =~= Seq::<char>::empty());
        }
        assert(s@ =~= pad_left(dec_str(num as int), width as int));
    }
    s
}

/// The pieces joined with single newlines between them.
pub open spec fn join_nl(pieces: Seq<Seq<char>>) -> Seq<char>
    decreases pieces.len(),
{
    if pieces.len() == 0 {
        Seq::empty()
    } else if pieces.len() == 1 {
        pieces[0]
    } else {
        pieces[0] + seq!['\n'] + join_nl(pieces.drop_first())
    }
}

/// Joining one more piece appends a newline and the piece (no newline when it
/// is the first).
pub proof fn lemma_join_nl_push(p: Seq<Seq<char>>, x: Seq<char>)
    ensures
        p.len() == 0 ==> join_nl(p.push(x)) == x,
        p.len() > 0 ==> join_nl(p.push(x)) == join_nl(p) + seq!['\n'] + x,
    decreases p.len(),
{
    if p.len() == 0 {
        assert(p.push(x).len() == 1);
        assert(p.push(x)[0] == x);
    } else {
        lemma_join_nl_push(p.drop_first(), x);
        assert(p.push(x).drop_first() =~= p.drop_first().push(x));
        assert(p.push(x)[0] == p[0]);
        assert(p.push(x).len() == p.len() + 1);
        if p.len() == 1 {
            assert(join_nl(p.push(x)) == p[0] + seq!['\n'] + x);
        } else {
            assert(join_nl(p.push(x)) == p[0] + seq!['\n'] + (join_nl(p.drop_first())
                + seq!['\n'] + x));
            assert(p[0] + seq!['\n'] + (join_nl(p.drop_first()) + seq!['\n'] + x) =~= (p[0]
                + seq!['\n'] + join_nl(p.drop_first())) + seq!['\n'] + x);
        }
    }
}

/// Executable equality of two string slices, stated over their views.
pub fn str_eq(a: &str, b: &str) -> (r: bool)
    ensures
        r == (a@ == b@),
{
    let an = a.unicode_len();
    let bn = b.unicode_len();
    if an != bn {
        return false;
    }
    let mut i: usize = 0;
    while i < an
        invariant
            0 <= i <= an,
            an == a@.len(),
            bn == b@.len(),
            an == bn,
            forall|k: int| 0 <= k < i ==> a@[k] == b@[k],
        decreases an - i,
    {
        if a.get_char(i) != b.get_char(i) {
            return false;
        }
        i += 1;
    }
    assert(a@ =~= b@);
    true
}

} // verus!
