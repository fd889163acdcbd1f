//! Fully-qualified class names as dot-separated segment paths.

use vstd::prelude::*;

verus! {

/// The views of a sequence of strings.
pub open spec fn strs_view(s: Seq<String>) -> Seq<Seq<char>> {
    s.map_values(|x: String| x@)
}

/// Index of the first `'.'`, or the length when there is none.
pub open spec fn first_dot(s: Seq<char>) -> int
    decreases s.len(),
{
    if s.len() == 0 {
        0
    } else if s[0] == '.' {
        0
    } else {
        1 + first_dot(s.drop_first())
    }
}

/// `first_dot` points at the first dot: it is in bounds, a dot stands there
/// when it is short of the end, and no dot stands before it.
pub proof fn lemma_first_dot(s: Seq<char>)
    ensures
        0 <= first_dot(s) <= s.len(),
        first_dot(s) < s.len() ==> s[first_dot(s)] == '.',
        forall|k: int| 0 <= k < first_dot(s) ==> s[k] != '.',
    decreases s.len(),
{
    if s.len() != 0 && s[0] != '.' {
        lemma_first_dot(s.drop_first());
        assert forall|k: int| 0 <= k < first_dot(s) implies s[k] != '.' by {
            if k > 0 {
                assert(s.drop_first()[k - 1] == s[k]);
            }
        }
        if first_dot(s) < s.len() {
            assert(s.drop_first()[first_dot(s.drop_first())] == s[first_dot(s)]);
        }
    }
}

/// The dot-separated segments of a name. Splitting never yields an empty
/// sequence: a name without dots is one segment, and each dot ends one.
pub open spec fn spec_split(s: Seq<char>) -> Seq<Seq<char>>
    decreases s.len(),
    via spec_split_decreases
{
    let d = first_dot(s);
    if d >= s.len() {
        seq![s]
    } else {
        seq![s.take(d)] + spec_split(s.skip(d + 1))
    }
}

#[via_fn]
proof fn spec_split_decreases(s: Seq<char>) {
    lemma_first_dot(s);
}

/// Splitting yields at least one segment.
pub proof fn lemma_split_len(s: Seq<char>)
    ensures
        spec_split(s).len() >= 1,
    decreases s.len(),
{
    lemma_first_dot(s);
}

/// Splits a name at each `'.'` into its package-path segments plus the
/// final simple-name segment.
pub fn split_name(s: &String) -> (r: Vec<String>)
    ensures
        strs_view(r@) == spec_split(s@),
        r@.len() >= 1,
{
    let sl = s.as_str();
    let n = sl.unicode_len();
    let mut out: Vec<String> = Vec::new();
    let mut start: usize = 0;
    let mut i: usize = 0;
    assert(s@.skip(0) =~= s@);
    assert(strs_view(out@) + spec_split(s@) =~= spec_split(s@));
    while i < n
        invariant
            n == s@.len(),
            sl@ == s@,
            start <= i <= n,
            spec_split(s@) == strs_view(out@) + spec_split(s@.skip(start as int)),
            forall|k: int| start <= k < i ==> s@[k] != '.',
        decreases n - i,
    {
        let c = sl.get_char(i);
        if c == '.' {
            let seg = sl.substring_char(start, i).to_owned();
            proof {
                let rest = s@.skip(start as int);
                lemma_first_dot(rest);
                assert(forall|k: int| 0 <= k < i - start ==> rest[k] == s@[k + start]);
                assert(rest[i - start] == s@[i as int]);
                assert(first_dot(rest) == i - start);
                assert(rest.take(i - start) =~= s@.subrange(start as int, i as int));
                assert(rest.skip(i - start + 1) =~= s@.skip(i as int + 1));
                assert(seg@ == s@.subrange(start as int, i as int));
                assert(strs_view(out@.push(seg)) =~= strs_view(out@).push(seg@));
                assert(strs_view(out@) + spec_split(rest) =~= strs_view(out@.push(seg))
                    + spec_split(s@.skip(i as int + 1)));
            }
            out.push(seg);
            start = i + 1;
        }
        i += 1;
    }
    let seg = sl.substring_char(start, n).to_owned();
    proof {
        let rest = s@.skip(start as int);
        lemma_first_dot(rest);
        assert(forall|k: int| 0 <= k < n - start ==> rest[k] == s@[k + start]);
        assert(first_dot(rest) == n - start);
        assert(rest =~= s@.subrange(start as int, n as int));
        assert(seg@ == s@.subrange(start as int, n as int));
        assert(strs_view(out@.push(seg)) =~= strs_view(out@).push(seg@));
        assert(strs_view(out@) + spec_split(rest) =~= strs_view(out@.push(seg)));
    }
    out.push(seg);
    out
}

/// Lexicographic order on character sequences, comparing code points.
pub open spec fn lex_le(a: Seq<char>, b: Seq<char>) -> bool
    decreases a.len(),
{
    if a.len() == 0 {
        true
    } else if b.len() == 0 {
        false
    } else if (a[0] as u32) < (b[0] as u32) {
        true
    } else if (b[0] as u32) < (a[0] as u32) {
        false
    } else {
        lex_le(a.drop_first(), b.drop_first())
    }
}

/// The order is reflexive.
pub proof fn lemma_lex_le_refl(a: Seq<char>)
    ensures
        lex_le(a, a),
    decreases a.len(),
{
    if a.len() > 0 {
        lemma_lex_le_refl(a.drop_first());
    }
}

/// The order is total.
pub proof fn lemma_lex_le_total(a: Seq<char>, b: Seq<char>)
    ensures
        lex_le(a, b) || lex_le(b, a),
    decreases a.len(),
{
    if a.len() > 0 && b.len() > 0 && (a[0] as u32) == (b[0] as u32) {
        lemma_lex_le_total(a.drop_first(), b.drop_first());
    }
}

/// The order is transitive.
pub proof fn lemma_lex_le_trans(a: Seq<char>, b: Seq<char>, c: Seq<char>)
    requires
        lex_le(a, b),
        lex_le(b, c),
    ensures
        lex_le(a, c),
    decreases a.len(),
{
    if a.len() > 0 && c.len() > 0 && (a[0] as u32) == (c[0] as u32) {
        if b.len() > 0 && (a[0] as u32) == (b[0] as u32) && (b[0] as u32) == (c[0] as u32) {
            lemma_lex_le_trans(a.drop_first(), b.drop_first(), c.drop_first());
        }
    }
}

/// Compares two strings in the `lex_le` order.
pub fn str_lex_le(a: &str, b: &str) -> (r: bool)
    ensures
        r == lex_le(a@, b@),
{
    let an = a.unicode_len();
    let bn = b.unicode_len();
    let mut i: usize = 0;
    assert(a@.skip(0) =~= a@);
    assert(b@.skip(0) =~= b@);
    while i < an && i < bn
        invariant
            an == a@.len(),
            bn == b@.len(),
            i <= an,
            i <= bn,
            lex_le(a@, b@) == lex_le(a@.skip(i as int), b@.skip(i as int)),
        decreases an - i,
    {
        proof {
            assert(a@.skip(i as int)[0] == a@[i as int]);
            assert(b@.skip(i as int)[0] == b@[i as int]);
            assert(a@.skip(i as int).drop_first() =~= a@.skip(i as int + 1));
            assert(b@.skip(i as int).drop_first() =~= b@.skip(i as int + 1));
        }
        let ca = a.get_char(i);
        let cb = b.get_char(i);
        if (ca as u32) < (cb as u32) {
            return true;
        }
        if (cb as u32) < (ca as u32) {
            return false;
        }
        i += 1;
    }
    i >= an
}

} // verus!
