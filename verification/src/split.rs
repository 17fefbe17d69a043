//! Textual decoding of the comma-separated and `->`-separated lists that
//! a DFA description is written in.

use vstd::prelude::*;

verus! {

/// The pieces of `s` between the commas, in order: the mathematical
/// meaning of `str::split(',')`.  An input with no comma is one piece;
/// every comma adds one more, so the empty input is the single empty
/// piece.
pub open spec fn split_comma(s: Seq<char>) -> Seq<Seq<char>>
    decreases s.len(),
{
    if s.len() == 0 {
        seq![s]
    } else if s[0] == ',' {
        seq![Seq::<char>::empty()] + split_comma(s.drop_first())
    } else {
        let r = split_comma(s.drop_first());
        seq![seq![s[0]] + r[0]] + r.drop_first()
    }
}

/// A `->` separator begins at position `i` of `s`.
pub open spec fn arrow_at(s: Seq<char>, i: int) -> bool {
    0 <= i && i + 1 < s.len() && s[i] == '-' && s[i + 1] == '>'
}

/// The pieces of `s` between the `->` separators, matched greedily left
/// to right: the mathematical meaning of `str::split("->")`.
pub open spec fn split_arrow(s: Seq<char>) -> Seq<Seq<char>>
    decreases s.len(),
{
    if arrow_at(s, 0) {
        seq![Seq::<char>::empty()] + split_arrow(s.skip(2))
    } else if s.len() == 0 {
        seq![s]
    } else {
        let r = split_arrow(s.drop_first());
        seq![seq![s[0]] + r[0]] + r.drop_first()
    }
}

proof fn lemma_split_comma_len(s: Seq<char>)
    ensures
        split_comma(s).len() >= 1,
    decreases s.len(),
{
    if s.len() != 0 {
        lemma_split_comma_len(s.drop_first());
    }
}

proof fn lemma_split_arrow_len(s: Seq<char>)
    ensures
        split_arrow(s).len() >= 1,
    decreases s.len(),
{
    if arrow_at(s, 0) {
        lemma_split_arrow_len(s.skip(2));
    } else if s.len() != 0 {
        lemma_split_arrow_len(s.drop_first());
    }
}

/// Splitting looks at the input left to right: a prefix free of commas
/// lands at the front of the first piece, and the rest of the pieces
/// are those of the remainder.
proof fn lemma_split_comma_prefix(s: Seq<char>, k: int)
    requires
        0 <= k <= s.len(),
        forall|j: int| 0 <= j < k ==> s[j] != ',',
    ensures
        split_comma(s.skip(k)).len() >= 1,
        split_comma(s) == seq![s.take(k) + split_comma(s.skip(k))[0]] + split_comma(
            s.skip(k),
        ).drop_first(),
    decreases k,
{
    lemma_split_comma_len(s.skip(k));
    if k == 0 {
        assert(s.skip(0) =~= s);
        assert(s.take(0) + split_comma(s)[0] =~= split_comma(s)[0]);
        assert(seq![split_comma(s)[0]] + split_comma(s).drop_first() =~= split_comma(s));
    } else {
        let t = s.drop_first();
        lemma_split_comma_prefix(t, k - 1);
        assert(t.skip(k - 1) =~= s.skip(k));
        let rest = split_comma(s.skip(k));
        assert(seq![s[0]] + (t.take(k - 1) + rest[0]) =~= s.take(k) + rest[0]);
        assert(split_comma(t) == seq![t.take(k - 1) + rest[0]] + rest.drop_first());
        assert((seq![t.take(k - 1) + rest[0]] + rest.drop_first()).drop_first() =~= rest.drop_first());
    }
}

/// The analogue of `lemma_split_comma_prefix` for the `->` separator.
proof fn lemma_split_arrow_prefix(s: Seq<char>, k: int)
    requires
        0 <= k <= s.len(),
        forall|j: int| 0 <= j < k ==> !arrow_at(s, j),
    ensures
        split_arrow(s.skip(k)).len() >= 1,
        split_arrow(s) == seq![s.take(k) + split_arrow(s.skip(k))[0]] + split_arrow(
            s.skip(k),
        ).drop_first(),
    decreases k,
{
    lemma_split_arrow_len(s.skip(k));
    if k == 0 {
        assert(s.skip(0) =~= s);
        assert(s.take(0) + split_arrow(s)[0] =~= split_arrow(s)[0]);
        assert(seq![split_arrow(s)[0]] + split_arrow(s).drop_first() =~= split_arrow(s));
    } else {
        assert(!arrow_at(s, 0));
        let t = s.drop_first();
        assert(forall|j: int| 0 <= j < k - 1 ==> arrow_at(t, j) == arrow_at(s, j + 1));
        lemma_split_arrow_prefix(t, k - 1);
        assert(t.skip(k - 1) =~= s.skip(k));
        let rest = split_arrow(s.skip(k));
        assert(seq![s[0]] + (t.take(k - 1) + rest[0]) =~= s.take(k) + rest[0]);
        assert(split_arrow(t) == seq![t.take(k - 1) + rest[0]] + rest.drop_first());
        assert((seq![t.take(k - 1) + rest[0]] + rest.drop_first()).drop_first() =~= rest.drop_first());
    }
}

/// With no comma in `s.take(k)` and a comma at `k`, the first piece is
/// `s.take(k)` and the rest are the pieces after the comma.
proof fn lemma_split_comma_sep(s: Seq<char>, k: int)
    requires
        0 <= k < s.len(),
        forall|j: int| 0 <= j < k ==> s[j] != ',',
        s[k] == ',',
    ensures
        split_comma(s) == seq![s.take(k)] + split_comma(s.skip(k + 1)),
{
    lemma_split_comma_prefix(s, k);
    assert(s.skip(k).drop_first() =~= s.skip(k + 1));
    assert(split_comma(s.skip(k)) == seq![Seq::<char>::empty()] + split_comma(s.skip(k + 1)));
    assert(s.take(k) + split_comma(s.skip(k))[0] =~= s.take(k));
    assert((seq![Seq::<char>::empty()] + split_comma(s.skip(k + 1))).drop_first() =~= split_comma(
        s.skip(k + 1),
    ));
}

/// A comma-free string is a single piece.
proof fn lemma_split_comma_whole(s: Seq<char>)
    requires
        forall|j: int| 0 <= j < s.len() ==> s[j] != ',',
    ensures
        split_comma(s) == seq![s],
{
    lemma_split_comma_prefix(s, s.len() as int);
    assert(s.skip(s.len() as int) =~= Seq::<char>::empty());
    assert(s.take(s.len() as int) + split_comma(s.skip(s.len() as int))[0] =~= s);
    assert((seq![s] + split_comma(s.skip(s.len() as int)).drop_first()) =~= seq![s]);
}

/// With no `->` before `k` and one at `k`, the first piece is
/// `s.take(k)` and the rest are the pieces after the separator.
proof fn lemma_split_arrow_sep(s: Seq<char>, k: int)
    requires
        0 <= k,
        forall|j: int| 0 <= j < k ==> !arrow_at(s, j),
        arrow_at(s, k),
    ensures
        split_arrow(s) == seq![s.take(k)] + split_arrow(s.skip(k + 2)),
{
    lemma_split_arrow_prefix(s, k);
    assert(s.skip(k).skip(2) =~= s.skip(k + 2));
    assert(arrow_at(s.skip(k), 0));
    assert(split_arrow(s.skip(k)) == seq![Seq::<char>::empty()] + split_arrow(s.skip(k + 2)));
    assert(s.take(k) + split_arrow(s.skip(k))[0] =~= s.take(k));
    assert((seq![Seq::<char>::empty()] + split_arrow(s.skip(k + 2))).drop_first() =~= split_arrow(
        s.skip(k + 2),
    ));
}

/// A string with no `->` separator is a single piece.
proof fn lemma_split_arrow_whole(s: Seq<char>)
    requires
        forall|j: int| 0 <= j < s.len() ==> !arrow_at(s, j),
    ensures
        split_arrow(s) == seq![s],
{
    lemma_split_arrow_prefix(s, s.len() as int);
    assert(s.skip(s.len() as int) =~= Seq::<char>::empty());
    assert(s.take(s.len() as int) + split_arrow(s.skip(s.len() as int))[0] =~= s);
    assert((seq![s] + split_arrow(s.skip(s.len() as int)).drop_first()) =~= seq![s]);
}

/// The views of a vector of strings, as a sequence of character
/// sequences.
pub open spec fn views_of(parts: Seq<String>) -> Seq<Seq<char>> {
    parts.map_values(|p: String| p@)
}

/// The characters of `s`, as an executable vector.
pub fn chars_of(s: &str) -> (r: Vec<char>)
    ensures
        r@ == s@,
{
    let n = s.unicode_len();
    let mut r: Vec<char> = Vec::new();
    let mut i: usize = 0;
    while i < n
        invariant
            i <= n,
            n == s@.len(),
            r@ == s@.take(i as int),
        decreases n - i,
    {
        let c = s.get_char(i);
        r.push(c);
        i = i + 1;
        proof {
            assert(r@ =~= s@.take(i as int));
        }
    }
    proof {
        assert(s@.take(n as int) =~= s@);
    }
    r
}

/// Splits `s` at every comma, as `str::split(',')` does.
pub fn split_commas(s: &str) -> (r: Vec<String>)
    ensures
        views_of(r@) == split_comma(s@),
{
    let n = s.unicode_len();
    let mut r: Vec<String> = Vec::new();
    let mut start: usize = 0;
    let mut i: usize = 0;
    proof {
        assert(s@.skip(0) =~= s@);
        assert(views_of(r@) + split_comma(s@) =~= split_comma(s@));
    }
    while i < n
        invariant
            start <= i <= n,
            n == s@.len(),
            forall|j: int| start <= j < i ==> s@[j] != ',',
            split_comma(s@) == views_of(r@) + split_comma(s@.skip(start as int)),
        decreases n - i,
    {
        let c = s.get_char(i);
        if c == ',' {
            let part = s.substring_char(start, i).to_owned();
            let ghost prev = r@;
            r.push(part);
            proof {
                let sub = s@.skip(start as int);
                assert(forall|j: int| 0 <= j < i - start ==> sub[j] == s@[start + j]);
                lemma_split_comma_sep(sub, i - start);
                assert(sub.take(i - start) =~= s@.subrange(start as int, i as int));
                assert(sub.skip(i - start + 1) =~= s@.skip(i + 1));
                assert(views_of(r@) =~= views_of(prev).push(s@.subrange(start as int, i as int)));
                assert(views_of(prev) + (seq![s@.subrange(start as int, i as int)] + split_comma(
                    s@.skip(i + 1),
                )) =~= views_of(r@) + split_comma(s@.skip(i + 1)));
            }
            i = i + 1;
            start = i;
        } else {
            i = i + 1;
        }
    }
    let last = s.substring_char(start, n).to_owned();
    let ghost prev = r@;
    r.push(last);
    proof {
        let sub = s@.skip(start as int);
        assert(forall|j: int| 0 <= j < sub.len() ==> sub[j] == s@[start + j]);
        lemma_split_comma_whole(sub);
        assert(sub =~= s@.subrange(start as int, n as int));
        assert(views_of(r@) =~= views_of(prev).push(s@.subrange(start as int, n as int)));
        assert(views_of(prev) + seq![s@.subrange(start as int, n as int)] =~= views_of(r@));
    }
    r
}

/// Splits `s` at every `->`, as `str::split("->")` does.
pub fn split_arrows(s: &str) -> (r: Vec<String>)
    ensures
        views_of(r@) == split_arrow(s@),
{
    let n = s.unicode_len();
    let mut r: Vec<String> = Vec::new();
    let mut start: usize = 0;
    let mut i: usize = 0;
    proof {
        assert(s@.skip(0) =~= s@);
        assert(views_of(r@) + split_arrow(s@) =~= split_arrow(s@));
    }
    while i < n
        invariant
            start <= i <= n,
            n == s@.len(),
            forall|j: int| start <= j < i ==> !arrow_at(s@, j),
            split_arrow(s@) == views_of(r@) + split_arrow(s@.skip(start as int)),
        decreases n - i,
    {
        let c = s.get_char(i);
        let mut sep = false;
        if c == '-' && i + 1 < n {
            if s.get_char(i + 1) == '>' {
                sep = true;
            }
        }
        if sep {
            let part = s.substring_char(start, i).to_owned();
            let ghost prev = r@;
            r.push(part);
            proof {
                let sub = s@.skip(start as int);
                assert(forall|j: int| 0 <= j <= i - start ==> arrow_at(sub, j) == arrow_at(
                    s@,
                    start + j,
                ));
                lemma_split_arrow_sep(sub, i - start);
                assert(sub.take(i - start) =~= s@.subrange(start as int, i as int));
                assert(sub.skip(i - start + 2) =~= s@.skip(i + 2));
                assert(views_of(r@) =~= views_of(prev).push(s@.subrange(start as int, i as int)));
                assert(views_of(prev) + (seq![s@.subrange(start as int, i as int)] + split_arrow(
                    s@.skip(i + 2),
                )) =~= views_of(r@) + split_arrow(s@.skip(i + 2)));
            }
            i = i + 2;
            start = i;
        } else {
            i = i + 1;
        }
    }
    let last = s.substring_char(start, n).to_owned();
    let ghost prev = r@;
    r.push(last);
    proof {
        let sub = s@.skip(start as int);
        assert(forall|j: int| 0 <= j < sub.len() ==> arrow_at(sub, j) == arrow_at(s@, start + j));
        lemma_split_arrow_whole(sub);
        assert(sub =~= s@.subrange(start as int, n as int));
        assert(views_of(r@) =~= views_of(prev).push(s@.subrange(start as int, n as int)));
        assert(views_of(prev) + seq![s@.subrange(start as int, n as int)] =~= views_of(r@));
    }
    r
}

} // verus!
