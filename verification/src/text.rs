use vstd::prelude::*;
use vstd::string::*;

verus! {

/// Lexicographic order on character sequences, compared from index `from` on.
/// A proper prefix comes before every sequence that extends it.
pub open spec fn lex_lt_from(a: Seq<char>, b: Seq<char>, from: int) -> bool
    decreases a.len() - from,
{
    if from < 0 || from >= b.len() {
        false
    } else if from >= a.len() {
        true
    } else if a[from] != b[from] {
        (a[from] as int) < (b[from] as int)
    } else {
        lex_lt_from(a, b, from + 1)
    }
}

/// Strict lexicographic order by code point: the order in which sibling
/// modules are emitted.
pub open spec fn lex_lt(a: Seq<char>, b: Seq<char>) -> bool {
    lex_lt_from(a, b, 0)
}

/// No sequence comes before itself.
pub proof fn lemma_lex_irreflexive(a: Seq<char>, from: int)
    requires
        0 <= from,
    ensures
        !lex_lt_from(a, a, from),
    decreases a.len() - from,
{
    if from < a.len() {
        lemma_lex_irreflexive(a, from + 1);
    }
}

/// The order is transitive.
pub proof fn lemma_lex_transitive(a: Seq<char>, b: Seq<char>, c: Seq<char>, from: int)
    requires
        0 <= from,
        lex_lt_from(a, b, from),
        lex_lt_from(b, c, from),
    ensures
        lex_lt_from(a, c, from),
    decreases a.len() - from,
{
    if from < a.len() && a[from] == b[from] && b[from] == c[from] {
        lemma_lex_transitive(a, b, c, from + 1);
    }
}

/// The order is total: two sequences that agree before `from` and of which
/// neither comes before the other are equal.
pub proof fn lemma_lex_total(a: Seq<char>, b: Seq<char>, from: int)
    requires
        0 <= from <= a.len(),
        from <= b.len(),
        forall|k: int| 0 <= k < from ==> a[k] == b[k],
        !lex_lt_from(a, b, from),
        !lex_lt_from(b, a, from),
    ensures
        a == b,
    decreases a.len() - from,
{
    if from < a.len() && from < b.len() {
        assert(a[from] as int == b[from] as int);
        assert(a[from] == b[from]);
        lemma_lex_total(a, b, from + 1);
    } else {
        assert(a =~= b);
    }
}

/// Whether `a` comes strictly before `b` in lexicographic order.
pub fn str_lt(a: &str, b: &str) -> (r: bool)
    ensures
        r == lex_lt(a@, b@),
{
    let la: usize = a.unicode_len();
    let lb: usize = b.unicode_len();
    let mut i: usize = 0;
    while i < la && i < lb
        invariant
            la == a@.len(),
            lb == b@.len(),
            i <= la,
            i <= lb,
            lex_lt(a@, b@) == lex_lt_from(a@, b@, i as int),
        decreases la - i,
    {
        let ca: char = a.get_char(i);
        let cb: char = b.get_char(i);
        if ca != cb {
            return (ca as u32) < (cb as u32);
        }
        i += 1;
    }
    i < lb
}

/// The segments of a dotted path: the pieces between the dots, in order.
/// A path without a dot is one segment; the empty path is one empty segment.
pub open spec fn segments(s: Seq<char>) -> Seq<Seq<char>>
    decreases s.len(),
{
    if s.len() == 0 {
        seq![Seq::<char>::empty()]
    } else {
        let before = segments(s.drop_last());
        if s.last() == '.' {
            before.push(Seq::<char>::empty())
        } else {
            before.update(before.len() - 1, before.last().push(s.last()))
        }
    }
}

/// The views of a vector of strings.
pub open spec fn views(v: Seq<String>) -> Seq<Seq<char>> {
    Seq::new(v.len(), |i: int| v[i]@)
}

/// Every path has at least one segment.
pub proof fn lemma_segments_nonempty(s: Seq<char>)
    ensures
        segments(s).len() >= 1,
    decreases s.len(),
{
    if s.len() > 0 {
        lemma_segments_nonempty(s.drop_last());
    }
}

/// Different paths have different segments: a path is its segments with a
/// dot between each two.
pub proof fn lemma_segments_injective(a: Seq<char>, b: Seq<char>)
    requires
        segments(a) == segments(b),
    ensures
        a == b,
    decreases a.len(),
{
    lemma_segments_nonempty(a.drop_last());
    lemma_segments_nonempty(b.drop_last());
    if a.len() == 0 || b.len() == 0 {
        if a.len() > 0 {
            let before = segments(a.drop_last());
            assert(segments(a).len() == 1);
            assert(segments(a)[0].len() == 0);
            assert(before.last().push(a.last()).len() > 0);
        }
        if b.len() > 0 {
            let before = segments(b.drop_last());
            assert(segments(b).len() == 1);
            assert(segments(b)[0].len() == 0);
            assert(before.last().push(b.last()).len() > 0);
        }
        assert(a =~= b);
    } else {
        let before_a = segments(a.drop_last());
        let before_b = segments(b.drop_last());
        let last = segments(a).last();
        assert(before_a.last().push(a.last()).len() > 0);
        assert(before_b.last().push(b.last()).len() > 0);
        if a.last() == '.' {
            assert(last.len() == 0);
            assert(b.last() == '.');
            assert(before_a =~= segments(a).drop_last());
            assert(before_b =~= segments(b).drop_last());
        } else {
            assert(last.len() > 0);
            assert(b.last() != '.');
            assert(last == before_a.last().push(a.last()));
            assert(last == before_b.last().push(b.last()));
            assert(a.last() == last.last());
            assert(b.last() == last.last());
            assert(before_a.last() =~= last.drop_last());
            assert(before_b.last() =~= last.drop_last());
            assert(before_a.len() == before_b.len());
            assert forall|j: int| 0 <= j < before_a.len() implies before_a[j] == before_b[j] by {
                if j < before_a.len() - 1 {
                    assert(before_a[j] == segments(a)[j]);
                    assert(before_b[j] == segments(b)[j]);
                }
            }
            assert(before_a =~= before_b);
        }
        lemma_segments_injective(a.drop_last(), b.drop_last());
        assert(a =~= a.drop_last().push(a.last()));
        assert(b =~= b.drop_last().push(b.last()));
    }
}

/// Splits a dotted path into its segments.
pub fn split_path(path: &str) -> (r: Vec<String>)
    ensures
        views(r@) == segments(path@),
{
    let n: usize = path.unicode_len();
    let mut out: Vec<String> = Vec::new();
    let mut start: usize = 0;
    let mut i: usize = 0;
    while i < n
        invariant
            n == path@.len(),
            start <= i <= n,
            segments(path@.take(i as int)).len() == out@.len() + 1,
            views(out@) == segments(path@.take(i as int)).drop_last(),
            segments(path@.take(i as int)).last() == path@.subrange(start as int, i as int),
        decreases n - i,
    {
        let c: char = path.get_char(i);
        proof {
            let next = path@.take(i + 1);
            assert(next.drop_last() == path@.take(i as int));
            assert(next.last() == c);
        }
        if c == '.' {
            let piece: &str = path.substring_char(start, i);
            let ghost prev = out@;
            out.push(String::from_str(piece));
            start = i + 1;
            proof {
                let before = segments(path@.take(i as int));
                assert forall|j: int| 0 <= j < out@.len() implies views(out@)[j] == before[j] by {
                    if j < prev.len() {
                        assert(views(prev)[j] == before.drop_last()[j]);
                    }
                }
                assert(views(out@) =~= before);
                assert(before.push(Seq::<char>::empty()).drop_last() == before);
                assert(path@.subrange(i + 1, i + 1) == Seq::<char>::empty());
            }
        } else {
            proof {
                let before = segments(path@.take(i as int));
                let after = before.update(before.len() - 1, before.last().push(c));
                assert(after.drop_last() == before.drop_last());
                assert(path@.subrange(start as int, i + 1) == before.last().push(c));
            }
        }
        i += 1;
    }
    let piece: &str = path.substring_char(start, n);
    let ghost prev = out@;
    out.push(String::from_str(piece));
    proof {
        assert(path@.take(n as int) == path@);
        let all = segments(path@);
        assert forall|j: int| 0 <= j < out@.len() implies views(out@)[j] == all[j] by {
            if j < prev.len() {
                assert(views(prev)[j] == all.drop_last()[j]);
            }
        }
        assert(views(out@) =~= all.drop_last().push(all.last()));
        assert(all.drop_last().push(all.last()) =~= all);
    }
    out
}

} // verus!
