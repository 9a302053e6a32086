use vstd::prelude::*;

verus! {

/// Number of positions `i < k` with `s[i] == a` and `s[i + 1] == b`.
pub open spec fn pair_count_upto(s: Seq<usize>, a: usize, b: usize, k: int) -> nat
    decreases k,
{
    if k <= 0 {
        0
    } else {
        pair_count_upto(s, a, b, k - 1) + if s[k - 1] == a && s[k] == b {
            1nat
        } else {
            0nat
        }
    }
}

/// Number of adjacent windows of `s` that read `(a, b)`, overlapping windows included.
pub open spec fn pair_count(s: Seq<usize>, a: usize, b: usize) -> nat {
    if s.len() < 2 {
        0
    } else {
        pair_count_upto(s, a, b, s.len() - 1)
    }
}

/// Lexicographic order on pairs: `(a, b) <= (c, d)`.
pub open spec fn pair_le(a: usize, b: usize, c: usize, d: usize) -> bool {
    a < c || (a == c && b <= d)
}

/// `(a, b)` occurs in `s`, and no pair occurs more often; among the pairs of
/// the largest count it is the lexicographically smallest.
pub open spec fn is_best(s: Seq<usize>, a: usize, b: usize) -> bool {
    &&& pair_count(s, a, b) > 0
    &&& forall|c: usize, d: usize|
        #![trigger pair_count(s, c, d)]
        pair_count(s, c, d) < pair_count(s, a, b) || (pair_count(s, c, d) == pair_count(s, a, b)
            && pair_le(a, b, c, d))
}

/// The pair that training merges next in `s`.
pub open spec fn best_pair(s: Seq<usize>) -> (usize, usize) {
    choose|p: (usize, usize)| is_best(s, p.0, p.1)
}

/// A frequency table of `s`: one entry `(left, right, count)` per distinct
/// adjacent pair, with its exact count.
pub open spec fn is_frequency_table(s: Seq<usize>, t: Seq<(usize, usize, usize)>) -> bool {
    &&& forall|j: int|
        0 <= j < t.len() ==> #[trigger] t[j].2 == pair_count(s, t[j].0, t[j].1) && t[j].2 > 0
    &&& forall|j1: int, j2: int|
        0 <= j1 < t.len() && 0 <= j2 < t.len() && j1 != j2 ==> (#[trigger] t[j1].0 != #[trigger] t[j2].0
            || t[j1].1 != t[j2].1)
    &&& forall|a: usize, b: usize|
        #[trigger] pair_count(s, a, b) > 0 ==> exists|j: int|
            0 <= j < t.len() && #[trigger] t[j].0 == a && t[j].1 == b
}

proof fn lemma_pair_count_upto_bound(s: Seq<usize>, a: usize, b: usize, k: int)
    requires
        k >= 0,
    ensures
        pair_count_upto(s, a, b, k) <= k,
    decreases k,
{
    if k > 0 {
        lemma_pair_count_upto_bound(s, a, b, k - 1);
    }
}

/// A pair that is counted occurs at some position.
pub proof fn lemma_counted_pair_occurs(s: Seq<usize>, a: usize, b: usize)
    requires
        pair_count(s, a, b) > 0,
    ensures
        exists|i: int| 0 <= i && i + 1 < s.len() && #[trigger] s[i] == a && s[i + 1] == b,
{
    lemma_counted_upto_occurs(s, a, b, s.len() - 1);
}

proof fn lemma_counted_upto_occurs(s: Seq<usize>, a: usize, b: usize, k: int)
    requires
        k < s.len(),
        pair_count_upto(s, a, b, k) > 0,
    ensures
        exists|i: int| 0 <= i && i < k && #[trigger] s[i] == a && s[i + 1] == b,
    decreases k,
{
    if k > 0 {
        if !(s[k - 1] == a && s[k] == b) {
            lemma_counted_upto_occurs(s, a, b, k - 1);
        }
    }
}

/// Two pairs that are both the best of `s` are the same pair.
pub proof fn lemma_best_unique(s: Seq<usize>, a: usize, b: usize, c: usize, d: usize)
    requires
        is_best(s, a, b),
        is_best(s, c, d),
    ensures
        a == c && b == d,
{
    assert(pair_count(s, c, d) == pair_count(s, c, d));
    assert(pair_count(s, a, b) == pair_count(s, a, b));
}

/// The best pair of `s` exists and is the one `best_pair` picks.
pub proof fn lemma_best_pair_is(s: Seq<usize>, a: usize, b: usize)
    requires
        is_best(s, a, b),
    ensures
        best_pair(s) == (a, b),
{
    let p = best_pair(s);
    assert(is_best(s, (a, b).0, (a, b).1));
    lemma_best_unique(s, a, b, p.0, p.1);
}

/// Counts every adjacent pair of `data`, overlapping windows included.
/// The table lists each distinct pair once, in order of first occurrence.
pub fn get_pair_frequencies(data: &[usize]) -> (r: Vec<(usize, usize, usize)>)
    ensures
        is_frequency_table(data@, r@),
        data@.len() >= 2 ==> r@.len() > 0,
{
    let mut table: Vec<(usize, usize, usize)> = Vec::new();
    if data.len() < 2 {
        return table;
    }
    let ghost s = data@;
    let mut i: usize = 0;
    while i < data.len() - 1
        invariant
            s == data@,
            s.len() >= 2,
            i + 1 <= s.len(),
            i > 0 ==> table@.len() > 0,
            forall|j: int|
                0 <= j < table@.len() ==> #[trigger] table@[j].2 == pair_count_upto(
                    s,
                    table@[j].0,
                    table@[j].1,
                    i as int,
                ) && table@[j].2 > 0,
            forall|j1: int, j2: int|
                0 <= j1 < table@.len() && 0 <= j2 < table@.len() && j1 != j2 ==> (
                #[trigger] table@[j1].0 != #[trigger] table@[j2].0 || table@[j1].1
                    != table@[j2].1),
            forall|a: usize, b: usize|
                #[trigger] pair_count_upto(s, a, b, i as int) > 0 ==> exists|j: int|
                    0 <= j < table@.len() && #[trigger] table@[j].0 == a && table@[j].1 == b,
        decreases s.len() - i,
    {
        let a = data[i];
        let b = data[i + 1];
        let mut j: usize = 0;
        let mut found = false;
        while j < table.len() && !found
            invariant
                j <= table@.len(),
                found ==> j < table@.len() && table@[j as int].0 == a && table@[j as int].1 == b,
                !found ==> forall|k: int|
                    0 <= k < j ==> !(#[trigger] table@[k].0 == a && table@[k].1 == b),
            decreases table@.len() - j + if found {
                0int
            } else {
                1int
            },
        {
            if table[j].0 == a && table[j].1 == b {
                found = true;
            } else {
                j += 1;
            }
        }
        let ghost old_table = table@;
        let ghost ni = i + 1;
        assert forall|x: usize, y: usize|
            #![trigger pair_count_upto(s, x, y, ni as int)]
            pair_count_upto(s, x, y, ni as int) == pair_count_upto(s, x, y, i as int) + if x == a
                && y == b {
                1nat
            } else {
                0nat
            } by {}
        if found {
            let e = table[j];
            proof {
                assert(e.2 == pair_count_upto(s, a, b, i as int));
                lemma_pair_count_upto_bound(s, a, b, i as int);
            }
            table.set(j, (e.0, e.1, e.2 + 1));
        } else {
            table.push((a, b, 1));
        }
        i += 1;
        assert forall|x: usize, y: usize|
            #[trigger] pair_count_upto(s, x, y, i as int) > 0 implies exists|k: int|
                0 <= k < table@.len() && #[trigger] table@[k].0 == x && table@[k].1 == y by {
            if x == a && y == b {
                if found {
                    assert(table@[j as int].0 == x);
                } else {
                    assert(table@[old_table.len() as int].0 == x);
                }
            } else {
                assert(pair_count_upto(s, x, y, (i - 1) as int) > 0);
                let k = choose|k: int|
                    0 <= k < old_table.len() && #[trigger] old_table[k].0 == x && old_table[k].1
                        == y;
                assert(table@[k].0 == x);
            }
        }
    }
    table
}

/// The pair with the largest count in `data`; ties go to the lexicographically
/// smallest `(left, right)`.
pub fn most_frequent_pair(data: &[usize]) -> (r: (usize, usize))
    requires
        data@.len() >= 2,
    ensures
        is_best(data@, r.0, r.1),
        r == best_pair(data@),
{
    let table = get_pair_frequencies(data);
    let ghost s = data@;
    let mut best = table[0];
    let mut j: usize = 1;
    while j < table.len()
        invariant
            s == data@,
            is_frequency_table(s, table@),
            1 <= j <= table@.len(),
            exists|k: int| 0 <= k < table@.len() && #[trigger] table@[k] == best,
            forall|k: int|
                0 <= k < j ==> #[trigger] table@[k].2 < best.2 || (table@[k].2 == best.2
                    && pair_le(best.0, best.1, table@[k].0, table@[k].1)),
        decreases table@.len() - j,
    {
        let e = table[j];
        if e.2 > best.2 || (e.2 == best.2 && (e.0 < best.0 || (e.0 == best.0 && e.1 < best.1))) {
            best = e;
        }
        j += 1;
    }
    proof {
        let k = choose|k: int| 0 <= k < table@.len() && #[trigger] table@[k] == best;
        assert(table@[k].2 == pair_count(s, best.0, best.1));
        assert forall|c: usize, d: usize|
            #![trigger pair_count(s, c, d)]
            pair_count(s, c, d) < pair_count(s, best.0, best.1) || (pair_count(s, c, d)
                == pair_count(s, best.0, best.1) && pair_le(best.0, best.1, c, d)) by {
            if pair_count(s, c, d) > 0 {
                let m = choose|m: int| 0 <= m < table@.len() && #[trigger] table@[m].0 == c && table@[m].1 == d;
                assert(table@[m].2 == pair_count(s, c, d));
            }
        }
        lemma_best_pair_is(s, best.0, best.1);
    }
    (best.0, best.1)
}

/// The best pair among the windows of `s` that start before `k`.
spec fn best_window(s: Seq<usize>, k: int) -> (usize, usize)
    decreases k,
{
    if k <= 1 {
        (s[0], s[1])
    } else {
        let p = best_window(s, k - 1);
        let (c, d) = (s[k - 1], s[k]);
        let (nc, np) = (pair_count(s, c, d), pair_count(s, p.0, p.1));
        if nc > np || (nc == np && pair_le(c, d, p.0, p.1)) {
            (c, d)
        } else {
            p
        }
    }
}

proof fn lemma_occurs_counted(s: Seq<usize>, a: usize, b: usize, i: int, k: int)
    requires
        0 <= i < k < s.len(),
        s[i] == a && s[i + 1] == b,
    ensures
        pair_count_upto(s, a, b, k) > 0,
    decreases k,
{
    if i < k - 1 {
        lemma_occurs_counted(s, a, b, i, k - 1);
    }
}

proof fn lemma_best_window(s: Seq<usize>, k: int)
    requires
        1 <= k < s.len(),
    ensures
        exists|i: int| 0 <= i < k && #[trigger] s[i] == best_window(s, k).0 && s[i + 1] == best_window(s, k).1,
        forall|i: int|
            0 <= i < k ==> pair_count(s, #[trigger] s[i], s[i + 1]) < pair_count(s, best_window(s, k).0, best_window(s, k).1)
                || (pair_count(s, s[i], s[i + 1]) == pair_count(s, best_window(s, k).0, best_window(s, k).1)
                && pair_le(best_window(s, k).0, best_window(s, k).1, s[i], s[i + 1])),
    decreases k,
{
    if k > 1 {
        lemma_best_window(s, k - 1);
        let p = best_window(s, k - 1);
        if best_window(s, k) == p {
            let i = choose|i: int| 0 <= i < k - 1 && #[trigger] s[i] == p.0 && s[i + 1] == p.1;
            assert(s[i] == best_window(s, k).0);
        } else {
            assert(s[k - 1] == best_window(s, k).0);
        }
    } else {
        assert(s[0] == best_window(s, k).0);
    }
}

/// A sequence of two or more symbols has a best pair.
pub proof fn lemma_best_pair_exists(s: Seq<usize>)
    requires
        s.len() >= 2,
    ensures
        is_best(s, best_pair(s).0, best_pair(s).1),
{
    let k = s.len() - 1;
    lemma_best_window(s, k);
    let p = best_window(s, k);
    let i = choose|i: int| 0 <= i < k && #[trigger] s[i] == p.0 && s[i + 1] == p.1;
    lemma_occurs_counted(s, p.0, p.1, i, k);
    assert forall|c: usize, d: usize|
        #![trigger pair_count(s, c, d)]
        pair_count(s, c, d) < pair_count(s, p.0, p.1) || (pair_count(s, c, d) == pair_count(
            s,
            p.0,
            p.1,
        ) && pair_le(p.0, p.1, c, d)) by {
        if pair_count(s, c, d) > 0 {
            lemma_counted_pair_occurs(s, c, d);
            let j = choose|j: int| 0 <= j && j + 1 < s.len() && #[trigger] s[j] == c && s[j + 1] == d;
            assert(pair_count(s, s[j], s[j + 1]) == pair_count(s, c, d));
        }
    }
    lemma_best_pair_is(s, p.0, p.1);
}

} // verus!
