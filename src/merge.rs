use vstd::prelude::*;

verus! {

/// `s` after one left-to-right pass that replaces each non-overlapping
/// occurrence of the adjacent pair `(a, b)` by `id`.
pub open spec fn merge_spec(s: Seq<usize>, a: usize, b: usize, id: usize) -> Seq<usize>
    decreases s.len(),
{
    if s.len() == 0 {
        s
    } else if s.len() >= 2 && s[0] == a && s[1] == b {
        seq![id] + merge_spec(s.skip(2), a, b, id)
    } else {
        seq![s[0]] + merge_spec(s.skip(1), a, b, id)
    }
}

/// Every symbol of a merged sequence is the new symbol or one of the input.
pub proof fn lemma_merge_symbols(s: Seq<usize>, a: usize, b: usize, id: usize)
    ensures
        forall|k: int|
            0 <= k < merge_spec(s, a, b, id).len() ==> #[trigger] merge_spec(s, a, b, id)[k] == id
                || s.contains(merge_spec(s, a, b, id)[k]),
    decreases s.len(),
{
    if s.len() == 0 {
    } else if s.len() >= 2 && s[0] == a && s[1] == b {
        let t = s.skip(2);
        lemma_merge_symbols(t, a, b, id);
        assert forall|k: int|
            0 <= k < merge_spec(s, a, b, id).len() implies #[trigger] merge_spec(s, a, b, id)[k]
                == id || s.contains(merge_spec(s, a, b, id)[k]) by {
            if k > 0 {
                let x = merge_spec(t, a, b, id)[k - 1];
                if x != id {
                    let m = choose|m: int| 0 <= m < t.len() && t[m] == x;
                    assert(s[m + 2] == x);
                }
            }
        }
    } else {
        let t = s.skip(1);
        lemma_merge_symbols(t, a, b, id);
        assert forall|k: int|
            0 <= k < merge_spec(s, a, b, id).len() implies #[trigger] merge_spec(s, a, b, id)[k]
                == id || s.contains(merge_spec(s, a, b, id)[k]) by {
            if k > 0 {
                let x = merge_spec(t, a, b, id)[k - 1];
                if x != id {
                    let m = choose|m: int| 0 <= m < t.len() && t[m] == x;
                    assert(s[m + 1] == x);
                }
            } else {
                assert(s[0] == s[0]);
            }
        }
    }
}

/// Replaces, scanning left to right, each non-overlapping occurrence of the
/// adjacent pair `ids` by the symbol `idx`.
pub fn merge(data: &[usize], ids: (usize, usize), idx: usize) -> (r: Vec<usize>)
    ensures
        r@ == merge_spec(data@, ids.0, ids.1, idx),
{
    let ghost s = data@;
    let mut merged: Vec<usize> = Vec::new();
    let mut i: usize = 0;
    assert(s.skip(0) =~= s);
    assert(merged@ + merge_spec(s, ids.0, ids.1, idx) =~= merge_spec(s, ids.0, ids.1, idx));
    while i < data.len()
        invariant
            s == data@,
            i <= s.len(),
            merged@ + merge_spec(s.skip(i as int), ids.0, ids.1, idx) == merge_spec(s, ids.0, ids.1, idx),
        decreases s.len() - i,
    {
        let ghost rest = s.skip(i as int);
        if i < data.len() - 1 && data[i] == ids.0 && data[i + 1] == ids.1 {
            assert(rest.skip(2) =~= s.skip(i + 2));
            merged.push(idx);
            i += 2;
        } else {
            assert(rest.skip(1) =~= s.skip(i + 1));
            merged.push(data[i]);
            i += 1;
        }
        assert(merged@ + merge_spec(s.skip(i as int), ids.0, ids.1, idx) =~= merge_spec(s, ids.0, ids.1, idx));
    }
    assert(merged@ =~= merge_spec(s, ids.0, ids.1, idx));
    merged
}

} // verus!
