use vstd::prelude::*;

use crate::codec::{
    decode_spec, encode_spec, lemma_encode_symbols_bound, lemma_round_trip, rules_valid,
    symbols_from_bytes, symbols_of, tokens_known,
};
use crate::merge::merge;
use crate::pairs::{
    best_pair, is_best, lemma_best_pair_exists, lemma_best_unique, lemma_counted_pair_occurs,
    most_frequent_pair,
};
use crate::{BpeError, Rule};

verus! {

/// The rules that `n` rounds of training learn from `s`, or `None` when the
/// sequence is left with fewer than two symbols before round `n`.
/// Round `k` merges the best pair of the sequence so far into symbol `256 + k`.
pub open spec fn train_spec(s: Seq<usize>, n: nat) -> Option<Seq<Rule>>
    decreases n,
{
    if n == 0 {
        Some(Seq::empty())
    } else {
        match train_spec(s, (n - 1) as nat) {
            None => None,
            Some(rules) => {
                let cur = encode_spec(s, rules);
                if cur.len() < 2 {
                    None
                } else {
                    let p = best_pair(cur);
                    Some(rules.push(((256 + n - 1) as usize, p.0, p.1)))
                }
            },
        }
    }
}

/// Each rule `k` merges into `256 + k` the best pair of the sequence that the
/// rules before it leave.
pub open spec fn follows_best(s: Seq<usize>, rules: Seq<Rule>) -> bool {
    forall|k: int|
        0 <= k < rules.len() ==> (#[trigger] rules[k]).0 == 256 + k && is_best(
            encode_spec(s, rules.take(k)),
            rules[k].1,
            rules[k].2,
        )
}

/// Learns `n` merge rules from `bytes`. Fails with `InsufficientData` when
/// fewer than two symbols are left before the `n`-th merge.
pub fn train(bytes: &[u8], n: usize) -> (r: Result<Vec<Rule>, BpeError>)
    requires
        n <= usize::MAX - 255,
    ensures
        match r {
            Ok(rules) => train_spec(symbols_of(bytes@), n as nat) == Some(rules@) && rules@.len()
                == n && rules_valid(rules@) && follows_best(symbols_of(bytes@), rules@),
            Err(e) => e == BpeError::InsufficientData && train_spec(symbols_of(bytes@), n as nat)
                == None::<Seq<Rule>>,
        },
{
    let mut data = symbols_from_bytes(bytes);
    let ghost s = data@;
    let mut merges: Vec<Rule> = Vec::new();
    let mut i: usize = 0;
    while i < n
        invariant
            n <= usize::MAX - 255,
            s == symbols_of(bytes@),
            i <= n,
            train_spec(s, i as nat) == Some(merges@),
            data@ == encode_spec(s, merges@),
        decreases n - i,
    {
        if data.len() < 2 {
            proof {
                lemma_train_stops(s, (i + 1) as nat, n as nat);
            }
            return Err(BpeError::InsufficientData);
        }
        let pair = most_frequent_pair(data.as_slice());
        let id = 256 + i;
        data = merge(data.as_slice(), pair, id);
        let ghost prev = merges@;
        merges.push((id, pair.0, pair.1));
        assert(merges@.drop_last() =~= prev);
        i += 1;
    }
    proof {
        lemma_train_shape(s, n as nat);
        assert forall|j: int| 0 <= j < s.len() implies #[trigger] s[j] < 256 by {}
        lemma_train_valid(s, n as nat);
    }
    Ok(merges)
}

/// Once training has run out of pairs, it stays out of pairs for more rounds.
pub proof fn lemma_train_stops(s: Seq<usize>, m: nat, n: nat)
    requires
        train_spec(s, m) == None::<Seq<Rule>>,
        m <= n,
    ensures
        train_spec(s, n) == None::<Seq<Rule>>,
    decreases n - m,
{
    if m < n {
        lemma_train_stops(s, m, (n - 1) as nat);
    }
}

/// Training for `n` rounds gives exactly `n` rules, with ids `256, 257, ...`
/// in order, each merging the best pair of the sequence left so far.
pub proof fn lemma_train_shape(s: Seq<usize>, n: nat)
    requires
        n <= usize::MAX - 255,
        train_spec(s, n) is Some,
    ensures
        train_spec(s, n).unwrap().len() == n,
        follows_best(s, train_spec(s, n).unwrap()),
    decreases n,
{
    if n > 0 {
        lemma_train_shape(s, (n - 1) as nat);
        let prev = train_spec(s, (n - 1) as nat).unwrap();
        let rules = train_spec(s, n).unwrap();
        let cur = encode_spec(s, prev);
        let p = best_pair(cur);
        assert(cur.len() >= 2);
        lemma_best_pair_exists(cur);
        assert forall|k: int| 0 <= k < rules.len() implies (#[trigger] rules[k]).0 == 256 + k
            && is_best(encode_spec(s, rules.take(k)), rules[k].1, rules[k].2) by {
            if k < prev.len() {
                assert(rules[k] == prev[k]);
                assert(rules.take(k) =~= prev.take(k));
            } else {
                assert(rules.take(k) =~= prev);
            }
        }
    }
}

/// The rules that training learns are well formed: rule `k` defines `256 + k`
/// from bytes and symbols defined before it.
pub proof fn lemma_train_valid(s: Seq<usize>, n: nat)
    requires
        n <= usize::MAX - 255,
        forall|i: int| 0 <= i < s.len() ==> #[trigger] s[i] < 256,
        train_spec(s, n) is Some,
    ensures
        rules_valid(train_spec(s, n).unwrap()),
    decreases n,
{
    if n > 0 {
        lemma_train_valid(s, (n - 1) as nat);
        lemma_train_shape(s, (n - 1) as nat);
        let prev = train_spec(s, (n - 1) as nat).unwrap();
        let rules = train_spec(s, n).unwrap();
        let cur = encode_spec(s, prev);
        lemma_encode_symbols_bound(s, prev);
        lemma_best_pair_exists(cur);
        let p = best_pair(cur);
        lemma_counted_pair_occurs(cur, p.0, p.1);
        let i = choose|i: int| 0 <= i && i + 1 < cur.len() && #[trigger] cur[i] == p.0 && cur[i + 1] == p.1;
        assert(cur[i] < 256 + prev.len());
        assert(cur[i + 1] < 256 + prev.len());
        assert forall|k: int| 0 <= k < rules.len() implies (#[trigger] rules[k]).0 == 256 + k
            && rules[k].1 < 256 + k && rules[k].2 < 256 + k by {
            if k < prev.len() {
                assert(rules[k] == prev[k]);
            }
        }
    }
}

/// Round trip after training: when training on `bytes` for `n` rounds
/// succeeds, decoding the encoding of `bytes` under the learned rules succeeds
/// and gives back `bytes`.
pub proof fn lemma_train_round_trip(bytes: Seq<u8>, n: nat)
    requires
        n <= usize::MAX - 255,
        train_spec(symbols_of(bytes), n) is Some,
    ensures
        rules_valid(train_spec(symbols_of(bytes), n).unwrap()),
        tokens_known(
            train_spec(symbols_of(bytes), n).unwrap(),
            encode_spec(symbols_of(bytes), train_spec(symbols_of(bytes), n).unwrap()),
        ),
        decode_spec(
            train_spec(symbols_of(bytes), n).unwrap(),
            encode_spec(symbols_of(bytes), train_spec(symbols_of(bytes), n).unwrap()),
        ) == bytes,
{
    let s = symbols_of(bytes);
    assert forall|i: int| 0 <= i < s.len() implies #[trigger] s[i] < 256 by {}
    lemma_train_valid(s, n);
    lemma_round_trip(bytes, train_spec(s, n).unwrap());
}

/// Determinism: the tie-break leaves no choice, so two rule lists of the same
/// length that each merge the best pair at every step are equal.
pub proof fn lemma_train_deterministic(s: Seq<usize>, r1: Seq<Rule>, r2: Seq<Rule>)
    requires
        follows_best(s, r1),
        follows_best(s, r2),
        r1.len() == r2.len(),
    ensures
        r1 == r2,
{
    assert forall|k: int| 0 <= k <= r1.len() implies r1.take(k) == r2.take(k) by {
        lemma_same_prefix(s, r1, r2, k);
    }
    assert(r1.take(r1.len() as int) =~= r1);
    assert(r2.take(r2.len() as int) =~= r2);
}

proof fn lemma_same_prefix(s: Seq<usize>, r1: Seq<Rule>, r2: Seq<Rule>, k: int)
    requires
        follows_best(s, r1),
        follows_best(s, r2),
        r1.len() == r2.len(),
        0 <= k <= r1.len(),
    ensures
        r1.take(k) == r2.take(k),
    decreases k,
{
    if k == 0 {
        assert(r1.take(0) =~= r2.take(0));
    } else {
        lemma_same_prefix(s, r1, r2, k - 1);
        let j = k - 1;
        assert(r1[j].0 == r2[j].0);
        lemma_best_unique(encode_spec(s, r1.take(j)), r1[j].1, r1[j].2, r2[j].1, r2[j].2);
        assert(r1.take(k) =~= r1.take(j).push(r1[j]));
        assert(r2.take(k) =~= r2.take(j).push(r2[j]));
    }
}

} // verus!
