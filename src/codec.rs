use vstd::prelude::*;

use crate::merge::{lemma_merge_symbols, merge, merge_spec};
use crate::{BpeError, Rule};

verus! {

/// One symbol per byte, with the byte's value as its id.
pub open spec fn symbols_of(bytes: Seq<u8>) -> Seq<usize> {
    bytes.map_values(|x: u8| x as usize)
}

/// `s` after the merges of `rules`, applied in order.
pub open spec fn encode_spec(s: Seq<usize>, rules: Seq<Rule>) -> Seq<usize>
    decreases rules.len(),
{
    if rules.len() == 0 {
        s
    } else {
        let r = rules.last();
        merge_spec(encode_spec(s, rules.drop_last()), r.1, r.2, r.0)
    }
}

/// Rule `k` defines symbol `256 + k` from bytes and symbols defined before it.
pub open spec fn rules_valid(rules: Seq<Rule>) -> bool {
    forall|k: int|
        0 <= k < rules.len() ==> (#[trigger] rules[k]).0 == 256 + k && rules[k].1 < 256 + k
            && rules[k].2 < 256 + k
}

/// Every token has a vocabulary entry under `rules`.
pub open spec fn tokens_known(rules: Seq<Rule>, tokens: Seq<usize>) -> bool {
    forall|i: int| 0 <= i < tokens.len() ==> #[trigger] tokens[i] < 256 + rules.len()
}

/// The bytes that symbol `t` stands for: a byte for itself, a merged symbol
/// for the expansion of its left operand followed by that of its right one.
pub open spec fn expand(rules: Seq<Rule>, t: usize) -> Seq<u8>
    decreases t,
{
    if t < 256 {
        seq![t as u8]
    } else if t - 256 < rules.len() && rules[t - 256].1 < t && rules[t - 256].2 < t {
        expand(rules, rules[t - 256].1) + expand(rules, rules[t - 256].2)
    } else {
        Seq::empty()
    }
}

/// The expansions of `tokens`, concatenated in order.
pub open spec fn decode_spec(rules: Seq<Rule>, tokens: Seq<usize>) -> Seq<u8>
    decreases tokens.len(),
{
    if tokens.len() == 0 {
        Seq::empty()
    } else {
        expand(rules, tokens[0]) + decode_spec(rules, tokens.skip(1))
    }
}

/// Concatenation of two byte strings.
pub fn concat(vec1: &[u8], vec2: &[u8]) -> (r: Vec<u8>)
    ensures
        r@ == vec1@ + vec2@,
{
    let mut out: Vec<u8> = Vec::new();
    append(&mut out, vec1);
    append(&mut out, vec2);
    out
}

fn append(out: &mut Vec<u8>, src: &[u8])
    ensures
        final(out)@ == old(out)@ + src@,
{
    let ghost start = out@;
    let mut i: usize = 0;
    while i < src.len()
        invariant
            i <= src@.len(),
            out@ == start + src@.take(i as int),
        decreases src@.len() - i,
    {
        out.push(src[i]);
        i += 1;
        assert(out@ =~= start + src@.take(i as int));
    }
    assert(src@.take(src@.len() as int) =~= src@);
}

pub(crate) fn symbols_from_bytes(bytes: &[u8]) -> (r: Vec<usize>)
    ensures
        r@ == symbols_of(bytes@),
{
    let mut data: Vec<usize> = Vec::new();
    let mut i: usize = 0;
    while i < bytes.len()
        invariant
            i <= bytes@.len(),
            data@ == symbols_of(bytes@.take(i as int)),
        decreases bytes@.len() - i,
    {
        data.push(bytes[i] as usize);
        i += 1;
        assert(data@ =~= symbols_of(bytes@.take(i as int)));
    }
    assert(bytes@.take(bytes@.len() as int) =~= bytes@);
    data
}

/// The token sequence of `bytes`: every rule of `merges`, in order, applied to
/// the whole sequence.
pub fn encode(bytes: &[u8], merges: &Vec<Rule>) -> (r: Vec<usize>)
    ensures
        r@ == encode_spec(symbols_of(bytes@), merges@),
{
    let mut data = symbols_from_bytes(bytes);
    let ghost s = data@;
    let mut k: usize = 0;
    while k < merges.len()
        invariant
            s == symbols_of(bytes@),
            k <= merges@.len(),
            data@ == encode_spec(s, merges@.take(k as int)),
        decreases merges@.len() - k,
    {
        let (index, a, b) = merges[k];
        assert(merges@.take(k + 1).drop_last() =~= merges@.take(k as int));
        data = merge(data.as_slice(), (a, b), index);
        k += 1;
    }
    assert(merges@.take(merges@.len() as int) =~= merges@);
    data
}

/// Whether `merges` is a well-formed rule list: rule `k` has id `256 + k` and
/// refers only to bytes and to symbols defined before it.
pub fn rules_are_valid(merges: &Vec<Rule>) -> (r: bool)
    ensures
        r == rules_valid(merges@),
{
    let mut k: usize = 0;
    while k < merges.len()
        invariant
            k <= merges@.len(),
            forall|j: int|
                0 <= j < k ==> (#[trigger] merges@[j]).0 == 256 + j && merges@[j].1 < 256 + j
                    && merges@[j].2 < 256 + j,
        decreases merges@.len() - k,
    {
        let (index, a, b) = merges[k];
        if k > usize::MAX - 256 || index != 256 + k || a >= index || b >= index {
            assert(!((merges@[k as int]).0 == 256 + k && merges@[k as int].1 < 256 + k
                && merges@[k as int].2 < 256 + k));
            return false;
        }
        k += 1;
    }
    true
}

/// Decoding a concatenation concatenates the decodings.
pub proof fn lemma_decode_append(rules: Seq<Rule>, s1: Seq<usize>, s2: Seq<usize>)
    ensures
        decode_spec(rules, s1 + s2) == decode_spec(rules, s1) + decode_spec(rules, s2),
    decreases s1.len(),
{
    if s1.len() == 0 {
        assert(s1 + s2 =~= s2);
        assert(decode_spec(rules, s1) + decode_spec(rules, s2) =~= decode_spec(rules, s2));
    } else {
        lemma_decode_append(rules, s1.skip(1), s2);
        assert((s1 + s2).skip(1) =~= s1.skip(1) + s2);
        assert((s1 + s2)[0] == s1[0]);
        assert(decode_spec(rules, s1 + s2) =~= decode_spec(rules, s1) + decode_spec(rules, s2));
    }
}

/// The vocabulary of `merges`: entry `t` holds the bytes of symbol `t`.
fn build_vocab(merges: &Vec<Rule>) -> (vocab: Vec<Vec<u8>>)
    requires
        rules_valid(merges@),
    ensures
        vocab@.len() == 256 + merges@.len(),
        forall|t: int| 0 <= t < vocab@.len() ==> (#[trigger] vocab@[t])@ == expand(merges@, t as usize),
{
    let mut vocab: Vec<Vec<u8>> = Vec::new();
    let mut i: usize = 0;
    while i < 256
        invariant
            i <= 256,
            vocab@.len() == i,
            forall|t: int| 0 <= t < vocab@.len() ==> (#[trigger] vocab@[t])@ == expand(merges@, t as usize),
        decreases 256 - i,
    {
        let entry: Vec<u8> = vec![i as u8];
        assert(entry@ =~= expand(merges@, i));
        vocab.push(entry);
        i += 1;
    }
    let mut k: usize = 0;
    while k < merges.len()
        invariant
            rules_valid(merges@),
            k <= merges@.len(),
            vocab@.len() == 256 + k,
            forall|t: int| 0 <= t < vocab@.len() ==> (#[trigger] vocab@[t])@ == expand(merges@, t as usize),
        decreases merges@.len() - k,
    {
        let (index, a, b) = merges[k];
        assert(merges@[k as int].0 == 256 + k);
        let entry = concat(vocab[a].as_slice(), vocab[b].as_slice());
        assert(entry@ == expand(merges@, index));
        vocab.push(entry);
        k += 1;
    }
    vocab
}

/// The bytes that `tokens` stand for under `merges`.
/// Fails with `MalformedRules` when the rule list is not well formed, and with
/// `UnknownToken` when a token has no vocabulary entry.
pub fn decode(tokens: &[usize], merges: &Vec<Rule>) -> (r: Result<Vec<u8>, BpeError>)
    ensures
        match r {
            Ok(bytes) => rules_valid(merges@) && tokens_known(merges@, tokens@) && bytes@
                == decode_spec(merges@, tokens@),
            Err(BpeError::MalformedRules) => !rules_valid(merges@),
            Err(BpeError::UnknownToken) => rules_valid(merges@) && !tokens_known(merges@, tokens@),
            Err(BpeError::InsufficientData) => false,
        },
{
    if !rules_are_valid(merges) {
        return Err(BpeError::MalformedRules);
    }
    let vocab = build_vocab(merges);
    let ghost rules = merges@;
    let mut out: Vec<u8> = Vec::new();
    let mut i: usize = 0;
    while i < tokens.len()
        invariant
            rules == merges@,
            rules_valid(rules),
            i <= tokens@.len(),
            vocab@.len() == 256 + rules.len(),
            forall|t: int| 0 <= t < vocab@.len() ==> (#[trigger] vocab@[t])@ == expand(rules, t as usize),
            forall|j: int| 0 <= j < i ==> #[trigger] tokens@[j] < 256 + rules.len(),
            out@ == decode_spec(rules, tokens@.take(i as int)),
        decreases tokens@.len() - i,
    {
        let t = tokens[i];
        if t >= vocab.len() {
            assert(tokens@[i as int] >= 256 + rules.len());
            return Err(BpeError::UnknownToken);
        }
        proof {
            let one = seq![t];
            assert(tokens@.take(i + 1) =~= tokens@.take(i as int) + one);
            lemma_decode_append(rules, tokens@.take(i as int), one);
            assert(one.skip(1) =~= Seq::<usize>::empty());
            assert(decode_spec(rules, one.skip(1)) == Seq::<u8>::empty());
            assert(decode_spec(rules, one) =~= expand(rules, t));
        }
        append(&mut out, vocab[t].as_slice());
        i += 1;
    }
    assert(tokens@.take(tokens@.len() as int) =~= tokens@);
    Ok(out)
}

/// Merging `(a, b)` into a symbol that expands to their expansions leaves the
/// decoded bytes unchanged.
pub proof fn lemma_merge_keeps_decode(
    rules: Seq<Rule>,
    s: Seq<usize>,
    a: usize,
    b: usize,
    id: usize,
)
    requires
        expand(rules, id) == expand(rules, a) + expand(rules, b),
    ensures
        decode_spec(rules, merge_spec(s, a, b, id)) == decode_spec(rules, s),
    decreases s.len(),
{
    if s.len() == 0 {
    } else if s.len() >= 2 && s[0] == a && s[1] == b {
        let t = s.skip(2);
        lemma_merge_keeps_decode(rules, t, a, b, id);
        let m = merge_spec(s, a, b, id);
        assert(m[0] == id);
        assert(m.skip(1) =~= merge_spec(t, a, b, id));
        assert(s.skip(1).skip(1) =~= t);
        assert(s.skip(1)[0] == b);
        assert(decode_spec(rules, m) == expand(rules, id) + decode_spec(rules, t));
        assert(decode_spec(rules, s.skip(1)) == expand(rules, b) + decode_spec(rules, t));
        assert(decode_spec(rules, s) == expand(rules, a) + decode_spec(rules, s.skip(1)));
        assert(decode_spec(rules, m) =~= decode_spec(rules, s));
    } else {
        let t = s.skip(1);
        lemma_merge_keeps_decode(rules, t, a, b, id);
        let m = merge_spec(s, a, b, id);
        assert(m[0] == s[0]);
        assert(m.skip(1) =~= merge_spec(t, a, b, id));
    }
}

/// Under valid rules, every prefix of the rule list keeps the decoded bytes.
pub proof fn lemma_encode_keeps_decode(rules: Seq<Rule>, s: Seq<usize>, k: int)
    requires
        rules_valid(rules),
        0 <= k <= rules.len(),
    ensures
        decode_spec(rules, encode_spec(s, rules.take(k))) == decode_spec(rules, s),
    decreases k,
{
    if k == 0 {
        assert(rules.take(0).len() == 0);
    } else {
        lemma_encode_keeps_decode(rules, s, k - 1);
        let r = rules[k - 1];
        assert(rules.take(k).drop_last() =~= rules.take(k - 1));
        assert(rules.take(k).last() == r);
        assert(r.0 == 256 + (k - 1));
        assert(expand(rules, r.0) == expand(rules, r.1) + expand(rules, r.2));
        lemma_merge_keeps_decode(rules, encode_spec(s, rules.take(k - 1)), r.1, r.2, r.0);
    }
}

/// Decoding the symbols of a byte string gives back the byte string.
pub proof fn lemma_decode_symbols(rules: Seq<Rule>, bytes: Seq<u8>)
    ensures
        decode_spec(rules, symbols_of(bytes)) == bytes,
    decreases bytes.len(),
{
    if bytes.len() > 0 {
        lemma_decode_symbols(rules, bytes.skip(1));
        assert(symbols_of(bytes).skip(1) =~= symbols_of(bytes.skip(1)));
        assert(expand(rules, symbols_of(bytes)[0]) =~= seq![bytes[0]]);
        assert(decode_spec(rules, symbols_of(bytes)) =~= bytes);
    }
}

/// Under valid rules, every symbol of an encoding is a byte or a symbol that
/// the rules define.
pub proof fn lemma_encode_symbols_bound(s: Seq<usize>, rules: Seq<Rule>)
    requires
        rules_valid(rules),
        forall|i: int| 0 <= i < s.len() ==> #[trigger] s[i] < 256,
    ensures
        tokens_known(rules, encode_spec(s, rules)),
    decreases rules.len(),
{
    if rules.len() > 0 {
        let prev = rules.drop_last();
        assert forall|k: int| 0 <= k < prev.len() implies (#[trigger] prev[k]).0 == 256 + k
            && prev[k].1 < 256 + k && prev[k].2 < 256 + k by {
            assert(prev[k] == rules[k]);
        }
        lemma_encode_symbols_bound(s, prev);
        let r = rules.last();
        let cur = encode_spec(s, prev);
        assert(r == rules[rules.len() - 1]);
        lemma_merge_symbols(cur, r.1, r.2, r.0);
        let m = encode_spec(s, rules);
        assert forall|i: int| 0 <= i < m.len() implies #[trigger] m[i] < 256 + rules.len() by {
            if m[i] != r.0 {
                let j = choose|j: int| 0 <= j < cur.len() && cur[j] == m[i];
                assert(cur[j] < 256 + prev.len());
            }
        }
    }
}

/// Round trip: under any valid rule list, decoding the encoding of a byte
/// string succeeds and gives back the byte string.
pub proof fn lemma_round_trip(bytes: Seq<u8>, rules: Seq<Rule>)
    requires
        rules_valid(rules),
    ensures
        tokens_known(rules, encode_spec(symbols_of(bytes), rules)),
        decode_spec(rules, encode_spec(symbols_of(bytes), rules)) == bytes,
{
    let s = symbols_of(bytes);
    assert forall|i: int| 0 <= i < s.len() implies #[trigger] s[i] < 256 by {}
    lemma_encode_symbols_bound(s, rules);
    lemma_encode_keeps_decode(rules, s, rules.len() as int);
    assert(rules.take(rules.len() as int) =~= rules);
    lemma_decode_symbols(rules, bytes);
}

/// A byte token decodes to that byte, whatever the rules.
pub proof fn lemma_decode_byte_token(rules: Seq<Rule>, t: usize)
    requires
        t < 256,
    ensures
        decode_spec(rules, seq![t]) == seq![t as u8],
{
    assert(seq![t].skip(1) =~= Seq::<usize>::empty());
    assert(decode_spec(rules, seq![t].skip(1)) == Seq::<u8>::empty());
    assert(decode_spec(rules, seq![t]) =~= seq![t as u8]);
}

} // verus!
