use crate::strmap::StrMap;
use crate::json::{json_object_keys, parse_object_keys};
use crate::text::{lowercase, string_from_chars, to_lowercase};
use crate::tokens::{
    contains_token, decoded, index_tokens, indexes_last, last_index_map, lemma_decoded_append,
    lemma_last_index_map, names_tokens,
    token_views,
};
use std::collections::HashMap;
use vstd::prelude::*;
use vstd::utf8::encode_utf8;

verus! {

broadcast use {vstd::std_specs::hash::group_hash_axioms, vstd::string::group_string_axioms};

/// The pairs of neighbours in `s`, in order.
pub open spec fn neighbour_pairs<T>(s: Seq<T>) -> Seq<(T, T)> {
    Seq::new((s.len() - 1) as nat, |i: int| (s[i], s[i + 1]))
}

/// Each element of `list` paired with the one after it.
pub fn vector_to_pairs<T: Copy>(list: &Vec<T>) -> (r: Vec<(T, T)>)
    requires
        list.len() >= 1,
    ensures
        r@ == neighbour_pairs(list@),
{
    let mut ret: Vec<(T, T)> = Vec::new();
    for item in 0..list.len() - 1
        invariant
            list.len() >= 1,
            ret@ == neighbour_pairs(list@).take(item as int),
    {
        ret.push((list[item], list[item + 1]));
        assert(ret@ =~= neighbour_pairs(list@).take(item + 1));
    }
    assert(neighbour_pairs(list@).take(list.len() - 1) =~= neighbour_pairs(list@));
    ret
}

/// How often `p` occurs in `s`.
pub open spec fn occurrences(s: Seq<(usize, usize)>, p: (usize, usize)) -> nat
    decreases s.len(),
{
    if s.len() == 0 {
        0
    } else {
        occurrences(s.drop_last(), p) + if s.last() == p {
            1nat
        } else {
            0nat
        }
    }
}

proof fn lemma_occurrences_bound(s: Seq<(usize, usize)>, p: (usize, usize))
    ensures
        occurrences(s, p) <= s.len(),
        occurrences(s, p) > 0 <==> s.contains(p),
    decreases s.len(),
{
    if s.len() > 0 {
        lemma_occurrences_bound(s.drop_last(), p);
        if s.drop_last().contains(p) {
            let j = choose|j: int| 0 <= j < s.drop_last().len() && s.drop_last()[j] == p;
            assert(s[j] == p);
        }
        if s.contains(p) && s.last() != p {
            let j = choose|j: int| 0 <= j < s.len() && s[j] == p;
            assert(s.drop_last()[j] == p);
        }
    }
}

/// The single number that stands for a pair in the counting table.
pub open spec fn pair_key(p: (usize, usize)) -> u128 {
    (p.0 as u128 * 0x1_0000_0000_0000_0000u128 + p.1 as u128) as u128
}

fn pack_pair(p: (usize, usize)) -> (k: u128)
    ensures
        k == pair_key(p),
{
    assert(p.0 as u128 * 0x1_0000_0000_0000_0000u128 + p.1 as u128 <= u128::MAX) by (nonlinear_arith)
        requires
            p.0 <= u64::MAX,
            p.1 <= u64::MAX,
    ;
    p.0 as u128 * 0x1_0000_0000_0000_0000u128 + p.1 as u128
}

proof fn lemma_pair_key_injective(p: (usize, usize), q: (usize, usize))
    ensures
        pair_key(p) == pair_key(q) ==> p == q,
{
    let a = p.0 as int;
    let b = p.1 as int;
    let c = q.0 as int;
    let d = q.1 as int;
    assert(a * 0x1_0000_0000_0000_0000 + b <= u128::MAX) by (nonlinear_arith)
        requires
            0 <= a <= u64::MAX,
            0 <= b <= u64::MAX,
    ;
    assert(c * 0x1_0000_0000_0000_0000 + d <= u128::MAX) by (nonlinear_arith)
        requires
            0 <= c <= u64::MAX,
            0 <= d <= u64::MAX,
    ;
    assert(a * 0x1_0000_0000_0000_0000 + b == c * 0x1_0000_0000_0000_0000 + d ==> a == c && b == d)
        by (nonlinear_arith)
        requires
            0 <= b <= u64::MAX,
            0 <= d <= u64::MAX,
    ;
}

/// `counts` holds, under the key of each pair, how often it occurs in `s`,
/// and nothing for the pairs that do not occur.
pub open spec fn counts_of(counts: Map<u128, usize>, s: Seq<(usize, usize)>) -> bool {
    forall|p: (usize, usize)|
        #[trigger] counts.contains_key(pair_key(p)) == (occurrences(s, p) > 0) && (occurrences(s, p)
            > 0 ==> counts[pair_key(p)] == occurrences(s, p))
}

/// `p` occurs in `pairs` and no pair occurs more often; of the pairs that
/// occur as often, `p` is the one that comes first.
pub open spec fn first_most_common(pairs: Seq<(usize, usize)>, p: (usize, usize)) -> bool {
    &&& pairs.contains(p)
    &&& forall|q: (usize, usize)| occurrences(pairs, q) <= occurrences(pairs, p)
    &&& exists|j: int|
        0 <= j < pairs.len() && pairs[j] == p && forall|i: int|
            0 <= i < j ==> occurrences(pairs, #[trigger] pairs[i]) < occurrences(pairs, p)
}

/// A pair that occurs most often in `pairs` (the first such one), or `None`
/// when there are no pairs.
pub fn most_common_pair(pairs: &Vec<(usize, usize)>) -> (r: Option<(usize, usize)>)
    ensures
        r is None <==> pairs.len() == 0,
        r matches Some(p) ==> first_most_common(pairs@, p),
{
    let mut counts: HashMap<u128, usize> = HashMap::new();
    let mut i: usize = 0;
    while i < pairs.len()
        invariant
            i <= pairs.len(),
            counts_of(counts@, pairs@.take(i as int)),
        decreases pairs.len() - i,
    {
        let pair = pairs[i];
        let key = pack_pair(pair);
        let seen: usize = match counts.get(&key) {
            Some(c) => *c,
            None => 0,
        };
        proof {
            lemma_occurrences_bound(pairs@.take(i as int), pair);
            assert(seen == occurrences(pairs@.take(i as int), pair));
        }
        let ghost before = counts@;
        counts.insert(key, seen + 1);
        proof {
            assert(counts@ == before.insert(key, (seen + 1) as usize));
            let s2 = pairs@.take(i + 1);
            assert(s2.drop_last() =~= pairs@.take(i as int));
            assert(s2.last() == pair);
            assert forall|p: (usize, usize)|
                #[trigger] counts@.contains_key(pair_key(p)) == (occurrences(s2, p) > 0) && (
                occurrences(s2, p) > 0 ==> counts@[pair_key(p)] == occurrences(s2, p)) by {
                lemma_pair_key_injective(p, pair);
                assert(before.contains_key(pair_key(p)) == (occurrences(pairs@.take(i as int), p) > 0));
                assert(occurrences(s2, p) == occurrences(pairs@.take(i as int), p) + if pair == p {
                    1nat
                } else {
                    0nat
                });
            }
        }
        i += 1;
    }
    assert(pairs@.take(pairs.len() as int) =~= pairs@);
    let mut best: Option<(usize, usize)> = None;
    let mut best_count: usize = 0;
    let mut i: usize = 0;
    while i < pairs.len()
        invariant
            i <= pairs.len(),
            counts_of(counts@, pairs@),
            best is None <==> i == 0,
            best matches Some(p) ==> {
                &&& best_count == occurrences(pairs@, p)
                &&& exists|j: int|
                    0 <= j < i && pairs@[j] == p && forall|k: int|
                        0 <= k < j ==> occurrences(pairs@, #[trigger] pairs@[k]) < occurrences(pairs@, p)
                &&& forall|k: int| 0 <= k < i ==> occurrences(pairs@, #[trigger] pairs@[k]) <= best_count
            },
        decreases pairs.len() - i,
    {
        let pair = pairs[i];
        proof {
            lemma_occurrences_bound(pairs@, pair);
            assert(pairs@[i as int] == pair);
            assert(counts@.contains_key(pair_key(pair)));
        }
        let c: usize = *counts.get(&pack_pair(pair)).unwrap();
        if best.is_none() || c > best_count {
            best = Some(pair);
            best_count = c;
            proof {
                assert(pairs@[i as int] == pair);
            }
        }
        i += 1;
    }
    proof {
        if let Some(p) = best {
            let j = choose|j: int|
                0 <= j < pairs.len() && pairs@[j] == p && forall|k: int|
                    0 <= k < j ==> occurrences(pairs@, #[trigger] pairs@[k]) < occurrences(pairs@, p);
            assert(pairs@[j] == p);
            assert forall|q: (usize, usize)| occurrences(pairs@, q) <= occurrences(pairs@, p) by {
                lemma_occurrences_bound(pairs@, q);
                if occurrences(pairs@, q) > 0 {
                    let k = choose|k: int| 0 <= k < pairs.len() && pairs@[k] == q;
                    assert(occurrences(pairs@, pairs@[k]) <= best_count);
                }
            }
        }
    }
    best
}

/// The single characters of `input` that are tokens, as their ids, in order.
pub open spec fn char_tokens(input: Seq<char>, hash: Map<Seq<char>, usize>) -> Seq<usize>
    decreases input.len(),
{
    if input.len() == 0 {
        seq![]
    } else if hash.contains_key(seq![input.last()]) {
        char_tokens(input.drop_last(), hash).push(hash[seq![input.last()]])
    } else {
        char_tokens(input.drop_last(), hash)
    }
}

/// The characters of `input` that are tokens on their own, in order.
pub open spec fn known_chars(input: Seq<char>, hash: Map<Seq<char>, usize>) -> Seq<char>
    decreases input.len(),
{
    if input.len() == 0 {
        seq![]
    } else if hash.contains_key(seq![input.last()]) {
        known_chars(input.drop_last(), hash).push(input.last())
    } else {
        known_chars(input.drop_last(), hash)
    }
}

/// One merging pass from left to right: where the strings of two
/// neighbouring ids, joined, form a token, the two are replaced by it and the
/// pass goes on after them.
pub open spec fn merge_pass(toks: Seq<usize>, vocab: Seq<Seq<char>>, hash: Map<Seq<char>, usize>) -> Seq<usize>
    decreases toks.len(),
{
    if toks.len() == 0 {
        seq![]
    } else if toks.len() >= 2 && hash.contains_key(vocab[toks[0] as int] + vocab[toks[1] as int]) {
        seq![hash[vocab[toks[0] as int] + vocab[toks[1] as int]]] + merge_pass(toks.skip(2), vocab, hash)
    } else {
        seq![toks[0]] + merge_pass(toks.skip(1), vocab, hash)
    }
}

/// Up to `rounds` merging passes, stopping early once fewer than three ids are left.
pub open spec fn merge_rounds(
    toks: Seq<usize>,
    vocab: Seq<Seq<char>>,
    hash: Map<Seq<char>, usize>,
    rounds: nat,
) -> Seq<usize>
    decreases rounds,
{
    if rounds == 0 {
        toks
    } else {
        let merged = merge_pass(toks, vocab, hash);
        if merged.len() < 3 {
            merged
        } else {
            merge_rounds(merged, vocab, hash, (rounds - 1) as nat)
        }
    }
}

/// The length in bytes of `t` in UTF-8, as `str::len` gives it.
pub open spec fn byte_len(t: Seq<char>) -> nat {
    (encode_utf8(t).len() as usize) as nat
}

/// The length in bytes (UTF-8) of the longest token.
pub open spec fn longest_token_bytes(vocab: Seq<Seq<char>>) -> nat
    decreases vocab.len(),
{
    if vocab.len() == 0 {
        0
    } else {
        let rest = longest_token_bytes(vocab.drop_last());
        let here = byte_len(vocab.last());
        if here > rest {
            here
        } else {
            rest
        }
    }
}

/// What `tokenise_string` gives: the known single characters as ids, merged
/// in as many passes as the longest token has bytes.
pub open spec fn string_tokens(input: Seq<char>, vocab: Seq<Seq<char>>, hash: Map<Seq<char>, usize>) -> Seq<usize> {
    merge_rounds(char_tokens(input, hash), vocab, hash, longest_token_bytes(vocab))
}

/// Every merge attempt of a pass over `toks` looks up tokens that `vocab`
/// has: wherever two neighbours are compared, both ids are below its length.
pub open spec fn pass_in_range(toks: Seq<usize>, vocab: Seq<Seq<char>>, hash: Map<Seq<char>, usize>) -> bool
    decreases toks.len(),
{
    if toks.len() < 2 {
        true
    } else {
        &&& toks[0] < vocab.len()
        &&& toks[1] < vocab.len()
        &&& if hash.contains_key(vocab[toks[0] as int] + vocab[toks[1] as int]) {
            pass_in_range(toks.skip(2), vocab, hash)
        } else {
            pass_in_range(toks.skip(1), vocab, hash)
        }
    }
}

/// Every pass of `merge_rounds` looks up only tokens that `vocab` has.
pub open spec fn rounds_in_range(
    toks: Seq<usize>,
    vocab: Seq<Seq<char>>,
    hash: Map<Seq<char>, usize>,
    rounds: nat,
) -> bool
    decreases rounds,
{
    rounds == 0 || (pass_in_range(toks, vocab, hash) && (merge_pass(toks, vocab, hash).len() < 3
        || rounds_in_range(merge_pass(toks, vocab, hash), vocab, hash, (rounds - 1) as nat)))
}

/// `tokenise_string` can run on `input`: the vocabulary is not empty and
/// every token that its passes look up is there.
pub open spec fn can_tokenise_string(input: Seq<char>, vocab: Seq<Seq<char>>, hash: Map<Seq<char>, usize>) -> bool {
    vocab.len() > 0 && rounds_in_range(char_tokens(input, hash), vocab, hash, longest_token_bytes(vocab))
}

/// Every id that `hash` gives names a position of a vocabulary of `n` tokens.
pub open spec fn ids_below(hash: Map<Seq<char>, usize>, n: nat) -> bool {
    forall|s: Seq<char>| #[trigger] hash.contains_key(s) ==> hash[s] < n
}

pub open spec fn all_below(toks: Seq<usize>, n: nat) -> bool {
    forall|i: int| 0 <= i < toks.len() ==> #[trigger] toks[i] < n
}

proof fn lemma_char_tokens_below(input: Seq<char>, hash: Map<Seq<char>, usize>, n: nat)
    requires
        ids_below(hash, n),
    ensures
        all_below(char_tokens(input, hash), n),
        char_tokens(input, hash).len() <= input.len(),
    decreases input.len(),
{
    if input.len() > 0 {
        lemma_char_tokens_below(input.drop_last(), hash, n);
    }
}

proof fn lemma_merge_pass_below(toks: Seq<usize>, vocab: Seq<Seq<char>>, hash: Map<Seq<char>, usize>, n: nat)
    requires
        ids_below(hash, n),
        all_below(toks, n),
    ensures
        all_below(merge_pass(toks, vocab, hash), n),
        merge_pass(toks, vocab, hash).len() <= toks.len(),
    decreases toks.len(),
{
    if toks.len() > 0 {
        if toks.len() >= 2 && hash.contains_key(vocab[toks[0] as int] + vocab[toks[1] as int]) {
            lemma_merge_pass_below(toks.skip(2), vocab, hash, n);
        } else {
            lemma_merge_pass_below(toks.skip(1), vocab, hash, n);
        }
    }
}

proof fn lemma_merge_rounds_below(
    toks: Seq<usize>,
    vocab: Seq<Seq<char>>,
    hash: Map<Seq<char>, usize>,
    rounds: nat,
    n: nat,
)
    requires
        ids_below(hash, n),
        all_below(toks, n),
    ensures
        all_below(merge_rounds(toks, vocab, hash, rounds), n),
        merge_rounds(toks, vocab, hash, rounds).len() <= toks.len(),
    decreases rounds,
{
    if rounds > 0 {
        lemma_merge_pass_below(toks, vocab, hash, n);
        let merged = merge_pass(toks, vocab, hash);
        if merged.len() >= 3 {
            lemma_merge_rounds_below(merged, vocab, hash, (rounds - 1) as nat, n);
        }
    }
}

proof fn lemma_pass_in_range(toks: Seq<usize>, vocab: Seq<Seq<char>>, hash: Map<Seq<char>, usize>)
    requires
        all_below(toks, vocab.len()),
    ensures
        pass_in_range(toks, vocab, hash),
    decreases toks.len(),
{
    if toks.len() >= 2 {
        if hash.contains_key(vocab[toks[0] as int] + vocab[toks[1] as int]) {
            lemma_pass_in_range(toks.skip(2), vocab, hash);
        } else {
            lemma_pass_in_range(toks.skip(1), vocab, hash);
        }
    }
}

proof fn lemma_rounds_in_range(toks: Seq<usize>, vocab: Seq<Seq<char>>, hash: Map<Seq<char>, usize>, rounds: nat)
    requires
        all_below(toks, vocab.len()),
        ids_below(hash, vocab.len()),
    ensures
        rounds_in_range(toks, vocab, hash, rounds),
    decreases rounds,
{
    if rounds > 0 {
        lemma_pass_in_range(toks, vocab, hash);
        lemma_merge_pass_below(toks, vocab, hash, vocab.len());
        lemma_rounds_in_range(merge_pass(toks, vocab, hash), vocab, hash, (rounds - 1) as nat);
    }
}

/// A vocabulary whose index gives only ids it has can tokenise any input.
pub proof fn lemma_well_formed_can_tokenise(input: Seq<char>, vocab: Seq<Seq<char>>, hash: Map<Seq<char>, usize>)
    requires
        vocab.len() > 0,
        ids_below(hash, vocab.len()),
    ensures
        can_tokenise_string(input, vocab, hash),
{
    lemma_char_tokens_below(input, hash, vocab.len());
    lemma_rounds_in_range(char_tokens(input, hash), vocab, hash, longest_token_bytes(vocab));
}

/// The ids that `tokenise_string` gives all name tokens of the vocabulary,
/// and there are no more of them than known characters in the input.
pub proof fn lemma_string_tokens_in_vocabulary(
    input: Seq<char>,
    vocab: Seq<Seq<char>>,
    hash: Map<Seq<char>, usize>,
)
    requires
        ids_below(hash, vocab.len()),
    ensures
        all_below(string_tokens(input, vocab, hash), vocab.len()),
        string_tokens(input, vocab, hash).len() <= char_tokens(input, hash).len(),
{
    lemma_char_tokens_below(input, hash, vocab.len());
    lemma_merge_rounds_below(char_tokens(input, hash), vocab, hash, longest_token_bytes(vocab), vocab.len());
}

/// The number of merging passes: the length in bytes of the longest token.
fn longest_token_len(tokenset: &Vec<String>) -> (r: usize)
    ensures
        r == longest_token_bytes(token_views(tokenset@)),
{
    let ghost vocab = token_views(tokenset@);
    let mut longest: usize = 0;
    for i in 0..tokenset.len()
        invariant
            vocab == token_views(tokenset@),
            longest == longest_token_bytes(vocab.take(i as int)),
    {
        let here = tokenset[i].as_str().len();
        proof {
            assert(vocab.take(i + 1).drop_last() =~= vocab.take(i as int));
            assert(vocab.take(i + 1).last() == tokenset@[i as int]@);
            assert(here == byte_len(vocab.take(i + 1).last()));
        }
        if here > longest {
            longest = here;
        }
    }
    assert(vocab.take(tokenset.len() as int) =~= vocab);
    longest
}

/// One merging pass over `toks`.
fn merge_once(toks: &Vec<usize>, tokenset: &Vec<String>, tokenhash: &StrMap<usize>) -> (r: Vec<usize>)
    requires
        pass_in_range(toks@, token_views(tokenset@), tokenhash@),
    ensures
        r@ == merge_pass(toks@, token_views(tokenset@), tokenhash@),
{
    let ghost vocab = token_views(tokenset@);
    let mut merged: Vec<usize> = Vec::with_capacity(toks.len());
    let mut i: usize = 0;
    proof {
        assert(toks@.skip(0) =~= toks@);
        assert(merged@ + merge_pass(toks@, vocab, tokenhash@) =~= merge_pass(toks@, vocab, tokenhash@));
    }
    while i < toks.len()
        invariant
            vocab == token_views(tokenset@),
            pass_in_range(toks@.skip(i as int), vocab, tokenhash@),
            i <= toks.len(),
            merged@ + merge_pass(toks@.skip(i as int), vocab, tokenhash@) == merge_pass(toks@, vocab, tokenhash@),
        decreases toks.len() - i,
    {
        let ghost rest = toks@.skip(i as int);
        if toks.len() - i >= 2 {
            assert(rest[0] == toks@[i as int] && rest[1] == toks@[i + 1]);
            let left = toks[i];
            let right = toks[i + 1];
            let mut s = tokenset[left].clone();
            s.append(tokenset[right].as_str());
            proof {
                assert(s@ == vocab[rest[0] as int] + vocab[rest[1] as int]);
            }
            if let Some(id) = tokenhash.get(s.as_str()) {
                merged.push(*id);
                i += 2;
                proof {
                    assert(rest.skip(2) =~= toks@.skip(i as int));
                    assert(merged@ + merge_pass(toks@.skip(i as int), vocab, tokenhash@) =~= merged@.drop_last()
                        + merge_pass(rest, vocab, tokenhash@));
                }
                continue;
            }
        }
        merged.push(toks[i]);
        i += 1;
        proof {
            assert(rest.skip(1) =~= toks@.skip(i as int));
            assert(merged@ + merge_pass(toks@.skip(i as int), vocab, tokenhash@) =~= merged@.drop_last()
                + merge_pass(rest, vocab, tokenhash@));
        }
    }
    proof {
        assert(toks@.skip(i as int) =~= Seq::<usize>::empty());
        assert(merged@ + Seq::<usize>::empty() =~= merged@);
    }
    merged
}

/// The ids of the single characters of `input` that are tokens.
fn known_char_ids(input: &String, tokenhash: &StrMap<usize>) -> (r: Vec<usize>)
    ensures
        r@ == char_tokens(input@, tokenhash@),
{
    let mut tokenised: Vec<usize> = Vec::new();
    for c in it: input.as_str().chars()
        invariant
            it.seq() == input@,
            tokenised@ == char_tokens(it.seq().take(it.index() as int), tokenhash@),
    {
        let ghost k = it.index();
        let one = string_from_chars(&[c]);
        proof {
            assert(it.seq().take(k + 1).drop_last() =~= it.seq().take(k as int));
            assert(one@ =~= seq![it.seq().take(k + 1).last()]);
        }
        if let Some(id) = tokenhash.get(one.as_str()) {
            tokenised.push(*id);
        }
    }
    assert(input@.take(input@.len() as int) =~= input@);
    tokenised
}

/// Tokenises `input_string` against the vocabulary `tokenset`, whose index is
/// `tokenhash`: each character that is a token becomes its id, then
/// neighbouring ids whose strings, joined, form a token are merged, in as
/// many passes as the longest token has bytes, stopping once fewer than three
/// ids are left.
pub fn tokenise_string(input_string: &String, tokenset: &Vec<String>, tokenhash: &StrMap<usize>) -> (r: Vec<usize>)
    requires
        can_tokenise_string(input_string@, token_views(tokenset@), tokenhash@),
    ensures
        r@ == string_tokens(input_string@, token_views(tokenset@), tokenhash@),
        ids_below(tokenhash@, tokenset.len() as nat) ==> all_below(r@, tokenset.len() as nat),
{
    let ghost vocab = token_views(tokenset@);
    let split_length = longest_token_len(tokenset);
    let mut tokenised = known_char_ids(input_string, tokenhash);
    let ghost initial = tokenised@;
    proof {
        if ids_below(tokenhash@, tokenset.len() as nat) {
            lemma_string_tokens_in_vocabulary(input_string@, vocab, tokenhash@);
        }
    }
    let mut round: usize = 0;
    while round < split_length
        invariant
            vocab == token_views(tokenset@),
            initial == char_tokens(input_string@, tokenhash@),
            split_length == longest_token_bytes(vocab),
            round <= split_length,
            rounds_in_range(tokenised@, vocab, tokenhash@, (split_length - round) as nat),
            ids_below(tokenhash@, tokenset.len() as nat) ==> all_below(
                string_tokens(input_string@, vocab, tokenhash@),
                tokenset.len() as nat,
            ),
            merge_rounds(initial, vocab, tokenhash@, split_length as nat) == merge_rounds(
                tokenised@,
                vocab,
                tokenhash@,
                (split_length - round) as nat,
            ),
        decreases split_length - round,
    {
        let merged = merge_once(&tokenised, tokenset, tokenhash);
        proof {
            assert(merge_rounds(tokenised@, vocab, tokenhash@, (split_length - round) as nat) == if merged@.len()
                < 3 {
                merged@
            } else {
                merge_rounds(merged@, vocab, tokenhash@, (split_length - round - 1) as nat)
            });
        }
        let ghost previous = tokenised@;
        tokenised = merged;
        round += 1;
        if tokenised.len() < 3 {
            assert(merge_rounds(previous, vocab, tokenhash@, (split_length - (round - 1)) as nat) == tokenised@);
            return tokenised;
        }
    }
    tokenised
}

proof fn lemma_char_tokens_decode(input: Seq<char>, vocab: Seq<Seq<char>>, hash: Map<Seq<char>, usize>)
    requires
        names_tokens(hash, vocab),
    ensures
        decoded(char_tokens(input, hash), vocab) == known_chars(input, hash),
    decreases input.len(),
{
    if input.len() > 0 {
        lemma_char_tokens_decode(input.drop_last(), vocab, hash);
        let c = seq![input.last()];
        if hash.contains_key(c) {
            let front = char_tokens(input.drop_last(), hash);
            lemma_decoded_append(front, seq![hash[c]], vocab);
            assert(front.push(hash[c]) =~= front + seq![hash[c]]);
            assert(seq![hash[c]].skip(1) =~= Seq::<usize>::empty());
            assert(decoded(Seq::<usize>::empty(), vocab) == Seq::<char>::empty());
            assert(decoded(seq![hash[c]], vocab) =~= c);
            assert(known_chars(input.drop_last(), hash) + c =~= known_chars(input.drop_last(), hash).push(
                input.last(),
            ));
        }
    }
}

proof fn lemma_merge_pass_decode(toks: Seq<usize>, vocab: Seq<Seq<char>>, hash: Map<Seq<char>, usize>)
    requires
        names_tokens(hash, vocab),
    ensures
        decoded(merge_pass(toks, vocab, hash), vocab) == decoded(toks, vocab),
    decreases toks.len(),
{
    if toks.len() > 0 {
        if toks.len() >= 2 && hash.contains_key(vocab[toks[0] as int] + vocab[toks[1] as int]) {
            let joined = vocab[toks[0] as int] + vocab[toks[1] as int];
            lemma_merge_pass_decode(toks.skip(2), vocab, hash);
            assert(toks.skip(1).skip(1) =~= toks.skip(2));
            assert(toks.skip(1)[0] == toks[1]);
            let merged = seq![hash[joined]] + merge_pass(toks.skip(2), vocab, hash);
            assert(merged[0] == hash[joined]);
            assert(merged.skip(1) =~= merge_pass(toks.skip(2), vocab, hash));
            assert(decoded(toks.skip(1), vocab) == vocab[toks[1] as int] + decoded(toks.skip(2), vocab));
            assert(decoded(toks, vocab) == vocab[toks[0] as int] + decoded(toks.skip(1), vocab));
            assert(decoded(toks, vocab) =~= joined + decoded(toks.skip(2), vocab));
        } else {
            lemma_merge_pass_decode(toks.skip(1), vocab, hash);
            let merged = seq![toks[0]] + merge_pass(toks.skip(1), vocab, hash);
            assert(merged.skip(1) =~= merge_pass(toks.skip(1), vocab, hash));
        }
    }
}

proof fn lemma_merge_rounds_decode(
    toks: Seq<usize>,
    vocab: Seq<Seq<char>>,
    hash: Map<Seq<char>, usize>,
    rounds: nat,
)
    requires
        names_tokens(hash, vocab),
    ensures
        decoded(merge_rounds(toks, vocab, hash, rounds), vocab) == decoded(toks, vocab),
    decreases rounds,
{
    if rounds > 0 {
        lemma_merge_pass_decode(toks, vocab, hash);
        let merged = merge_pass(toks, vocab, hash);
        if merged.len() >= 3 {
            lemma_merge_rounds_decode(merged, vocab, hash, (rounds - 1) as nat);
        }
    }
}

/// Merging loses nothing: where every key of the index names its own token,
/// the strings of the ids that `tokenise_string` gives, joined, are exactly
/// the characters of the input that are tokens on their own.
pub proof fn lemma_string_tokens_decode(input: Seq<char>, vocab: Seq<Seq<char>>, hash: Map<Seq<char>, usize>)
    requires
        names_tokens(hash, vocab),
    ensures
        decoded(string_tokens(input, vocab, hash), vocab) == known_chars(input, hash),
{
    lemma_char_tokens_decode(input, vocab, hash);
    lemma_merge_rounds_decode(char_tokens(input, hash), vocab, hash, longest_token_bytes(vocab));
}

/// The largest vocabulary size at which a merge is still added.
pub const TARGET_VOCAB_SIZE: usize = 1000;

/// Whether vocabulary construction goes on at this vocabulary size.
pub fn needs_more_tokens(vocab_size: usize) -> (r: bool)
    ensures
        r == (vocab_size <= TARGET_VOCAB_SIZE),
{
    vocab_size <= TARGET_VOCAB_SIZE
}

/// The character set file is no valid JSON.
#[derive(Debug, PartialEq, Eq)]
pub enum CharsetError {
    NotJson,
}

/// `tokens` followed by the lowercased `keys`, each one added only where it
/// is not there yet.
pub open spec fn add_lowercased(tokens: Seq<Seq<char>>, keys: Seq<Seq<char>>) -> Seq<Seq<char>>
    decreases keys.len(),
{
    if keys.len() == 0 {
        tokens
    } else {
        let before = add_lowercased(tokens, keys.drop_last());
        let k = lowercase(keys.last());
        if before.contains(k) {
            before
        } else {
            before.push(k)
        }
    }
}

/// Adds the lowercased `keys` to `tokenset`, each where it is not there yet.
pub fn add_charset_keys(keys: &Vec<String>, tokenset: &mut Vec<String>)
    ensures
        token_views(final(tokenset)@) == add_lowercased(token_views(old(tokenset)@), token_views(keys@)),
{
    let ghost start = token_views(tokenset@);
    let ghost kv = token_views(keys@);
    for i in 0..keys.len()
        invariant
            kv == token_views(keys@),
            token_views(tokenset@) == add_lowercased(start, kv.take(i as int)),
    {
        let key = to_lowercase(keys[i].as_str());
        proof {
            assert(kv.take(i + 1).drop_last() =~= kv.take(i as int));
            assert(kv.take(i + 1).last() == keys@[i as int]@);
        }
        if !contains_token(tokenset, &key) {
            tokenset.push(key);
            proof {
                assert(token_views(tokenset@) =~= add_lowercased(start, kv.take(i as int)).push(
                    lowercase(keys@[i as int]@),
                ));
            }
        }
    }
    proof {
        assert(kv.take(keys.len() as int) =~= kv);
    }
}

/// The vocabulary after reading the character set file: the keys of the
/// JSON object it holds, lowercased, are added where not there yet (nothing
/// is added where the JSON is no object).
pub open spec fn charset_tokens(tokens: Seq<Seq<char>>, chars_json: Seq<char>) -> Seq<Seq<char>> {
    match json_object_keys(chars_json) {
        Some(Some(keys)) => add_lowercased(tokens, keys),
        _ => tokens,
    }
}

/// Reads the character set (the text of a JSON object whose keys are the
/// characters) into the vocabulary: its lowercased keys are added to
/// `tokenset` where not there yet, then every token is entered into
/// `tokenhash` under its last position. Fails, changing nothing, where the
/// text is no valid JSON.
pub fn read_charset(
    chars_json: &str,
    tokenset: &mut Vec<String>,
    tokenhash: &mut StrMap<usize>,
) -> (r: Result<(), CharsetError>)
    ensures
        r is Err <==> json_object_keys(chars_json@) is None,
        r is Err ==> final(tokenset)@ == old(tokenset)@ && final(tokenhash)@ == old(tokenhash)@,
        r is Ok ==> {
            &&& token_views(final(tokenset)@) == charset_tokens(token_views(old(tokenset)@), chars_json@)
            &&& final(tokenhash)@ == old(tokenhash)@.union_prefer_right(
                last_index_map(token_views(final(tokenset)@)),
            )
        },
        r is Ok && old(tokenhash)@ == Map::<Seq<char>, usize>::empty() ==> indexes_last(
            final(tokenhash)@,
            token_views(final(tokenset)@),
        ),
{
    match parse_object_keys(chars_json) {
        None => {
            return Err(CharsetError::NotJson);
        },
        Some(None) => {},
        Some(Some(keys)) => {
            add_charset_keys(&keys, tokenset);
            proof {
                assert(token_views(keys@) =~= keys.deep_view());
            }
        },
    }
    index_tokens(tokenset, tokenhash);
    proof {
        let v = token_views(tokenset@);
        assert(v.len() == tokenset@.len());
        assert(tokenset@.len() == tokenset.len());
        lemma_last_index_map(v);
        if old(tokenhash)@ == Map::<Seq<char>, usize>::empty() {
            assert(tokenhash@ =~= last_index_map(v));
        }
    }
    Ok(())
}

/// One step of vocabulary construction: `input` is tokenised with the
/// vocabulary as it stands, the pair of neighbouring ids that occurs most
/// often is chosen, and the join of its two tokens is added as a new token,
/// indexed under its position. Gives the chosen pair, or `None` (changing
/// nothing) where the tokenised input has fewer than two ids.
pub fn bpe_step(input: &String, tokenset: &mut Vec<String>, tokenhash: &mut StrMap<usize>) -> (r: Option<(usize, usize)>)
    requires
        old(tokenset).len() > 0,
        old(tokenset).len() < usize::MAX,
        ids_below(old(tokenhash)@, old(tokenset).len() as nat),
    ensures
        ({
            let vocab = token_views(old(tokenset)@);
            let toks = string_tokens(input@, vocab, old(tokenhash)@);
            &&& r is None <==> toks.len() < 2
            &&& r is None ==> final(tokenset)@ == old(tokenset)@ && final(tokenhash)@ == old(tokenhash)@
            &&& r matches Some(p) ==> {
                let joined = vocab[p.0 as int] + vocab[p.1 as int];
                &&& first_most_common(neighbour_pairs(toks), p)
                &&& p.0 < vocab.len() && p.1 < vocab.len()
                &&& token_views(final(tokenset)@) == vocab.push(joined)
                &&& final(tokenhash)@ == old(tokenhash)@.insert(joined, old(tokenset).len())
            }
        }),
        ids_below(final(tokenhash)@, final(tokenset).len() as nat),
        names_tokens(old(tokenhash)@, token_views(old(tokenset)@)) ==> names_tokens(
            final(tokenhash)@,
            token_views(final(tokenset)@),
        ),
{
    let ghost vocab = token_views(tokenset@);
    proof {
        lemma_well_formed_can_tokenise(input@, vocab, tokenhash@);
    }
    let tokenised = tokenise_string(input, tokenset, tokenhash);
    if tokenised.len() == 0 {
        return None;
    }
    let pairs = vector_to_pairs(&tokenised);
    let new_token = match most_common_pair(&pairs) {
        Some(p) => p,
        None => {
            return None;
        },
    };
    proof {
        let j = choose|j: int| 0 <= j < pairs@.len() && pairs@[j] == new_token;
        assert(pairs@[j] == (tokenised@[j], tokenised@[j + 1]));
    }
    let mut s = tokenset[new_token.0].clone();
    s.append(tokenset[new_token.1].as_str());
    let id = tokenset.len();
    tokenset.push(s.clone());
    tokenhash.insert(s, id);
    proof {
        assert(token_views(tokenset@) =~= vocab.push(vocab[new_token.0 as int] + vocab[new_token.1 as int]));
    }
    Some(new_token)
}

/// Reading the character set adds no repeated token to a vocabulary that has none.
pub proof fn lemma_add_lowercased_no_duplicates(tokens: Seq<Seq<char>>, keys: Seq<Seq<char>>)
    requires
        tokens.no_duplicates(),
    ensures
        add_lowercased(tokens, keys).no_duplicates(),
    decreases keys.len(),
{
    if keys.len() > 0 {
        lemma_add_lowercased_no_duplicates(tokens, keys.drop_last());
        let before = add_lowercased(tokens, keys.drop_last());
        let k = lowercase(keys.last());
        if !before.contains(k) {
            let after = before.push(k);
            assert forall|i: int, j: int| 0 <= i < after.len() && 0 <= j < after.len() && i != j implies after[i]
                != after[j] by {
                if i < before.len() && j < before.len() {
                    assert(after[i] == before[i] && after[j] == before[j]);
                } else if i < before.len() {
                    assert(after[i] == before[i]);
                } else {
                    assert(after[j] == before[j]);
                }
            }
        }
    }
}

/// The pair chosen does not depend on the order of the pairs where one pair
/// occurs strictly more often than every other: for two lists holding the
/// same pairs, each as often, the chosen pairs are that pair.
pub proof fn lemma_most_common_pair_order_free(
    pairs1: Seq<(usize, usize)>,
    pairs2: Seq<(usize, usize)>,
    top: (usize, usize),
    p1: (usize, usize),
    p2: (usize, usize),
)
    requires
        forall|q: (usize, usize)| occurrences(pairs1, q) == occurrences(pairs2, q),
        forall|q: (usize, usize)| q != top ==> occurrences(pairs1, q) < occurrences(pairs1, top),
        first_most_common(pairs1, p1),
        first_most_common(pairs2, p2),
    ensures
        p1 == top,
        p2 == top,
{
    assert(occurrences(pairs1, top) <= occurrences(pairs1, p1));
    assert(occurrences(pairs2, top) <= occurrences(pairs2, p2));
}

/// Where one pair occurs strictly more often than every other, some list
/// holds it, so `most_common_pair` gives a pair for that list.
pub proof fn lemma_strict_top_occurs(pairs: Seq<(usize, usize)>, top: (usize, usize))
    requires
        forall|q: (usize, usize)| q != top ==> occurrences(pairs, q) < occurrences(pairs, top),
    ensures
        pairs.len() > 0,
        pairs.contains(top),
{
    let other: (usize, usize) = if top.0 == 0 {
        (1, 0)
    } else {
        (0, 0)
    };
    assert(occurrences(pairs, other) < occurrences(pairs, top));
    lemma_occurrences_bound(pairs, top);
}

/// The ids that the neighbouring pairs of `t` (first and second, third and
/// fourth, ...) join into.
pub open spec fn joined_pairs(t: Seq<usize>, vocab: Seq<Seq<char>>, hash: Map<Seq<char>, usize>) -> Seq<usize> {
    Seq::new(t.len() / 2, |i: int| hash[vocab[t[2 * i] as int] + vocab[t[2 * i + 1] as int]])
}

/// Every pair (first and second, third and fourth, ...) of `t` joins into a token.
pub open spec fn all_pairs_join(t: Seq<usize>, vocab: Seq<Seq<char>>, hash: Map<Seq<char>, usize>) -> bool {
    &&& t.len() % 2 == 0
    &&& forall|i: int|
        0 <= i < t.len() / 2 ==> hash.contains_key(#[trigger] vocab[t[2 * i] as int] + vocab[t[2 * i + 1] as int])
}

/// A pass merges every mergeable pair it reaches, not only the first: where
/// the ids before `rest` come in pairs that each join into a token, the pass
/// gives the ids of those joins, in order, and goes on with `rest` as a pass
/// of its own would.
pub proof fn lemma_merge_pass_merges_all_pairs(
    t: Seq<usize>,
    rest: Seq<usize>,
    vocab: Seq<Seq<char>>,
    hash: Map<Seq<char>, usize>,
)
    requires
        all_pairs_join(t, vocab, hash),
    ensures
        merge_pass(t + rest, vocab, hash) == joined_pairs(t, vocab, hash) + merge_pass(rest, vocab, hash),
        merge_pass(t, vocab, hash) == joined_pairs(t, vocab, hash),
    decreases t.len(),
{
    if t.len() == 0 {
        assert(t + rest =~= rest);
        assert(joined_pairs(t, vocab, hash) =~= Seq::<usize>::empty());
        assert(merge_pass(t, vocab, hash) == Seq::<usize>::empty());
    } else {
        let t2 = t.skip(2);
        assert forall|i: int| 0 <= i < t2.len() / 2 implies hash.contains_key(
            #[trigger] vocab[t2[2 * i] as int] + vocab[t2[2 * i + 1] as int],
        ) by {
            assert(t2[2 * i] == t[2 * (i + 1)]);
            assert(t2[2 * i + 1] == t[2 * (i + 1) + 1]);
            assert(hash.contains_key(vocab[t[2 * (i + 1)] as int] + vocab[t[2 * (i + 1) + 1] as int]));
        }
        lemma_merge_pass_merges_all_pairs(t2, rest, vocab, hash);
        let z: int = 0;
        assert(hash.contains_key(vocab[t[2 * z] as int] + vocab[t[2 * z + 1] as int]));
        let joined = vocab[t[0] as int] + vocab[t[1] as int];
        assert((t + rest)[0] == t[0] && (t + rest)[1] == t[1]);
        assert((t + rest).skip(2) =~= t2 + rest);
        assert(joined_pairs(t, vocab, hash) =~= seq![hash[joined]] + joined_pairs(t2, vocab, hash)) by {
            assert forall|i: int| 0 < i < t.len() / 2 implies #[trigger] joined_pairs(t, vocab, hash)[i]
                == joined_pairs(t2, vocab, hash)[i - 1] by {
                assert(t2[2 * (i - 1)] == t[2 * i]);
                assert(t2[2 * (i - 1) + 1] == t[2 * i + 1]);
            }
        }
    }
}

/// A pass changes nothing where no two neighbouring ids join into a token.
pub proof fn lemma_merge_pass_without_joins(t: Seq<usize>, vocab: Seq<Seq<char>>, hash: Map<Seq<char>, usize>)
    requires
        forall|i: int| 0 <= i < t.len() - 1 ==> !hash.contains_key(#[trigger] vocab[t[i] as int] + vocab[t[i + 1] as int]),
    ensures
        merge_pass(t, vocab, hash) == t,
    decreases t.len(),
{
    if t.len() > 0 {
        let t1 = t.skip(1);
        assert forall|i: int| 0 <= i < t1.len() - 1 implies !hash.contains_key(
            #[trigger] vocab[t1[i] as int] + vocab[t1[i + 1] as int],
        ) by {
            assert(t1[i] == t[i + 1] && t1[i + 1] == t[i + 2]);
            assert(!hash.contains_key(vocab[t[i + 1] as int] + vocab[t[(i + 1) + 1] as int]));
        }
        lemma_merge_pass_without_joins(t1, vocab, hash);
        if t.len() >= 2 {
            let z: int = 0;
            assert(!hash.contains_key(vocab[t[z] as int] + vocab[t[z + 1] as int]));
        }
        assert(seq![t[0]] + t1 =~= t);
    }
}

} // verus!
