use crate::bpe::CharsetError;
use crate::json::{json_object_keys, json_string_list, parse_object_keys, parse_string_list};
use crate::strmap::StrMap;
use crate::text::{
    all_ascii, chars_of, has_prefix, lemma_line_words_ascii, line_words, line_words_spec, lowercase,
    starts_with, string_from_chars, to_lowercase,
};
use vstd::prelude::*;

verus! {

broadcast use vstd::string::group_string_axioms;

/// The word prefixes that get a token of their own, in the order in which
/// they are tried.
pub open spec fn word_prefixes() -> Seq<Seq<char>> {
    seq![" un"@, " de"@, " re"@, " pre"@, " mis"@, " over"@, " under"@, " out"@, " be"@]
}

/// The prefix at position `k` of `word_prefixes()`.
pub fn word_prefix(k: usize) -> (p: &'static str)
    requires
        k < 9,
    ensures
        p@ == word_prefixes()[k as int],
{
    match k {
        0 => " un",
        1 => " de",
        2 => " re",
        3 => " pre",
        4 => " mis",
        5 => " over",
        6 => " under",
        7 => " out",
        _ => " be",
    }
}

/// The position of the first prefix, from position `k` on, that `w` starts with.
pub open spec fn first_prefix_from(w: Seq<char>, k: int) -> Option<int>
    decreases 9 - k,
{
    if k < 0 || k >= 9 {
        None
    } else if has_prefix(w, word_prefixes()[k]) {
        Some(k)
    } else {
        first_prefix_from(w, k + 1)
    }
}

/// The position of the first prefix that `w` starts with.
pub open spec fn first_prefix(w: Seq<char>) -> Option<int> {
    first_prefix_from(w, 0)
}

/// Greedy tokenisation of `cs`: at each position the three-character piece
/// is tried, then the two-character piece, then the single character; a
/// character that is no token at all is skipped.
pub open spec fn greedy_tokens(cs: Seq<char>, map: Map<Seq<char>, usize>) -> Seq<usize>
    decreases cs.len(),
{
    if cs.len() == 0 {
        seq![]
    } else if cs.len() >= 3 && map.contains_key(cs.take(3)) {
        seq![map[cs.take(3)]] + greedy_tokens(cs.skip(3), map)
    } else if cs.len() >= 2 && map.contains_key(cs.take(2)) {
        seq![map[cs.take(2)]] + greedy_tokens(cs.skip(2), map)
    } else if map.contains_key(cs.take(1)) {
        seq![map[cs.take(1)]] + greedy_tokens(cs.skip(1), map)
    } else {
        greedy_tokens(cs.skip(1), map)
    }
}

/// Greedy tokenisation takes a three-character token wherever the next three
/// characters exist and form one, also where exactly three are left: its
/// first id is that token's, and the rest is the tokenisation of what follows.
pub proof fn lemma_greedy_takes_three(cs: Seq<char>, map: Map<Seq<char>, usize>)
    requires
        cs.len() >= 3,
        map.contains_key(cs.take(3)),
    ensures
        greedy_tokens(cs, map)[0] == map[cs.take(3)],
        greedy_tokens(cs, map) == seq![map[cs.take(3)]] + greedy_tokens(cs.skip(3), map),
{
}

/// Where the next three characters form no token but the next two do, the
/// first id is that of the two.
pub proof fn lemma_greedy_takes_two(cs: Seq<char>, map: Map<Seq<char>, usize>)
    requires
        cs.len() >= 2,
        !(cs.len() >= 3 && map.contains_key(cs.take(3))),
        map.contains_key(cs.take(2)),
    ensures
        greedy_tokens(cs, map)[0] == map[cs.take(2)],
        greedy_tokens(cs, map) == seq![map[cs.take(2)]] + greedy_tokens(cs.skip(2), map),
{
}

/// Three characters that form a token are taken whole when they are all that
/// is left.
pub proof fn lemma_greedy_ends_with_three(q: Seq<char>, map: Map<Seq<char>, usize>)
    requires
        q.len() == 3,
        map.contains_key(q),
    ensures
        greedy_tokens(q, map) == seq![map[q]],
{
    assert(q.take(3) =~= q);
    assert(q.skip(3) =~= Seq::<char>::empty());
    assert(greedy_tokens(Seq::<char>::empty(), map) == Seq::<usize>::empty());
    assert(seq![map[q]] + Seq::<usize>::empty() =~= seq![map[q]]);
}

/// The tokens of an (already lowercased) word: the word's own token if it is
/// one, else the token of its first prefix (if any) followed by the greedy
/// tokenisation of the rest.
pub open spec fn word_tokens(w: Seq<char>, map: Map<Seq<char>, usize>) -> Seq<usize> {
    if map.contains_key(w) {
        seq![map[w]]
    } else {
        match first_prefix(w) {
            Some(k) => seq![map[word_prefixes()[k]]] + greedy_tokens(
                w.skip(word_prefixes()[k].len() as int),
                map,
            ),
            None => greedy_tokens(w, map),
        }
    }
}

/// The tokens that `tokenise_text` gives for the lowercased word `w`, with
/// the cache as it stands.
pub open spec fn cached_word_tokens(
    w: Seq<char>,
    map: Map<Seq<char>, usize>,
    cache: Map<Seq<char>, Vec<usize>>,
) -> Seq<usize> {
    if map.contains_key(w) {
        seq![map[w]]
    } else if cache.contains_key(w) {
        cache[w]@
    } else {
        word_tokens(w, map)
    }
}

/// The cache with each entry taken by its contents.
pub open spec fn cache_view(cache: Map<Seq<char>, Vec<usize>>) -> Map<Seq<char>, Seq<usize>> {
    cache.map_values(|v: Vec<usize>| v@)
}

/// The cache, by its contents, after tokenising the lowercased word `w`: an
/// entry for `w` is added where it is neither a token nor cached yet.
pub open spec fn cache_after(
    w: Seq<char>,
    map: Map<Seq<char>, usize>,
    cache: Map<Seq<char>, Vec<usize>>,
) -> Map<Seq<char>, Seq<usize>> {
    if map.contains_key(w) || cache.contains_key(w) {
        cache_view(cache)
    } else {
        cache_view(cache).insert(w, word_tokens(w, map))
    }
}

/// Tokenising `w` needs no token that is missing: where the word is neither a
/// token nor cached and starts with a listed prefix, that prefix is a token.
pub open spec fn can_tokenise(
    w: Seq<char>,
    map: Map<Seq<char>, usize>,
    cache: Map<Seq<char>, Vec<usize>>,
) -> bool {
    map.contains_key(w) || cache.contains_key(w) || match first_prefix(w) {
        Some(k) => map.contains_key(word_prefixes()[k]),
        None => true,
    }
}

/// Every cached entry holds what tokenising its word gives.
pub open spec fn cache_consistent(
    map: Map<Seq<char>, usize>,
    cache: Map<Seq<char>, Vec<usize>>,
) -> bool {
    forall|w: Seq<char>| #[trigger] cache.contains_key(w) ==> cache[w]@ == word_tokens(w, map)
}

proof fn lemma_first_prefix_from(w: Seq<char>, k: int)
    requires
        0 <= k <= 9,
    ensures
        first_prefix_from(w, k) matches Some(j) ==> k <= j < 9 && has_prefix(w, word_prefixes()[j]),
        first_prefix_from(w, k) is None ==> forall|j: int| k <= j < 9 ==> !has_prefix(w, #[trigger] word_prefixes()[j]),
    decreases 9 - k,
{
    if k < 9 {
        lemma_first_prefix_from(w, k + 1);
    }
}

/// The position of the first listed prefix that `w` starts with.
fn find_prefix(w: &Vec<char>) -> (r: Option<usize>)
    ensures
        match r {
            Some(k) => k < 9 && first_prefix(w@) == Some(k as int),
            None => first_prefix(w@) is None,
        },
{
    let mut k: usize = 0;
    while k < 9
        invariant
            k <= 9,
            first_prefix(w@) == first_prefix_from(w@, k as int),
        decreases 9 - k,
    {
        let p = chars_of(word_prefix(k));
        if starts_with(w, &p) {
            return Some(k);
        }
        k += 1;
    }
    None
}

/// Greedy tokenisation of the characters of `cs` from position `start` on.
fn greedy_tokenise(cs: &Vec<char>, start: usize, token_map: &StrMap<usize>, out: &mut Vec<usize>)
    requires
        start <= cs@.len(),
    ensures
        final(out)@ == old(out)@ + greedy_tokens(cs@.skip(start as int), token_map@),
{
    let mut i = start;
    while i < cs.len()
        invariant
            start <= i <= cs@.len(),
            old(out)@ + greedy_tokens(cs@.skip(start as int), token_map@) == out@ + greedy_tokens(
                cs@.skip(i as int),
                token_map@,
            ),
        decreases cs.len() - i,
    {
        let ghost rest = cs@.skip(i as int);
        if cs.len() - i >= 3 {
            let piece = string_from_chars(&cs.as_slice()[i..i + 3]);
            assert(piece@ == rest.take(3));
            if let Some(t) = token_map.get(piece.as_str()) {
                out.push(*t);
                i += 3;
                assert(rest.skip(3) == cs@.skip(i as int));
                continue;
            }
        }
        if cs.len() - i >= 2 {
            let piece = string_from_chars(&cs.as_slice()[i..i + 2]);
            assert(piece@ == rest.take(2));
            if let Some(t) = token_map.get(piece.as_str()) {
                out.push(*t);
                i += 2;
                assert(rest.skip(2) == cs@.skip(i as int));
                continue;
            }
        }
        let piece = string_from_chars(&cs.as_slice()[i..i + 1]);
        assert(piece@ == rest.take(1));
        if let Some(t) = token_map.get(piece.as_str()) {
            out.push(*t);
        }
        i += 1;
        assert(rest.skip(1) == cs@.skip(i as int));
    }
    assert(cs@.skip(i as int) =~= Seq::<char>::empty());
}

/// The tokens of a lowercased word that is not a token itself: the token of
/// its first listed prefix, if it has one, then the greedy tokenisation of
/// the rest.
fn tokenise_word(w: &Vec<char>, token_map: &StrMap<usize>) -> (r: Vec<usize>)
    requires
        !token_map@.contains_key(w@),
        first_prefix(w@) matches Some(k) ==> token_map@.contains_key(word_prefixes()[k]),
    ensures
        r@ == word_tokens(w@, token_map@),
{
    let mut out: Vec<usize> = Vec::new();
    let mut start: usize = 0;
    match find_prefix(w) {
        Some(k) => {
            proof {
                lemma_first_prefix_from(w@, 0);
            }
            let p = word_prefix(k);
            let t = token_map.get(p);
            out.push(*t.unwrap());
            start = chars_of(p).len();
        },
        None => {},
    }
    let ghost head = out@;
    greedy_tokenise(w, start, token_map, &mut out);
    proof {
        match first_prefix(w@) {
            Some(k) => {
                assert(head == seq![token_map@[word_prefixes()[k]]]);
                assert(start == word_prefixes()[k].len());
            },
            None => {
                assert(w@.skip(0) =~= w@);
            },
        }
        assert(out@ =~= word_tokens(w@, token_map@));
    }
    out
}

fn copy_tokens(v: &Vec<usize>) -> (r: Vec<usize>)
    ensures
        r@ == v@,
{
    let mut r: Vec<usize> = Vec::new();
    for i in 0..v.len()
        invariant
            r@ == v@.take(i as int),
    {
        r.push(v[i]);
        assert(r@ =~= v@.take(i + 1));
    }
    assert(v@.take(v.len() as int) =~= v@);
    r
}

/// Tokenises `word`: it is lowercased, then looked up as a whole in
/// `token_map`, then in `token_cache`; otherwise it is split into its first
/// listed prefix and greedy pieces of three, two or one characters, and the
/// result is cached under the lowercased word.
pub fn tokenise_text(
    word: &str,
    token_map: &StrMap<usize>,
    token_cache: &mut StrMap<Vec<usize>>,
) -> (r: Vec<usize>)
    requires
        can_tokenise(lowercase(word@), token_map@, old(token_cache)@),
    ensures
        r@ == cached_word_tokens(lowercase(word@), token_map@, old(token_cache)@),
        final(token_cache)@ == if token_map@.contains_key(lowercase(word@)) || old(
            token_cache,
        )@.contains_key(lowercase(word@)) {
            old(token_cache)@
        } else {
            old(token_cache)@.insert(lowercase(word@), final(token_cache)@[lowercase(word@)])
        },
        !token_map@.contains_key(lowercase(word@)) && !old(token_cache)@.contains_key(lowercase(word@))
            ==> final(token_cache)@[lowercase(word@)]@ == r@,
        cache_view(final(token_cache)@) == cache_after(lowercase(word@), token_map@, old(token_cache)@),
        cache_consistent(token_map@, old(token_cache)@) ==> {
            &&& r@ == word_tokens(lowercase(word@), token_map@)
            &&& cache_consistent(token_map@, final(token_cache)@)
        },
{
    let lowered = to_lowercase(word);
    if let Some(t) = token_map.get(lowered.as_str()) {
        return vec![*t];
    }
    if let Some(t) = token_cache.get(lowered.as_str()) {
        return copy_tokens(t);
    }
    let w = chars_of(lowered.as_str());
    let r = tokenise_word(&w, token_map);
    let cached = copy_tokens(&r);
    let ghost before = token_cache@;
    token_cache.insert(lowered, cached);
    proof {
        assert(cache_view(token_cache@) =~= cache_view(before).insert(lowercase(word@), r@));
    }
    r
}

/// Tokenising a word and tokenising its lowercase (where lowercasing that
/// changes nothing more) are the same: both can run or neither, they give the
/// same tokens and leave the same cache.
pub proof fn lemma_tokenise_text_case_insensitive(
    word: Seq<char>,
    map: Map<Seq<char>, usize>,
    cache: Map<Seq<char>, Vec<usize>>,
)
    requires
        lowercase(lowercase(word)) == lowercase(word),
    ensures
        can_tokenise(lowercase(word), map, cache) == can_tokenise(lowercase(lowercase(word)), map, cache),
        cached_word_tokens(lowercase(word), map, cache) == cached_word_tokens(
            lowercase(lowercase(word)),
            map,
            cache,
        ),
        cache_after(lowercase(word), map, cache) == cache_after(lowercase(lowercase(word)), map, cache),
{
}

/// Tokenises `word` as `tokenise_text` does, where no token that it needs is
/// missing; gives `None`, and leaves the cache as it is, where the word
/// starts with a listed prefix that is no token.
pub fn try_tokenise_text(
    word: &str,
    token_map: &StrMap<usize>,
    token_cache: &mut StrMap<Vec<usize>>,
) -> (r: Option<Vec<usize>>)
    ensures
        r is Some <==> can_tokenise(lowercase(word@), token_map@, old(token_cache)@),
        r is None ==> final(token_cache)@ == old(token_cache)@,
        r matches Some(v) ==> v@ == cached_word_tokens(
            lowercase(word@),
            token_map@,
            old(token_cache)@,
        ),
        r is Some ==> cache_view(final(token_cache)@) == cache_after(
            lowercase(word@),
            token_map@,
            old(token_cache)@,
        ),
        cache_consistent(token_map@, old(token_cache)@) ==> cache_consistent(
            token_map@,
            final(token_cache)@,
        ),
{
    let lowered = to_lowercase(word);
    if token_map.contains_key(lowered.as_str()) || token_cache.contains_key(lowered.as_str()) {
        return Some(tokenise_text(word, token_map, token_cache));
    }
    let w = chars_of(lowered.as_str());
    match find_prefix(&w) {
        Some(k) => {
            if !token_map.contains_key(word_prefix(k)) {
                return None;
            }
        },
        None => {},
    }
    Some(tokenise_text(word, token_map, token_cache))
}

/// The string views of a list of tokens.
pub open spec fn token_views(tokens: Seq<String>) -> Seq<Seq<char>> {
    tokens.map_values(|t: String| t@)
}

/// The text that a sequence of token ids stands for: their strings, joined.
pub open spec fn decoded(ids: Seq<usize>, vocab: Seq<Seq<char>>) -> Seq<char>
    decreases ids.len(),
{
    if ids.len() == 0 {
        seq![]
    } else {
        vocab[ids[0] as int] + decoded(ids.skip(1), vocab)
    }
}

/// Each key of `map` is the token that its id names in `vocab`.
pub open spec fn names_tokens(map: Map<Seq<char>, usize>, vocab: Seq<Seq<char>>) -> bool {
    forall|s: Seq<char>|
        #[trigger] map.contains_key(s) ==> map[s] < vocab.len() && vocab[map[s] as int] == s
}

/// `map` is the index of `vocab`: it holds exactly the tokens of `vocab`,
/// each with the last position at which it stands.
pub open spec fn indexes_last(map: Map<Seq<char>, usize>, vocab: Seq<Seq<char>>) -> bool {
    &&& forall|i: int| 0 <= i < vocab.len() ==> #[trigger] map.contains_key(vocab[i])
    &&& names_tokens(map, vocab)
    &&& forall|s: Seq<char>, j: int|
        #[trigger] map.contains_key(s) && map[s] < j < vocab.len() ==> #[trigger] vocab[j] != s
}

pub proof fn lemma_decoded_append(a: Seq<usize>, b: Seq<usize>, vocab: Seq<Seq<char>>)
    ensures
        decoded(a + b, vocab) == decoded(a, vocab) + decoded(b, vocab),
    decreases a.len(),
{
    if a.len() == 0 {
        assert(a + b =~= b);
    } else {
        lemma_decoded_append(a.skip(1), b, vocab);
        assert((a + b).skip(1) =~= a.skip(1) + b);
        assert(decoded(a, vocab) + decoded(b, vocab) =~= vocab[a[0] as int] + (decoded(a.skip(1), vocab)
            + decoded(b, vocab)));
    }
}

proof fn lemma_decoded_single(id: usize, vocab: Seq<Seq<char>>)
    ensures
        decoded(seq![id], vocab) == vocab[id as int],
{
    assert(seq![id].skip(1) =~= Seq::<usize>::empty());
    assert(decoded(Seq::<usize>::empty(), vocab) == Seq::<char>::empty());
    assert(vocab[id as int] + Seq::<char>::empty() =~= vocab[id as int]);
}

/// Greedy pieces decode back to the text, where every single character is a token.
proof fn lemma_greedy_lossless(cs: Seq<char>, map: Map<Seq<char>, usize>, vocab: Seq<Seq<char>>)
    requires
        names_tokens(map, vocab),
        forall|i: int| 0 <= i < cs.len() ==> map.contains_key(#[trigger] cs.subrange(i, i + 1)),
    ensures
        decoded(greedy_tokens(cs, map), vocab) == cs,
    decreases cs.len(),
{
    if cs.len() > 0 {
        let n: int = if cs.len() >= 3 && map.contains_key(cs.take(3)) {
            3
        } else if cs.len() >= 2 && map.contains_key(cs.take(2)) {
            2
        } else {
            1
        };
        assert(cs.take(1) == cs.subrange(0, 1));
        assert forall|i: int| 0 <= i < cs.skip(n).len() implies map.contains_key(
            #[trigger] cs.skip(n).subrange(i, i + 1),
        ) by {
            assert(cs.skip(n).subrange(i, i + 1) == cs.subrange(i + n, i + n + 1));
        }
        lemma_greedy_lossless(cs.skip(n), map, vocab);
        let id = map[cs.take(n)];
        lemma_decoded_append(seq![id], greedy_tokens(cs.skip(n), map), vocab);
        lemma_decoded_single(id, vocab);
        assert(cs.take(n) + cs.skip(n) =~= cs);
    }
}

/// Tokenising a word loses nothing when every character of it is a token:
/// the tokens' strings, joined, give the word back.
pub proof fn lemma_word_tokens_lossless(w: Seq<char>, map: Map<Seq<char>, usize>, vocab: Seq<Seq<char>>)
    requires
        names_tokens(map, vocab),
        forall|i: int| 0 <= i < w.len() ==> map.contains_key(#[trigger] w.subrange(i, i + 1)),
        first_prefix(w) matches Some(k) ==> map.contains_key(word_prefixes()[k]),
    ensures
        decoded(word_tokens(w, map), vocab) == w,
{
    if map.contains_key(w) {
        lemma_decoded_single(map[w], vocab);
    } else {
        lemma_first_prefix_from(w, 0);
        match first_prefix(w) {
            Some(k) => {
                let p = word_prefixes()[k];
                let rest = w.skip(p.len() as int);
                assert forall|i: int| 0 <= i < rest.len() implies map.contains_key(
                    #[trigger] rest.subrange(i, i + 1),
                ) by {
                    assert(rest.subrange(i, i + 1) == w.subrange(i + p.len(), i + p.len() + 1));
                }
                lemma_greedy_lossless(rest, map, vocab);
                lemma_decoded_append(seq![map[p]], greedy_tokens(rest, map), vocab);
                lemma_decoded_single(map[p], vocab);
                assert(w.take(p.len() as int) + rest =~= w);
            },
            None => {
                lemma_greedy_lossless(w, map, vocab);
            },
        }
    }
}

/// `d` is `w` with some characters deleted, each of them one that is no
/// token on its own in `map`.
pub open spec fn drops_unknown_chars(d: Seq<char>, w: Seq<char>, map: Map<Seq<char>, usize>) -> bool
    decreases w.len(),
{
    if w.len() == 0 {
        d.len() == 0
    } else {
        (d.len() > 0 && d[0] == w[0] && drops_unknown_chars(d.skip(1), w.skip(1), map)) || (
        !map.contains_key(seq![w[0]]) && drops_unknown_chars(d, w.skip(1), map))
    }
}

/// `id` is the id of some key of `map`.
pub open spec fn is_key_id(map: Map<Seq<char>, usize>, id: usize) -> bool {
    exists|k: Seq<char>| #[trigger] map.contains_key(k) && map[k] == id
}

/// Every id in `ids` is the id of some key of `map`.
pub open spec fn ids_of_keys(ids: Seq<usize>, map: Map<Seq<char>, usize>) -> bool {
    forall|i: int| 0 <= i < ids.len() ==> is_key_id(map, #[trigger] ids[i])
}

proof fn lemma_drops_prepend(p: Seq<char>, d: Seq<char>, w: Seq<char>, map: Map<Seq<char>, usize>)
    requires
        drops_unknown_chars(d, w, map),
    ensures
        drops_unknown_chars(p + d, p + w, map),
    decreases p.len(),
{
    if p.len() > 0 {
        lemma_drops_prepend(p.skip(1), d, w, map);
        assert((p + d).skip(1) =~= p.skip(1) + d);
        assert((p + w).skip(1) =~= p.skip(1) + w);
        assert((p + d)[0] == (p + w)[0]);
    }
}

proof fn lemma_ids_of_keys_append(a: Seq<usize>, b: Seq<usize>, map: Map<Seq<char>, usize>)
    requires
        ids_of_keys(a, map),
        ids_of_keys(b, map),
    ensures
        ids_of_keys(a + b, map),
{
    assert forall|i: int| 0 <= i < (a + b).len() implies is_key_id(map, #[trigger] (a + b)[i]) by {
        if i < a.len() {
            assert((a + b)[i] == a[i]);
        } else {
            assert((a + b)[i] == b[i - a.len()]);
        }
    }
}

proof fn lemma_greedy_drops(cs: Seq<char>, map: Map<Seq<char>, usize>, vocab: Seq<Seq<char>>)
    requires
        names_tokens(map, vocab),
    ensures
        drops_unknown_chars(decoded(greedy_tokens(cs, map), vocab), cs, map),
        ids_of_keys(greedy_tokens(cs, map), map),
    decreases cs.len(),
{
    if cs.len() == 0 {
        assert(decoded(Seq::<usize>::empty(), vocab) == Seq::<char>::empty());
    } else {
        let known = (cs.len() >= 3 && map.contains_key(cs.take(3))) || (cs.len() >= 2 && map.contains_key(
            cs.take(2),
        )) || map.contains_key(cs.take(1));
        if known {
            let n: int = if cs.len() >= 3 && map.contains_key(cs.take(3)) {
                3
            } else if cs.len() >= 2 && map.contains_key(cs.take(2)) {
                2
            } else {
                1
            };
            lemma_greedy_drops(cs.skip(n), map, vocab);
            let id = map[cs.take(n)];
            let rest = greedy_tokens(cs.skip(n), map);
            lemma_decoded_append(seq![id], rest, vocab);
            lemma_decoded_single(id, vocab);
            lemma_drops_prepend(cs.take(n), decoded(rest, vocab), cs.skip(n), map);
            assert(cs.take(n) + cs.skip(n) =~= cs);
            assert(ids_of_keys(seq![id], map)) by {
                assert(map.contains_key(cs.take(n)) && map[cs.take(n)] == seq![id][0]);
            }
            lemma_ids_of_keys_append(seq![id], rest, map);
        } else {
            lemma_greedy_drops(cs.skip(1), map, vocab);
            assert(cs.take(1) =~= seq![cs[0]]);
        }
    }
}

/// Tokenising a word loses only characters that are no tokens: where every
/// key of the index names its own token, each id given is the id of a key,
/// and the ids' strings, joined, are the word with some characters deleted,
/// each of them one that is no token on its own.
pub proof fn lemma_word_tokens_drop_unknown(w: Seq<char>, map: Map<Seq<char>, usize>, vocab: Seq<Seq<char>>)
    requires
        names_tokens(map, vocab),
        first_prefix(w) matches Some(k) ==> map.contains_key(word_prefixes()[k]),
    ensures
        ids_of_keys(word_tokens(w, map), map),
        drops_unknown_chars(decoded(word_tokens(w, map), vocab), w, map),
{
    if map.contains_key(w) {
        lemma_decoded_single(map[w], vocab);
        assert(drops_unknown_chars(Seq::<char>::empty(), Seq::<char>::empty(), map));
        lemma_drops_prepend(w, Seq::<char>::empty(), Seq::<char>::empty(), map);
        assert(w + Seq::<char>::empty() =~= w);
        assert(map.contains_key(w) && map[w] == word_tokens(w, map)[0]);
    } else {
        lemma_first_prefix_from(w, 0);
        match first_prefix(w) {
            Some(k) => {
                let p = word_prefixes()[k];
                let rest = w.skip(p.len() as int);
                lemma_greedy_drops(rest, map, vocab);
                let g = greedy_tokens(rest, map);
                lemma_decoded_append(seq![map[p]], g, vocab);
                lemma_decoded_single(map[p], vocab);
                lemma_drops_prepend(p, decoded(g, vocab), rest, map);
                assert(w.take(p.len() as int) + rest =~= w);
                assert(ids_of_keys(seq![map[p]], map)) by {
                    assert(map.contains_key(p) && map[p] == seq![map[p]][0]);
                }
                lemma_ids_of_keys_append(seq![map[p]], g, map);
            },
            None => {
                lemma_greedy_drops(w, map, vocab);
            },
        }
    }
}

/// No two keys of `map` have the same id.
pub open spec fn injective_ids(map: Map<Seq<char>, usize>) -> bool {
    forall|k1: Seq<char>, k2: Seq<char>|
        #[trigger] map.contains_key(k1) && #[trigger] map.contains_key(k2) && map[k1] == map[k2] ==> k1 == k2
}

/// The key of `map` whose id is `id`.
pub open spec fn key_of(map: Map<Seq<char>, usize>, id: usize) -> Seq<char> {
    choose|k: Seq<char>| map.contains_key(k) && map[k] == id
}

/// The text that a sequence of ids stands for in `map`: the keys of the ids, joined.
pub open spec fn decoded_keys(ids: Seq<usize>, map: Map<Seq<char>, usize>) -> Seq<char>
    decreases ids.len(),
{
    if ids.len() == 0 {
        seq![]
    } else {
        key_of(map, ids[0]) + decoded_keys(ids.skip(1), map)
    }
}

proof fn lemma_key_of(map: Map<Seq<char>, usize>, s: Seq<char>)
    requires
        injective_ids(map),
        map.contains_key(s),
    ensures
        key_of(map, map[s]) == s,
{
    let k = key_of(map, map[s]);
    assert(map.contains_key(k) && map[k] == map[s]);
}

proof fn lemma_decoded_keys_append(a: Seq<usize>, b: Seq<usize>, map: Map<Seq<char>, usize>)
    ensures
        decoded_keys(a + b, map) == decoded_keys(a, map) + decoded_keys(b, map),
    decreases a.len(),
{
    if a.len() == 0 {
        assert(a + b =~= b);
    } else {
        lemma_decoded_keys_append(a.skip(1), b, map);
        assert((a + b).skip(1) =~= a.skip(1) + b);
        assert(decoded_keys(a, map) + decoded_keys(b, map) =~= key_of(map, a[0]) + (decoded_keys(
            a.skip(1),
            map,
        ) + decoded_keys(b, map)));
    }
}

proof fn lemma_decoded_keys_single(map: Map<Seq<char>, usize>, s: Seq<char>)
    requires
        injective_ids(map),
        map.contains_key(s),
    ensures
        decoded_keys(seq![map[s]], map) == s,
{
    lemma_key_of(map, s);
    assert(seq![map[s]].skip(1) =~= Seq::<usize>::empty());
    assert(decoded_keys(Seq::<usize>::empty(), map) == Seq::<char>::empty());
    assert(s + Seq::<char>::empty() =~= s);
}

proof fn lemma_greedy_drops_keys(cs: Seq<char>, map: Map<Seq<char>, usize>)
    requires
        injective_ids(map),
    ensures
        drops_unknown_chars(decoded_keys(greedy_tokens(cs, map), map), cs, map),
    decreases cs.len(),
{
    if cs.len() == 0 {
        assert(decoded_keys(Seq::<usize>::empty(), map) == Seq::<char>::empty());
    } else {
        let known = (cs.len() >= 3 && map.contains_key(cs.take(3))) || (cs.len() >= 2 && map.contains_key(
            cs.take(2),
        )) || map.contains_key(cs.take(1));
        if known {
            let n: int = if cs.len() >= 3 && map.contains_key(cs.take(3)) {
                3
            } else if cs.len() >= 2 && map.contains_key(cs.take(2)) {
                2
            } else {
                1
            };
            lemma_greedy_drops_keys(cs.skip(n), map);
            let rest = greedy_tokens(cs.skip(n), map);
            lemma_decoded_keys_append(seq![map[cs.take(n)]], rest, map);
            lemma_decoded_keys_single(map, cs.take(n));
            lemma_drops_prepend(cs.take(n), decoded_keys(rest, map), cs.skip(n), map);
            assert(cs.take(n) + cs.skip(n) =~= cs);
        } else {
            lemma_greedy_drops_keys(cs.skip(1), map);
            assert(cs.take(1) =~= seq![cs[0]]);
        }
    }
}

/// Where every character of `w` is a token on its own, the only text that
/// `w` loses nothing of is `w` itself.
proof fn lemma_drops_none(d: Seq<char>, w: Seq<char>, map: Map<Seq<char>, usize>)
    requires
        drops_unknown_chars(d, w, map),
        forall|i: int| 0 <= i < w.len() ==> map.contains_key(#[trigger] w.subrange(i, i + 1)),
    ensures
        d == w,
    decreases w.len(),
{
    if w.len() == 0 {
        assert(d =~= w);
    } else {
        assert(w.subrange(0, 1) =~= seq![w[0]]);
        assert(map.contains_key(w.subrange(0, 1)));
        assert forall|i: int| 0 <= i < w.skip(1).len() implies map.contains_key(
            #[trigger] w.skip(1).subrange(i, i + 1),
        ) by {
            let j = i + 1;
            assert(map.contains_key(w.subrange(j, j + 1)));
            assert(w.skip(1).subrange(i, i + 1) =~= w.subrange(j, j + 1));
        }
        lemma_drops_none(d.skip(1), w.skip(1), map);
        assert(d =~= seq![d[0]] + d.skip(1));
        assert(w =~= seq![w[0]] + w.skip(1));
    }
}

/// Tokenising a word with any index that gives different keys different ids
/// loses only characters that are no tokens: each id given is the id of a
/// key, and the keys of the ids, joined, are the word with some characters
/// deleted, each of them one that is no token on its own; where every
/// character is a token, they are the word itself.
pub proof fn lemma_word_tokens_keys_drop_unknown(w: Seq<char>, map: Map<Seq<char>, usize>)
    requires
        injective_ids(map),
        first_prefix(w) matches Some(k) ==> map.contains_key(word_prefixes()[k]),
    ensures
        ids_of_keys(word_tokens(w, map), map),
        drops_unknown_chars(decoded_keys(word_tokens(w, map), map), w, map),
        (forall|i: int| 0 <= i < w.len() ==> map.contains_key(#[trigger] w.subrange(i, i + 1)))
            ==> decoded_keys(word_tokens(w, map), map) == w,
{
    if map.contains_key(w) {
        lemma_decoded_keys_single(map, w);
        assert(drops_unknown_chars(Seq::<char>::empty(), Seq::<char>::empty(), map));
        lemma_drops_prepend(w, Seq::<char>::empty(), Seq::<char>::empty(), map);
        assert(w + Seq::<char>::empty() =~= w);
        assert(map.contains_key(w) && map[w] == word_tokens(w, map)[0]);
    } else {
        lemma_first_prefix_from(w, 0);
        match first_prefix(w) {
            Some(k) => {
                let p = word_prefixes()[k];
                let rest = w.skip(p.len() as int);
                lemma_greedy_drops_keys(rest, map);
                lemma_greedy_ids(rest, map);
                let g = greedy_tokens(rest, map);
                lemma_decoded_keys_append(seq![map[p]], g, map);
                lemma_decoded_keys_single(map, p);
                lemma_drops_prepend(p, decoded_keys(g, map), rest, map);
                assert(w.take(p.len() as int) + rest =~= w);
                assert(ids_of_keys(seq![map[p]], map)) by {
                    assert(map.contains_key(p) && map[p] == seq![map[p]][0]);
                }
                lemma_ids_of_keys_append(seq![map[p]], g, map);
            },
            None => {
                lemma_greedy_drops_keys(w, map);
                lemma_greedy_ids(w, map);
            },
        }
    }
    if forall|i: int| 0 <= i < w.len() ==> map.contains_key(#[trigger] w.subrange(i, i + 1)) {
        lemma_drops_none(decoded_keys(word_tokens(w, map), map), w, map);
    }
}

proof fn lemma_greedy_ids(cs: Seq<char>, map: Map<Seq<char>, usize>)
    ensures
        ids_of_keys(greedy_tokens(cs, map), map),
    decreases cs.len(),
{
    if cs.len() > 0 {
        let known = (cs.len() >= 3 && map.contains_key(cs.take(3))) || (cs.len() >= 2 && map.contains_key(
            cs.take(2),
        )) || map.contains_key(cs.take(1));
        if known {
            let n: int = if cs.len() >= 3 && map.contains_key(cs.take(3)) {
                3
            } else if cs.len() >= 2 && map.contains_key(cs.take(2)) {
                2
            } else {
                1
            };
            lemma_greedy_ids(cs.skip(n), map);
            let id = map[cs.take(n)];
            assert(ids_of_keys(seq![id], map)) by {
                assert(map.contains_key(cs.take(n)) && map[cs.take(n)] == seq![id][0]);
            }
            lemma_ids_of_keys_append(seq![id], greedy_tokens(cs.skip(n), map), map);
        } else {
            lemma_greedy_ids(cs.skip(1), map);
        }
    }
}

/// Each token of `vocab` with the last position at which it stands.
pub open spec fn last_index_map(vocab: Seq<Seq<char>>) -> Map<Seq<char>, usize>
    decreases vocab.len(),
{
    if vocab.len() == 0 {
        Map::empty()
    } else {
        last_index_map(vocab.drop_last()).insert(vocab.last(), (vocab.len() - 1) as usize)
    }
}

/// `last_index_map` is the index of the list: it holds exactly its tokens,
/// each with the last position at which it stands.
pub proof fn lemma_last_index_map(vocab: Seq<Seq<char>>)
    requires
        vocab.len() <= usize::MAX,
    ensures
        indexes_last(last_index_map(vocab), vocab),
    decreases vocab.len(),
{
    if vocab.len() > 0 {
        let front = vocab.drop_last();
        lemma_last_index_map(front);
        let m = last_index_map(vocab);
        assert forall|i: int| 0 <= i < vocab.len() implies #[trigger] m.contains_key(vocab[i]) by {
            if i < front.len() {
                assert(vocab[i] == front[i]);
            }
        }
        assert forall|s: Seq<char>| #[trigger] m.contains_key(s) implies m[s] < vocab.len() && vocab[m[s] as int] == s by {
            if s != vocab.last() {
                assert(vocab[m[s] as int] == front[m[s] as int]);
            }
        }
        assert forall|s: Seq<char>, j: int|
            #[trigger] m.contains_key(s) && m[s] < j < vocab.len() implies #[trigger] vocab[j] != s by {
            if s != vocab.last() && j < front.len() {
                assert(vocab[j] == front[j]);
            }
        }
    }
}

/// Enters each token of `tokens` into `map` under its position, in order, so
/// that a token that stands more than once ends under its last position.
pub fn index_tokens(tokens: &Vec<String>, map: &mut StrMap<usize>)
    ensures
        final(map)@ == old(map)@.union_prefer_right(last_index_map(token_views(tokens@))),
{
    let ghost vocab = token_views(tokens@);
    let ghost start = map@;
    proof {
        assert(start.union_prefer_right(last_index_map(vocab.take(0))) =~= start);
    }
    for i in 0..tokens.len()
        invariant
            vocab == token_views(tokens@),
            map@ == start.union_prefer_right(last_index_map(vocab.take(i as int))),
    {
        map.insert(tokens[i].clone(), i);
        proof {
            let v2 = vocab.take(i + 1);
            assert(v2.drop_last() =~= vocab.take(i as int));
            assert(v2.last() == tokens@[i as int]@);
            assert(map@ =~= start.union_prefer_right(last_index_map(v2)));
        }
    }
    proof {
        assert(vocab.take(tokens.len() as int) =~= vocab);
    }
}

/// The index of a token list: each token maps to the last position at which it stands.
pub fn token_map_from(tokens: &Vec<String>) -> (m: StrMap<usize>)
    ensures
        m@ == last_index_map(token_views(tokens@)),
        indexes_last(m@, token_views(tokens@)),
{
    let mut m: StrMap<usize> = StrMap::new();
    index_tokens(tokens, &mut m);
    proof {
        let v = token_views(tokens@);
        assert(Map::<Seq<char>, usize>::empty().union_prefer_right(last_index_map(v)) =~= last_index_map(v));
        assert(v.len() == tokens@.len());
        assert(tokens@.len() == tokens.len());
        lemma_last_index_map(v);
    }
    m
}

/// The text that `tokens` stand for in `vocab`: their strings, joined.
pub fn detokenise(tokens: &Vec<usize>, vocab: &Vec<String>) -> (r: String)
    requires
        forall|i: int| 0 <= i < tokens.len() ==> #[trigger] tokens@[i] < vocab.len(),
    ensures
        r@ == decoded(tokens@, token_views(vocab@)),
{
    let ghost v = token_views(vocab@);
    let mut r = String::new();
    for k in 0..tokens.len()
        invariant
            v == token_views(vocab@),
            forall|j: int| 0 <= j < tokens.len() ==> #[trigger] tokens@[j] < vocab.len(),
            r@ == decoded(tokens@.take(k as int), v),
    {
        r.append(vocab[tokens[k]].as_str());
        proof {
            lemma_decoded_append(tokens@.take(k as int), seq![tokens@[k as int]], v);
            lemma_decoded_single(tokens@[k as int], v);
            assert(tokens@.take(k as int) + seq![tokens@[k as int]] =~= tokens@.take(k + 1));
        }
    }
    proof {
        assert(tokens@.take(tokens.len() as int) =~= tokens@);
    }
    r
}

/// Whether `s` is among `tokens`.
pub fn contains_token(tokens: &Vec<String>, s: &String) -> (r: bool)
    ensures
        r == token_views(tokens@).contains(s@),
{
    let ghost v = token_views(tokens@);
    for i in 0..tokens.len()
        invariant
            v == token_views(tokens@),
            forall|j: int| 0 <= j < i ==> v[j] != s@,
    {
        if tokens[i] == *s {
            assert(v[i as int] == s@);
            return true;
        }
    }
    false
}

/// The number of lines of the training text that the word list reads.
pub const TOKEN_GEN_LENGTH: usize = 10000;

/// How many of `n` lines the word list reads.
pub open spec fn read_line_count(n: nat) -> int {
    if n < TOKEN_GEN_LENGTH {
        n as int
    } else {
        TOKEN_GEN_LENGTH as int
    }
}

/// The words of the lines, in order.
pub open spec fn words_of_lines(lines: Seq<Seq<char>>) -> Seq<Seq<char>>
    decreases lines.len(),
{
    if lines.len() == 0 {
        seq![]
    } else {
        words_of_lines(lines.drop_last()) + line_words_spec(lines.last())
    }
}

/// Every word is ASCII, at least two characters long and starts with a space.
pub open spec fn spaced_ascii_words(ws: Seq<Seq<char>>) -> bool {
    forall|i: int| 0 <= i < ws.len() ==> all_ascii(#[trigger] ws[i]) && ws[i].len() > 1 && ws[i][0] == ' '
}

/// The words of the first `TOKEN_GEN_LENGTH` lines (or of all lines, where
/// there are fewer), as `line_words` splits them.
pub fn collect_words(lines: &Vec<String>) -> (r: Vec<String>)
    ensures
        token_views(r@) == words_of_lines(token_views(lines@).take(read_line_count(lines@.len()))),
        spaced_ascii_words(token_views(r@)),
{
    let ghost lv = token_views(lines@);
    let n = if lines.len() < TOKEN_GEN_LENGTH { lines.len() } else { TOKEN_GEN_LENGTH };
    let mut words: Vec<String> = Vec::new();
    for i in 0..n
        invariant
            n <= lines.len(),
            lv == token_views(lines@),
            token_views(words@) == words_of_lines(lv.take(i as int)),
            spaced_ascii_words(token_views(words@)),
    {
        let mut lw = line_words(lines[i].as_str());
        let ghost before = token_views(words@);
        let ghost added = token_views(lw@);
        proof {
            lemma_line_words_ascii(lines@[i as int]@);
        }
        words.append(&mut lw);
        proof {
            assert(lv.take(i + 1).drop_last() =~= lv.take(i as int));
            assert(lv.take(i + 1).last() == lines@[i as int]@);
            assert(token_views(words@) =~= before + added);
            assert forall|k: int| 0 <= k < token_views(words@).len() implies all_ascii(
                #[trigger] token_views(words@)[k],
            ) && token_views(words@)[k].len() > 1 && token_views(words@)[k][0] == ' ' by {
                if k >= before.len() {
                    assert(token_views(words@)[k] == added[k - before.len()]);
                } else {
                    assert(token_views(words@)[k] == before[k]);
                }
            }
        }
    }
    words
}

/// How often `w` occurs in `ws`.
pub open spec fn word_count(ws: Seq<Seq<char>>, w: Seq<char>) -> nat
    decreases ws.len(),
{
    if ws.len() == 0 {
        0
    } else {
        word_count(ws.drop_last(), w) + if ws.last() == w {
            1nat
        } else {
            0nat
        }
    }
}

/// A word's count is how many times it stands in the list: the number of
/// its copies in the list's multiset; one more occurrence adds one, and an
/// occurrence of another word adds nothing.
pub proof fn lemma_word_count_occurrences(ws: Seq<Seq<char>>, w: Seq<char>, v: Seq<char>)
    ensures
        word_count(ws, w) == ws.to_multiset().count(w),
        word_count(ws.push(w), w) == word_count(ws, w) + 1,
        v != w ==> word_count(ws.push(v), w) == word_count(ws, w),
    decreases ws.len(),
{
    broadcast use vstd::seq_lib::group_to_multiset_ensures;

    assert(ws.push(w).drop_last() =~= ws);
    assert(ws.push(v).drop_last() =~= ws);
    if ws.len() > 0 {
        lemma_word_count_occurrences(ws.drop_last(), w, v);
        assert(ws.drop_last().push(ws.last()) =~= ws);
    } else {
        assert(ws.to_multiset().len() == 0);
    }
}

/// The different non-empty words of `ws`, in the order of their first occurrence.
pub open spec fn distinct_words(ws: Seq<Seq<char>>) -> Seq<Seq<char>>
    decreases ws.len(),
{
    if ws.len() == 0 {
        seq![]
    } else {
        let before = distinct_words(ws.drop_last());
        if ws.last().len() == 0 || before.contains(ws.last()) {
            before
        } else {
            before.push(ws.last())
        }
    }
}

/// `a` ranks before `b` among the words of `ws`: it occurs more often, or as
/// often and first occurs earlier.
pub open spec fn ranks_before(ws: Seq<Seq<char>>, a: Seq<char>, b: Seq<char>) -> bool {
    word_count(ws, a) > word_count(ws, b) || (word_count(ws, a) == word_count(ws, b) && exists|p: int, q: int|
        0 <= p < q < distinct_words(ws).len() && #[trigger] distinct_words(ws)[p] == a
            && #[trigger] distinct_words(ws)[q] == b)
}

proof fn lemma_word_count_bound(ws: Seq<Seq<char>>, w: Seq<char>)
    ensures
        word_count(ws, w) <= ws.len(),
    decreases ws.len(),
{
    if ws.len() > 0 {
        lemma_word_count_bound(ws.drop_last(), w);
    }
}

/// The different non-empty words of `words`, in the order of their first
/// occurrence, each with how often it occurs.
fn count_words(words: &Vec<String>) -> (r: (Vec<String>, Vec<usize>))
    ensures
        token_views(r.0@) == distinct_words(token_views(words@)),
        r.1@.len() == r.0@.len(),
        forall|j: int|
            0 <= j < r.1@.len() ==> #[trigger] r.1@[j] == word_count(token_views(words@), r.0@[j]@),
{
    let ghost ws = token_views(words@);
    let mut distinct: Vec<String> = Vec::new();
    let mut counts: Vec<usize> = Vec::new();
    let mut index: StrMap<usize> = StrMap::new();
    for i in 0..words.len()
        invariant
            ws == token_views(words@),
            token_views(distinct@) == distinct_words(ws.take(i as int)),
            counts@.len() == distinct@.len(),
            forall|j: int|
                0 <= j < counts@.len() ==> #[trigger] counts@[j] == word_count(ws.take(i as int), distinct@[j]@),
            forall|w: Seq<char>|
                #[trigger] index@.contains_key(w) <==> token_views(distinct@).contains(w),
            forall|j: int| 0 <= j < distinct@.len() ==> index@[#[trigger] distinct@[j]@] == j,
    {
        let ghost dv = token_views(distinct@);
        let ghost prefix = ws.take(i as int);
        let ghost longer = ws.take(i + 1);
        proof {
            assert(longer.drop_last() =~= prefix);
            assert(longer.last() == words@[i as int]@);
        }
        let word = &words[i];
        if !word.as_str().is_empty() {
            match index.get(word.as_str()) {
                Some(j) => {
                    let j = *j;
                    assert(dv.contains(word@));
                    assert(distinct_words(longer) == dv);
                    let ghost dj = choose|k: int| 0 <= k < dv.len() && dv[k] == word@;
                    assert(dv[dj] == distinct@[dj]@);
                    assert(index@[distinct@[dj]@] == dj);
                    proof {
                        lemma_word_count_bound(prefix, word@);
                    }
                    let c = counts[j] + 1;
                    counts.set(j, c);
                    proof {
                        assert forall|k: int| 0 <= k < counts@.len() implies #[trigger] counts@[k] == word_count(
                            longer,
                            distinct@[k]@,
                        ) by {
                            if k != j {
                                assert(dv[k] != dv[j as int]);
                            }
                        }
                    }
                },
                None => {
                    proof {
                        assert(word@.len() != 0);
                    }
                    distinct.push(word.clone());
                    counts.push(1);
                    index.insert(word.clone(), distinct.len() - 1);
                    proof {
                        assert(token_views(distinct@) =~= dv.push(word@));
                        assert forall|k: int| 0 <= k < counts@.len() implies #[trigger] counts@[k] == word_count(
                            longer,
                            distinct@[k]@,
                        ) by {
                            if k < dv.len() {
                                assert(dv[k] == distinct@[k]@);
                                assert(dv[k] != word@);
                            } else {
                                assert(!dv.contains(word@));
                                assert(word_count(prefix, word@) == 0) by {
                                    lemma_count_absent(prefix, word@, dv);
                                }
                            }
                        }
                        assert forall|w: Seq<char>|
                            #[trigger] index@.contains_key(w) <==> token_views(distinct@).contains(w) by {
                            if w == word@ {
                                assert(token_views(distinct@)[dv.len() as int] == w);
                            } else if token_views(distinct@).contains(w) {
                                let k = choose|k: int| 0 <= k < token_views(distinct@).len() && token_views(distinct@)[k] == w;
                                assert(dv[k] == w);
                            } else if dv.contains(w) {
                                let k = choose|k: int| 0 <= k < dv.len() && dv[k] == w;
                                assert(token_views(distinct@)[k] == w);
                            }
                        }
                        assert forall|k: int| 0 <= k < distinct@.len() implies index@[#[trigger] distinct@[k]@] == k by {
                            if k < dv.len() {
                                assert(dv[k] == distinct@[k]@);
                                assert(dv[k] != word@);
                            }
                        }
                    }
                },
            }
        } else {
            proof {
                assert(distinct_words(longer) == dv);
                assert forall|k: int| 0 <= k < counts@.len() implies #[trigger] counts@[k] == word_count(
                    longer,
                    distinct@[k]@,
                ) by {
                    assert(dv[k] == distinct@[k]@);
                    lemma_distinct_nonempty(prefix);
                }
            }
        }
    }
    proof {
        assert(ws.take(words.len() as int) =~= ws);
    }
    (distinct, counts)
}

/// `rv` ranks the words of `ws`: it holds each different non-empty word of
/// `ws` once, in the order of `ranks_before`.
pub open spec fn is_ranking(ws: Seq<Seq<char>>, rv: Seq<Seq<char>>) -> bool {
    let d = distinct_words(ws);
    &&& rv.len() == d.len()
    &&& forall|i: int| 0 <= i < rv.len() ==> d.contains(#[trigger] rv[i])
    &&& forall|w: Seq<char>| #[trigger] d.contains(w) ==> rv.contains(w)
    &&& forall|i: int, j: int| 0 <= i < j < rv.len() ==> ranks_before(ws, #[trigger] rv[i], #[trigger] rv[j])
}

proof fn lemma_distinct_words_no_duplicates(ws: Seq<Seq<char>>)
    ensures
        distinct_words(ws).no_duplicates(),
    decreases ws.len(),
{
    if ws.len() > 0 {
        lemma_distinct_words_no_duplicates(ws.drop_last());
        let before = distinct_words(ws.drop_last());
        let d = distinct_words(ws);
        if d != before {
            assert forall|i: int, j: int| 0 <= i < d.len() && 0 <= j < d.len() && i != j implies d[i] != d[j] by {
                if i < before.len() && j < before.len() {
                    assert(d[i] == before[i] && d[j] == before[j]);
                } else if i < before.len() {
                    assert(d[i] == before[i]);
                } else {
                    assert(d[j] == before[j]);
                }
            }
        }
    }
}

/// `ranks_before` is a strict order on the different words of `ws`.
proof fn lemma_ranks_before_strict(ws: Seq<Seq<char>>, x: Seq<char>, y: Seq<char>)
    ensures
        !ranks_before(ws, x, x),
        !(ranks_before(ws, x, y) && ranks_before(ws, y, x)),
{
    lemma_distinct_words_no_duplicates(ws);
    let d = distinct_words(ws);
    if ranks_before(ws, x, x) && word_count(ws, x) == word_count(ws, x) {
        let (p, q) = choose|p: int, q: int| 0 <= p < q < d.len() && #[trigger] d[p] == x && #[trigger] d[q] == x;
        assert(d[p] == d[q]);
    }
    if ranks_before(ws, x, y) && ranks_before(ws, y, x) {
        let (p, q) = choose|p: int, q: int| 0 <= p < q < d.len() && #[trigger] d[p] == x && #[trigger] d[q] == y;
        let (p2, q2) = choose|p: int, q: int| 0 <= p < q < d.len() && #[trigger] d[p] == y && #[trigger] d[q] == x;
        assert(d[p] == d[q2]);
        assert(d[q] == d[p2]);
    }
}

proof fn lemma_sorted_same_words_equal(ws: Seq<Seq<char>>, a: Seq<Seq<char>>, b: Seq<Seq<char>>)
    requires
        a.len() == b.len(),
        forall|x: Seq<char>| a.contains(x) <==> b.contains(x),
        forall|i: int, j: int| 0 <= i < j < a.len() ==> ranks_before(ws, #[trigger] a[i], #[trigger] a[j]),
        forall|i: int, j: int| 0 <= i < j < b.len() ==> ranks_before(ws, #[trigger] b[i], #[trigger] b[j]),
    ensures
        a == b,
    decreases a.len(),
{
    if a.len() > 0 {
        assert(a.contains(b[0]));
        assert(b.contains(a[0]));
        if a[0] != b[0] {
            let j = choose|j: int| 0 <= j < a.len() && a[j] == b[0];
            let k = choose|k: int| 0 <= k < b.len() && b[k] == a[0];
            assert(ranks_before(ws, a[0], a[j]));
            assert(ranks_before(ws, b[0], b[k]));
            lemma_ranks_before_strict(ws, a[0], b[0]);
        }
        let a1 = a.skip(1);
        let b1 = b.skip(1);
        assert forall|x: Seq<char>| a1.contains(x) <==> b1.contains(x) by {
            if a1.contains(x) {
                let i = choose|i: int| 0 <= i < a1.len() && a1[i] == x;
                assert(a[i + 1] == x);
                assert(ranks_before(ws, a[0], a[i + 1]));
                lemma_ranks_before_strict(ws, x, x);
                assert(b.contains(x));
                let k = choose|k: int| 0 <= k < b.len() && b[k] == x;
                assert(k != 0);
                assert(b1[k - 1] == x);
            }
            if b1.contains(x) {
                let i = choose|i: int| 0 <= i < b1.len() && b1[i] == x;
                assert(b[i + 1] == x);
                assert(ranks_before(ws, b[0], b[i + 1]));
                lemma_ranks_before_strict(ws, x, x);
                assert(a.contains(x));
                let k = choose|k: int| 0 <= k < a.len() && a[k] == x;
                assert(k != 0);
                assert(a1[k - 1] == x);
            }
        }
        assert forall|i: int, j: int| 0 <= i < j < a1.len() implies ranks_before(ws, #[trigger] a1[i], #[trigger] a1[j]) by {
            assert(a1[i] == a[i + 1] && a1[j] == a[j + 1]);
        }
        assert forall|i: int, j: int| 0 <= i < j < b1.len() implies ranks_before(ws, #[trigger] b1[i], #[trigger] b1[j]) by {
            assert(b1[i] == b[i + 1] && b1[j] == b[j + 1]);
        }
        lemma_sorted_same_words_equal(ws, a1, b1);
        assert forall|i: int| 0 <= i < a.len() implies a[i] == b[i] by {
            if i > 0 {
                assert(a[i] == a1[i - 1] && b[i] == b1[i - 1]);
            }
        }
        assert(a =~= b);
    }
}

/// In a ranking, a word that occurs more often comes before one that occurs
/// less often.
pub proof fn lemma_ranking_more_frequent_first(ws: Seq<Seq<char>>, rv: Seq<Seq<char>>, i: int, j: int)
    requires
        is_ranking(ws, rv),
        0 <= i < rv.len(),
        0 <= j < rv.len(),
        word_count(ws, rv[i]) > word_count(ws, rv[j]),
    ensures
        i < j,
{
    if j < i {
        assert(ranks_before(ws, rv[j], rv[i]));
    }
}

/// There is only one ranking of a word list.
pub proof fn lemma_ranking_unique(ws: Seq<Seq<char>>, a: Seq<Seq<char>>, b: Seq<Seq<char>>)
    requires
        is_ranking(ws, a),
        is_ranking(ws, b),
    ensures
        a == b,
{
    let d = distinct_words(ws);
    assert forall|x: Seq<char>| a.contains(x) <==> b.contains(x) by {
        if a.contains(x) {
            let i = choose|i: int| 0 <= i < a.len() && a[i] == x;
            assert(d.contains(a[i]));
        }
        if b.contains(x) {
            let i = choose|i: int| 0 <= i < b.len() && b[i] == x;
            assert(d.contains(b[i]));
        }
    }
    lemma_sorted_same_words_equal(ws, a, b);
}

/// Lines after the first `TOKEN_GEN_LENGTH` never change the token list:
/// where two line lists agree on the lines that are read, their words are
/// the same, their rankings are the same, and so is the token list built
/// from them with any character set and split points.
pub proof fn lemma_later_lines_ignored(
    lines1: Seq<Seq<char>>,
    lines2: Seq<Seq<char>>,
    ranked1: Seq<Seq<char>>,
    ranked2: Seq<Seq<char>>,
)
    requires
        lines1.take(read_line_count(lines1.len())) == lines2.take(read_line_count(lines2.len())),
        is_ranking(words_of_lines(lines1.take(read_line_count(lines1.len()))), ranked1),
        is_ranking(words_of_lines(lines2.take(read_line_count(lines2.len()))), ranked2),
    ensures
        ranked1 == ranked2,
        forall|keys: Seq<Seq<char>>, quarter: int, three_quarters: int|
            #[trigger] token_list(ranked1, keys, quarter, three_quarters) == token_list(
                ranked2,
                keys,
                quarter,
                three_quarters,
            ),
{
    lemma_ranking_unique(words_of_lines(lines1.take(read_line_count(lines1.len()))), ranked1, ranked2);
}

/// The different non-empty words of `words`, ranked: more frequent words
/// first, and among words that occur as often, the one that first occurs
/// earlier comes first.
pub fn rank_words(words: &Vec<String>) -> (r: Vec<String>)
    ensures
        is_ranking(token_views(words@), token_views(r@)),
{
    let ghost ws = token_views(words@);
    let (distinct, counts) = count_words(words);
    let ghost d = distinct_words(ws);
    let perm = order_by_count(&counts);
    let mut ranked: Vec<String> = Vec::new();
    for k in 0..perm.len()
        invariant
            d == distinct_words(ws),
            token_views(distinct@) == d,
            perm@.len() == distinct@.len(),
            forall|a: int| 0 <= a < perm@.len() ==> #[trigger] perm@[a] < distinct@.len(),
            token_views(ranked@) == perm@.take(k as int).map_values(|x: usize| d[x as int]),
    {
        let ghost before = token_views(ranked@);
        let w = distinct[perm[k]].clone();
        assert(w@ == d[perm@[k as int] as int]);
        ranked.push(w);
        proof {
            assert(token_views(ranked@) =~= before.push(w@));
            assert(token_views(ranked@) =~= perm@.take(k + 1).map_values(|x: usize| d[x as int]));
        }
    }
    proof {
        let rv = token_views(ranked@);
        assert(perm@.take(perm@.len() as int) =~= perm@);
        assert(rv =~= perm@.map_values(|x: usize| d[x as int]));
        assert forall|i: int| 0 <= i < rv.len() implies d.contains(#[trigger] rv[i]) by {
            assert(d[perm@[i] as int] == rv[i]);
        }
        assert forall|w: Seq<char>| #[trigger] d.contains(w) implies rv.contains(w) by {
            let x = choose|x: int| 0 <= x < d.len() && d[x] == w;
            assert(perm@.contains(x as usize));
            let a = choose|a: int| 0 <= a < perm@.len() && perm@[a] == x as usize;
            assert(rv[a] == w);
        }
        assert forall|i: int, j: int| 0 <= i < j < rv.len() implies ranks_before(ws, #[trigger] rv[i], #[trigger] rv[j]) by {
            let x = perm@[i];
            let y = perm@[j];
            assert(count_before(counts@, x, y));
            assert(rv[i] == d[x as int] && rv[j] == d[y as int]);
            assert(counts@[x as int] == word_count(ws, distinct@[x as int]@));
            assert(counts@[y as int] == word_count(ws, distinct@[y as int]@));
            assert(distinct@[x as int]@ == d[x as int]);
            assert(distinct@[y as int]@ == d[y as int]);
            if counts@[x as int] == counts@[y as int] {
                assert(0 <= x < y < d.len() && d[x as int] == rv[i] && d[y as int] == rv[j]);
            }
        }
    }
    ranked
}

proof fn lemma_distinct_nonempty(ws: Seq<Seq<char>>)
    ensures
        forall|i: int| 0 <= i < distinct_words(ws).len() ==> #[trigger] distinct_words(ws)[i].len() > 0,
    decreases ws.len(),
{
    if ws.len() > 0 {
        lemma_distinct_nonempty(ws.drop_last());
        let before = distinct_words(ws.drop_last());
        assert forall|i: int| 0 <= i < distinct_words(ws).len() implies #[trigger] distinct_words(ws)[i].len() > 0 by {
            if i < before.len() {
                assert(distinct_words(ws)[i] == before[i]);
            }
        }
    }
}

/// A word that is not among the distinct words of `ws` does not occur in it.
proof fn lemma_count_absent(ws: Seq<Seq<char>>, w: Seq<char>, d: Seq<Seq<char>>)
    requires
        d == distinct_words(ws),
        !d.contains(w),
        w.len() > 0,
    ensures
        word_count(ws, w) == 0,
    decreases ws.len(),
{
    if ws.len() > 0 {
        let before = distinct_words(ws.drop_last());
        assert forall|k: int| 0 <= k < before.len() implies before[k] != w by {
            assert(d.contains(before[k])) by {
                if !(ws.last().len() == 0 || before.contains(ws.last())) {
                    assert(d[k] == before[k]);
                } else {
                    assert(d[k] == before[k]);
                }
            }
        }
        lemma_count_absent(ws.drop_last(), w, before);
        if ws.last() == w {
            assert(d.contains(w)) by {
                if !before.contains(w) {
                    assert(d[before.len() as int] == w);
                }
            }
        }
    }
}

/// Position `x` comes before position `y` when ordering by count: a higher
/// count first, and among equal counts the lower position first.
pub open spec fn count_before(counts: Seq<usize>, x: usize, y: usize) -> bool {
    counts[x as int] > counts[y as int] || (counts[x as int] == counts[y as int] && x < y)
}

/// The positions of `counts`, ordered by count (highest first), equal counts
/// in their own order.
fn order_by_count(counts: &Vec<usize>) -> (perm: Vec<usize>)
    ensures
        perm@.len() == counts@.len(),
        forall|a: int| 0 <= a < perm@.len() ==> #[trigger] perm@[a] < counts@.len(),
        forall|x: usize| x < counts@.len() ==> #[trigger] perm@.contains(x),
        forall|a: int, b: int|
            0 <= a < b < perm@.len() ==> count_before(counts@, #[trigger] perm@[a], #[trigger] perm@[b]),
{
    let mut perm: Vec<usize> = Vec::new();
    for j in 0..counts.len()
        invariant
            perm@.len() == j,
            forall|a: int| 0 <= a < perm@.len() ==> #[trigger] perm@[a] < j,
            forall|x: usize| x < j ==> #[trigger] perm@.contains(x),
            forall|a: int, b: int|
                0 <= a < b < perm@.len() ==> count_before(counts@, #[trigger] perm@[a], #[trigger] perm@[b]),
    {
        let cj = counts[j];
        let mut p: usize = 0;
        while p < perm.len() && counts[perm[p]] >= cj
            invariant
                j < counts@.len(),
                p <= perm@.len(),
                perm@.len() == j,
                forall|a: int| 0 <= a < perm@.len() ==> #[trigger] perm@[a] < j,
                cj == counts@[j as int],
                forall|a: int| 0 <= a < p ==> counts@[#[trigger] perm@[a] as int] >= cj,
            decreases perm.len() - p,
        {
            p += 1;
        }
        let ghost old_perm = perm@;
        proof {
            assert forall|a: int| p <= a < old_perm.len() implies counts@[#[trigger] old_perm[a] as int] < cj by {
                if a > p {
                    assert(count_before(counts@, old_perm[p as int], old_perm[a]));
                }
            }
        }
        perm.insert(p, j);
        proof {
            assert(perm@ == old_perm.insert(p as int, j));
            assert forall|a: int| 0 <= a < perm@.len() implies #[trigger] perm@[a] < j + 1 by {
                if a < p {
                    assert(perm@[a] == old_perm[a]);
                } else if a > p {
                    assert(perm@[a] == old_perm[a - 1]);
                }
            }
            assert forall|x: usize| x < j + 1 implies #[trigger] perm@.contains(x) by {
                if x == j {
                    assert(perm@[p as int] == x);
                } else {
                    assert(old_perm.contains(x));
                    let a = choose|a: int| 0 <= a < old_perm.len() && old_perm[a] == x;
                    if a < p {
                        assert(perm@[a] == x);
                    } else {
                        assert(perm@[a + 1] == x);
                    }
                }
            }
            assert forall|a: int, b: int|
                0 <= a < b < perm@.len() implies count_before(counts@, #[trigger] perm@[a], #[trigger] perm@[b]) by {
                if b < p {
                    assert(perm@[a] == old_perm[a] && perm@[b] == old_perm[b]);
                } else if b == p {
                    assert(perm@[a] == old_perm[a]);
                } else if a == p {
                    assert(perm@[b] == old_perm[b - 1]);
                } else if a < p {
                    assert(perm@[a] == old_perm[a] && perm@[b] == old_perm[b - 1]);
                } else {
                    assert(perm@[a] == old_perm[a - 1] && perm@[b] == old_perm[b - 1]);
                }
            }
        }
    }
    perm
}

/// `tokens` followed by those of `pieces` that are not there yet, in order
/// (a piece is added once).
pub open spec fn add_new(tokens: Seq<Seq<char>>, pieces: Seq<Seq<char>>) -> Seq<Seq<char>>
    decreases pieces.len(),
{
    if pieces.len() == 0 {
        tokens
    } else {
        let before = add_new(tokens, pieces.drop_last());
        if before.contains(pieces.last()) {
            before
        } else {
            before.push(pieces.last())
        }
    }
}

/// Appends to `tokens` each of `pieces` that is not among them yet.
pub fn add_new_tokens(tokens: &mut Vec<String>, pieces: &Vec<String>)
    ensures
        token_views(final(tokens)@) == add_new(token_views(old(tokens)@), token_views(pieces@)),
{
    let ghost start = token_views(tokens@);
    let ghost pv = token_views(pieces@);
    for i in 0..pieces.len()
        invariant
            pv == token_views(pieces@),
            token_views(tokens@) == add_new(start, pv.take(i as int)),
    {
        proof {
            assert(pv.take(i + 1).drop_last() =~= pv.take(i as int));
            assert(pv.take(i + 1).last() == pieces@[i as int]@);
        }
        if !contains_token(tokens, &pieces[i]) {
            let ghost before = token_views(tokens@);
            tokens.push(pieces[i].clone());
            proof {
                assert(token_views(tokens@) =~= before.push(pieces@[i as int]@));
            }
        }
    }
    proof {
        assert(pv.take(pieces.len() as int) =~= pv);
    }
}

/// The consecutive pieces of `n` characters of `w` from its start (a shorter
/// rest is left out).
pub open spec fn sections(w: Seq<char>, n: nat) -> Seq<Seq<char>>
    decreases w.len(),
{
    if n == 0 || w.len() < n {
        seq![]
    } else {
        seq![w.take(n as int)] + sections(w.skip(n as int), n)
    }
}

/// The consecutive pieces of `n` characters of `w`.
fn word_sections(w: &Vec<char>, n: usize) -> (r: Vec<String>)
    requires
        n > 0,
    ensures
        token_views(r@) == sections(w@, n as nat),
{
    let mut r: Vec<String> = Vec::new();
    let mut i: usize = 0;
    proof {
        assert(w@.skip(0) =~= w@);
        assert(token_views(r@) + sections(w@, n as nat) =~= sections(w@, n as nat));
    }
    while w.len() - i >= n
        invariant
            n > 0,
            i <= w@.len(),
            token_views(r@) + sections(w@.skip(i as int), n as nat) == sections(w@, n as nat),
        decreases w.len() - i,
    {
        let ghost rest = w@.skip(i as int);
        let ghost before = token_views(r@);
        let piece = string_from_chars(&w.as_slice()[i..i + n]);
        assert(piece@ == rest.take(n as int));
        r.push(piece);
        i += n;
        proof {
            assert(rest.skip(n as int) =~= w@.skip(i as int));
            assert(token_views(r@) =~= before + seq![piece@]);
            assert(sections(rest, n as nat) == seq![rest.take(n as int)] + sections(rest.skip(n as int), n as nat));
            assert(token_views(r@) + sections(w@.skip(i as int), n as nat) =~= before + sections(rest, n as nat));
        }
    }
    proof {
        assert(sections(w@.skip(i as int), n as nat) == Seq::<Seq<char>>::empty());
        assert(token_views(r@) + Seq::<Seq<char>>::empty() =~= token_views(r@));
    }
    r
}

/// `tokens` followed by the new pieces of three, then of two, characters of
/// each of `words` in turn.
pub open spec fn add_sections(tokens: Seq<Seq<char>>, words: Seq<Seq<char>>) -> Seq<Seq<char>>
    decreases words.len(),
{
    if words.len() == 0 {
        tokens
    } else {
        add_new(add_new(add_sections(tokens, words.drop_last()), sections(words.last(), 3)), sections(words.last(), 2))
    }
}

/// The first tokens of the list: a space, the word prefixes, then the
/// lowercased keys of the character set.
pub open spec fn base_tokens(keys: Seq<Seq<char>>) -> Seq<Seq<char>> {
    seq![seq![' ']] + word_prefixes() + keys.map_values(|k: Seq<char>| lowercase(k))
}

/// The keys of the JSON object in `chars_json`, or none where it holds no object.
pub open spec fn charset_keys(chars_json: Seq<char>) -> Seq<Seq<char>> {
    match json_object_keys(chars_json) {
        Some(Some(keys)) => keys,
        _ => seq![],
    }
}

/// The token list: the base tokens, then the ranked words before `quarter`
/// that are new, then the new pieces of the ranked words from `quarter` up to
/// `three_quarters`.
pub open spec fn token_list(ranked: Seq<Seq<char>>, keys: Seq<Seq<char>>, quarter: int, three_quarters: int) -> Seq<Seq<char>> {
    let middle = if quarter < three_quarters {
        ranked.subrange(quarter, three_quarters)
    } else {
        seq![]
    };
    add_sections(add_new(base_tokens(keys), ranked.take(quarter)), middle)
}

proof fn lemma_add_new_extends(tokens: Seq<Seq<char>>, pieces: Seq<Seq<char>>)
    ensures
        add_new(tokens, pieces).len() >= tokens.len(),
        add_new(tokens, pieces).take(tokens.len() as int) == tokens,
    decreases pieces.len(),
{
    if pieces.len() > 0 {
        lemma_add_new_extends(tokens, pieces.drop_last());
        let before = add_new(tokens, pieces.drop_last());
        assert(before.push(pieces.last()).take(tokens.len() as int) =~= before.take(tokens.len() as int));
    } else {
        assert(tokens.take(tokens.len() as int) =~= tokens);
    }
}

proof fn lemma_add_sections_extends(tokens: Seq<Seq<char>>, words: Seq<Seq<char>>)
    ensures
        add_sections(tokens, words).len() >= tokens.len(),
        add_sections(tokens, words).take(tokens.len() as int) == tokens,
    decreases words.len(),
{
    if words.len() > 0 {
        lemma_add_sections_extends(tokens, words.drop_last());
        let a = add_sections(tokens, words.drop_last());
        let b = add_new(a, sections(words.last(), 3));
        lemma_add_new_extends(a, sections(words.last(), 3));
        lemma_add_new_extends(b, sections(words.last(), 2));
        let c = add_new(b, sections(words.last(), 2));
        assert(c.take(tokens.len() as int) =~= a.take(tokens.len() as int)) by {
            assert forall|i: int| 0 <= i < tokens.len() implies c[i] == a[i] by {
                assert(c.take(b.len() as int)[i] == b[i]);
                assert(b.take(a.len() as int)[i] == a[i]);
            }
        }
    } else {
        assert(tokens.take(tokens.len() as int) =~= tokens);
    }
}

/// The token list begins with a space, the nine word prefixes in order, and
/// then the lowercase of every key of the character set, one entry per key in
/// the keys' order, whether or not it repeats an earlier token; later tokens
/// only follow these.
pub proof fn lemma_token_list_begins_with_base(
    ranked: Seq<Seq<char>>,
    keys: Seq<Seq<char>>,
    quarter: int,
    three_quarters: int,
)
    ensures
        ({
            let l = token_list(ranked, keys, quarter, three_quarters);
            &&& l.len() >= 10 + keys.len()
            &&& l[0] == seq![' ']
            &&& forall|k: int| 0 <= k < 9 ==> l[1 + k] == #[trigger] word_prefixes()[k]
            &&& forall|i: int| 0 <= i < keys.len() ==> l[10 + i] == lowercase(#[trigger] keys[i])
        }),
{
    let base = base_tokens(keys);
    let top = add_new(base, ranked.take(quarter));
    let middle = if quarter < three_quarters {
        ranked.subrange(quarter, three_quarters)
    } else {
        seq![]
    };
    let l = token_list(ranked, keys, quarter, three_quarters);
    lemma_add_new_extends(base, ranked.take(quarter));
    lemma_add_sections_extends(top, middle);
    assert(base.len() == 10 + keys.len());
    assert forall|i: int| 0 <= i < base.len() implies l[i] == base[i] by {
        assert(l.take(top.len() as int)[i] == top[i]);
        assert(top.take(base.len() as int)[i] == base[i]);
    }
    assert(l[0] == base[0]);
    assert forall|k: int| 0 <= k < 9 implies l[1 + k] == #[trigger] word_prefixes()[k] by {
        assert(l[1 + k] == base[1 + k]);
    }
    assert forall|i: int| 0 <= i < keys.len() implies l[10 + i] == lowercase(#[trigger] keys[i]) by {
        assert(l[10 + i] == base[10 + i]);
    }
}

/// Builds the token list from the ranked words and the character set (the
/// text of a JSON object whose keys are the characters): a space, the word
/// prefixes and the lowercased characters come first; then every ranked word
/// before `quarter` that is not there yet; then, for each ranked word from
/// `quarter` up to `three_quarters`, its consecutive pieces of three and then
/// of two characters that are not there yet. Fails where the character set
/// is no valid JSON.
pub fn build_token_list(
    ranked: &Vec<String>,
    chars_json: &str,
    quarter: usize,
    three_quarters: usize,
) -> (r: Result<Vec<String>, CharsetError>)
    requires
        quarter <= ranked.len(),
        quarter < three_quarters ==> three_quarters <= ranked.len(),
    ensures
        r is Err <==> json_object_keys(chars_json@) is None,
        r matches Ok(t) ==> token_views(t@) == token_list(
            token_views(ranked@),
            charset_keys(chars_json@),
            quarter as int,
            three_quarters as int,
        ),
{
    let keys = match parse_object_keys(chars_json) {
        None => {
            return Err(CharsetError::NotJson);
        },
        Some(None) => Vec::new(),
        Some(Some(keys)) => keys,
    };
    let ghost kv = token_views(keys@);
    proof {
        assert(kv =~= charset_keys(chars_json@));
    }
    let mut tokens: Vec<String> = Vec::new();
    let space = string_from_chars(&[' ']);
    assert(space@ =~= seq![' ']);
    tokens.push(space);
    proof {
        assert(token_views(tokens@) =~= seq![seq![' ']] + word_prefixes().take(0));
    }
    for k in 0..9
        invariant
            token_views(tokens@) == seq![seq![' ']] + word_prefixes().take(k as int),
    {
        let ghost before = token_views(tokens@);
        let p = chars_of(word_prefix(k));
        let piece = string_from_chars(p.as_slice());
        tokens.push(piece);
        proof {
            assert(token_views(tokens@) =~= before.push(piece@));
            assert(piece@ == word_prefixes()[k as int]);
            assert(token_views(tokens@) =~= seq![seq![' ']] + word_prefixes().take(k + 1));
        }
    }
    for i in 0..keys.len()
        invariant
            kv == token_views(keys@),
            token_views(tokens@) == seq![seq![' ']] + word_prefixes().take(9) + kv.take(i as int).map_values(
                |k: Seq<char>| lowercase(k),
            ),
    {
        let ghost before = token_views(tokens@);
        let lowered = to_lowercase(keys[i].as_str());
        tokens.push(lowered);
        proof {
            assert(token_views(tokens@) =~= before.push(lowered@));
            assert(lowered@ == lowercase(kv[i as int]));
            assert(token_views(tokens@) =~= seq![seq![' ']] + word_prefixes().take(9) + kv.take(i + 1).map_values(
                |k: Seq<char>| lowercase(k),
            ));
        }
    }
    proof {
        assert(kv.take(keys.len() as int) =~= kv);
        assert(word_prefixes().take(9) =~= word_prefixes());
        assert(token_views(tokens@) =~= base_tokens(kv));
    }
    let mut top: Vec<String> = Vec::new();
    for i in 0..quarter
        invariant
            quarter <= ranked.len(),
            token_views(top@) == token_views(ranked@).take(i as int),
    {
        let ghost before = token_views(top@);
        let w = ranked[i].clone();
        top.push(w);
        proof {
            assert(token_views(top@) =~= before.push(w@));
            assert(token_views(top@) =~= token_views(ranked@).take(i + 1));
        }
    }
    add_new_tokens(&mut tokens, &top);
    let ghost after_top = token_views(tokens@);
    let ghost rv = token_views(ranked@);
    let ghost middle = if quarter < three_quarters {
        rv.subrange(quarter as int, three_quarters as int)
    } else {
        seq![]
    };
    let mut i = quarter;
    proof {
        assert(rv.subrange(quarter as int, quarter as int) =~= Seq::<Seq<char>>::empty());
    }
    while i < three_quarters
        invariant
            quarter <= i,
            quarter < three_quarters ==> i <= three_quarters <= ranked.len(),
            !(quarter < three_quarters) ==> i == quarter,
            rv == token_views(ranked@),
            middle == (if quarter < three_quarters {
                rv.subrange(quarter as int, three_quarters as int)
            } else {
                seq![]
            }),
            token_views(tokens@) == add_sections(after_top, rv.subrange(quarter as int, i as int)),
        decreases three_quarters - i,
    {
        let w = chars_of(ranked[i].as_str());
        let threes = word_sections(&w, 3);
        add_new_tokens(&mut tokens, &threes);
        let twos = word_sections(&w, 2);
        add_new_tokens(&mut tokens, &twos);
        proof {
            let sub = rv.subrange(quarter as int, i + 1);
            assert(sub.drop_last() =~= rv.subrange(quarter as int, i as int));
            assert(sub.last() == ranked@[i as int]@);
        }
        i += 1;
    }
    proof {
        if quarter < three_quarters {
            assert(i == three_quarters);
        } else {
            assert(i == quarter);
        }
        assert(rv.subrange(quarter as int, i as int) =~= middle);
    }
    Ok(tokens)
}

/// The size of the vocabulary, as recorded beside the token list.
pub struct ModelInfo {
    pub vocab_size: usize,
}

impl ModelInfo {
    pub fn new(vocab_size: usize) -> (r: Self)
        ensures
            r.vocab_size == vocab_size,
    {
        Self { vocab_size }
    }
}

/// In the index of a token list, the key with value `i` is the token at
/// position `i`, and there is one exactly where `i` is the last position of
/// that token.
pub proof fn lemma_index_inverse(m: Map<Seq<char>, usize>, vocab: Seq<Seq<char>>, i: usize)
    requires
        indexes_last(m, vocab),
    ensures
        (exists|k: Seq<char>| #[trigger] m.contains_key(k) && m[k] == i) <==> (i < vocab.len() && m[vocab[i as int]] == i),
        forall|k: Seq<char>| #[trigger] m.contains_key(k) && m[k] == i ==> k == vocab[i as int],
{
    if i < vocab.len() && m[vocab[i as int]] == i {
        assert(m.contains_key(vocab[i as int]));
    }
}

/// Adding only the pieces that are not there yet keeps a list free of repeats.
pub proof fn lemma_add_new_no_duplicates(tokens: Seq<Seq<char>>, pieces: Seq<Seq<char>>)
    requires
        tokens.no_duplicates(),
    ensures
        add_new(tokens, pieces).no_duplicates(),
    decreases pieces.len(),
{
    if pieces.len() > 0 {
        lemma_add_new_no_duplicates(tokens, pieces.drop_last());
        let before = add_new(tokens, pieces.drop_last());
        if !before.contains(pieces.last()) {
            let after = before.push(pieces.last());
            assert forall|i: int, j: int| 0 <= i < after.len() && 0 <= j < after.len() && i != j implies after[i]
                != after[j] by {
                if i < before.len() && j < before.len() {
                    assert(after[i] == before[i] && after[j] == before[j]);
                } else if i < before.len() {
                    assert(after[i] == before[i]);
                } else {
                    assert(after[j] == before[j]);
                }
            }
        }
    }
}

/// Reads a token list (the text of a JSON array of strings) with its index:
/// `None` where the text is no such array.
pub fn read_token_map(tokens_json: &str) -> (r: Option<(Vec<String>, StrMap<usize>)>)
    ensures
        r is None <==> json_string_list(tokens_json@) is None,
        r matches Some((tokens, map)) ==> {
            &&& json_string_list(tokens_json@) == Some(token_views(tokens@))
            &&& map@ == last_index_map(token_views(tokens@))
            &&& indexes_last(map@, token_views(tokens@))
        },
{
    match parse_string_list(tokens_json) {
        None => None,
        Some(tokens) => {
            proof {
                assert(token_views(tokens@) =~= tokens.deep_view());
            }
            let map = token_map_from(&tokens);
            Some((tokens, map))
        },
    }
}

} // verus!
