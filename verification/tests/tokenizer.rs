use custom_llm::bpe::{
    bpe_step, most_common_pair, needs_more_tokens, read_charset, tokenise_string, vector_to_pairs, CharsetError,
    TARGET_VOCAB_SIZE,
};
use custom_llm::frontend::{context_start, find_key_for_value, pad_prompt, CONTEXT_LENGTH};
use custom_llm::strmap::StrMap;
use custom_llm::text::{chars_of, line_words, starts_with};
use custom_llm::tokens::{
    build_token_list, collect_words, contains_token, detokenise, index_tokens, rank_words,
    read_token_map, token_map_from, tokenise_text, try_tokenise_text, word_prefix, ModelInfo,
    TOKEN_GEN_LENGTH,
};

fn strings(xs: &[&str]) -> Vec<String> {
    xs.iter().map(|s| s.to_string()).collect()
}

fn prefixes() -> Vec<String> {
    (0..9).map(|k| word_prefix(k).to_string()).collect()
}

#[test]
fn pairs_of_neighbours() {
    assert_eq!(vector_to_pairs(&vec![1, 2, 3]), vec![(1, 2), (2, 3)]);
    assert_eq!(vector_to_pairs(&vec![7]), Vec::<(i32, i32)>::new());
}

#[test]
fn most_common_pair_counts() {
    assert_eq!(most_common_pair(&vec![(1, 2), (3, 4), (1, 2)]), Some((1, 2)));
    assert_eq!(most_common_pair(&vec![(5, 6), (1, 2)]), Some((5, 6)));
    assert_eq!(most_common_pair(&vec![(5, 6), (1, 2), (1, 2), (5, 6), (9, 9)]), Some((5, 6)));
    assert_eq!(most_common_pair(&vec![]), None);
}

#[test]
fn tokenise_string_merges_pairs() {
    let set = strings(&["a", "b", "ab"]);
    let hash = token_map_from(&set);
    assert_eq!(tokenise_string(&"abab".to_string(), &set, &hash), vec![2, 2]);
    assert_eq!(tokenise_string(&"abc".to_string(), &set, &hash), vec![2]);
    assert_eq!(tokenise_string(&"ba".to_string(), &set, &hash), vec![1, 0]);
    assert_eq!(tokenise_string(&"".to_string(), &set, &hash), Vec::<usize>::new());
}

#[test]
fn tokenise_string_stops_below_three() {
    // two passes would turn "abab" into "abab"; one pass leaves [ab, ab]
    let set = strings(&["a", "b", "ab", "abab"]);
    let hash = token_map_from(&set);
    assert_eq!(tokenise_string(&"abab".to_string(), &set, &hash), vec![2, 2]);
    assert_eq!(tokenise_string(&"ababab".to_string(), &set, &hash), vec![3, 2]);
}

#[test]
fn tokenise_string_decodes_to_known_chars() {
    let set = strings(&["x", "y", "xy", "yx"]);
    let hash = token_map_from(&set);
    let ids = tokenise_string(&"xqyxyz".to_string(), &set, &hash);
    assert_eq!(detokenise(&ids, &set), "xyxy");
}

#[test]
fn detokenise_joins() {
    let set = strings(&["he", "l", "lo"]);
    assert_eq!(detokenise(&vec![0, 1, 2], &set), "hello");
    assert_eq!(detokenise(&vec![], &set), "");
}

#[test]
fn token_map_keeps_last_position() {
    let set = strings(&["a", "b", "a"]);
    let m = token_map_from(&set);
    assert_eq!(m.get("a"), Some(&2));
    assert_eq!(m.get("b"), Some(&1));
    assert_eq!(m.get("c"), None);
    assert_eq!(m.keys(), &strings(&["a", "b"]));
}

#[test]
fn index_tokens_overrides() {
    let mut m: StrMap<usize> = StrMap::new();
    m.insert("z".to_string(), 9);
    m.insert("a".to_string(), 9);
    index_tokens(&strings(&["a", "b"]), &mut m);
    assert_eq!(m.get("z"), Some(&9));
    assert_eq!(m.get("a"), Some(&0));
    assert_eq!(m.get("b"), Some(&1));
}

#[test]
fn find_key_inverts_token_map() {
    let m = token_map_from(&strings(&["a", "b", "a"]));
    assert_eq!(find_key_for_value(&m, 2), Some(&"a".to_string()));
    assert_eq!(find_key_for_value(&m, 1), Some(&"b".to_string()));
    assert_eq!(find_key_for_value(&m, 0), None);
    assert_eq!(find_key_for_value(&m, 7), None);
}

fn word_map(extra: &[&str]) -> (Vec<String>, StrMap<usize>) {
    let mut tokens = strings(&[" "]);
    tokens.extend(prefixes());
    tokens.extend(strings(extra));
    let m = token_map_from(&tokens);
    (tokens, m)
}

#[test]
fn tokenise_text_whole_word_and_prefix() {
    let (tokens, map) = word_map(&["a", "b", "c", "ab", "abc"]);
    let id = |s: &str| tokens.iter().position(|t| t == s).unwrap();
    let mut cache: StrMap<Vec<usize>> = StrMap::new();
    assert_eq!(tokenise_text("ABC", &map, &mut cache), vec![id("abc")]);
    assert_eq!(cache.get("abc"), None);
    assert_eq!(tokenise_text(" unab", &map, &mut cache), vec![id(" un"), id("ab")]);
    assert_eq!(cache.get(" unab"), Some(&vec![id(" un"), id("ab")]));
    assert_eq!(tokenise_text("cabca", &map, &mut cache), vec![id("c"), id("abc"), id("a")]);
    assert_eq!(tokenise_text("aXb", &map, &mut cache), vec![id("a"), id("b")]);
    assert_eq!(tokenise_text("a?b", &map, &mut cache), vec![id("a"), id("b")]);
}

#[test]
fn tokenise_text_cache_is_transparent() {
    let (_, map) = word_map(&["a", "b", "ab"]);
    let mut cache: StrMap<Vec<usize>> = StrMap::new();
    let first = tokenise_text(" dEbab", &map, &mut cache);
    let second = tokenise_text(" debAB", &map, &mut cache);
    assert_eq!(first, second);
    assert_eq!(cache.keys(), &strings(&[" debab"]));
}

#[test]
fn tokenise_text_stale_cache_is_used() {
    let (_, map) = word_map(&["a", "b"]);
    let mut cache: StrMap<Vec<usize>> = StrMap::new();
    cache.insert("ab".to_string(), vec![42]);
    assert_eq!(tokenise_text("AB", &map, &mut cache), vec![42]);
}

#[test]
fn tokenise_text_is_lossless_on_known_chars() {
    let (tokens, map) = word_map(&["o", "v", "e", "r", "t", "h", "ve", "ert"]);
    let mut cache: StrMap<Vec<usize>> = StrMap::new();
    let ids = tokenise_text(" OVERTHROVE", &map, &mut cache);
    assert_eq!(detokenise(&ids, &tokens), " overthrove");
}

#[test]
fn try_tokenise_text_missing_prefix() {
    let tokens = strings(&["a", "x"]);
    let map = token_map_from(&tokens);
    let mut cache: StrMap<Vec<usize>> = StrMap::new();
    assert_eq!(try_tokenise_text(" unx", &map, &mut cache), None);
    assert_eq!(cache.keys().len(), 0);
    assert_eq!(try_tokenise_text("xa", &map, &mut cache), Some(vec![1, 0]));
    let (_, full) = word_map(&["x"]);
    assert!(try_tokenise_text(" unx", &full, &mut cache).is_some());
}

#[test]
fn line_words_split_and_clean() {
    assert_eq!(
        line_words("Hello, World\tFOO  \u{e9}t\u{e9}\u{b}bar  "),
        strings(&[" hello,", " world", " foo", " t", " bar"])
    );
    assert_eq!(line_words("   "), Vec::<String>::new());
    assert_eq!(line_words(""), Vec::<String>::new());
}

#[test]
fn collect_words_reads_lines_in_order() {
    let lines = strings(&["A b", "", "c"]);
    assert_eq!(collect_words(&lines), strings(&[" a", " b", " c"]));
    let many: Vec<String> = (0..TOKEN_GEN_LENGTH + 5).map(|i| format!("w{}", i)).collect();
    let words = collect_words(&many);
    assert_eq!(words.len(), TOKEN_GEN_LENGTH);
    assert_eq!(words[TOKEN_GEN_LENGTH - 1], format!(" w{}", TOKEN_GEN_LENGTH - 1));
}

#[test]
fn rank_words_by_frequency() {
    let words = strings(&["b", "a", "b", "c", "a", "b", ""]);
    assert_eq!(rank_words(&words), strings(&["b", "a", "c"]));
    let ties = strings(&["x", "y", "y", "x", "z"]);
    assert_eq!(rank_words(&ties), strings(&["x", "y", "z"]));
    assert_eq!(rank_words(&vec![]), Vec::<String>::new());
}

#[test]
fn build_token_list_layout() {
    let ranked = strings(&[" the", " cat", " abcde", " xy"]);
    let list = build_token_list(&ranked, "{\"A\": 1, \"b\": 2}", 1, 3).unwrap();
    let mut expected = strings(&[" "]);
    expected.extend(prefixes());
    expected.extend(strings(&["a", "b", " the", " ca", " c", "at", " ab", "cde", " a", "bc", "de"]));
    assert_eq!(list, expected);
}

#[test]
fn build_token_list_skips_known_tokens() {
    let ranked = strings(&[" un", " be", " beat"]);
    let list = build_token_list(&ranked, "[1, 2]", 2, 3).unwrap();
    let mut expected = strings(&[" "]);
    expected.extend(prefixes());
    expected.extend(strings(&[" b", "ea"]));
    assert_eq!(list, expected);
}

#[test]
fn build_token_list_rejects_bad_json() {
    assert_eq!(build_token_list(&vec![], "{not json", 0, 0), Err(CharsetError::NotJson));
}

#[test]
fn read_charset_lowercases_and_dedupes() {
    let mut set: Vec<String> = vec![];
    let mut hash: StrMap<usize> = StrMap::new();
    assert_eq!(read_charset("{\"B\": 0, \"a\": 1, \"b\": 2}", &mut set, &mut hash), Ok(()));
    assert_eq!(set, strings(&["b", "a"]));
    assert_eq!(hash.get("b"), Some(&0));
    assert_eq!(hash.get("a"), Some(&1));
    assert!(contains_token(&set, &"a".to_string()));
}

#[test]
fn read_charset_errors() {
    let mut set = strings(&["q"]);
    let mut hash: StrMap<usize> = StrMap::new();
    assert_eq!(read_charset("nope", &mut set, &mut hash), Err(CharsetError::NotJson));
    assert_eq!(set, strings(&["q"]));
    assert_eq!(hash.get("q"), None);
    assert_eq!(read_charset("\"text\"", &mut set, &mut hash), Ok(()));
    assert_eq!(set, strings(&["q"]));
    assert_eq!(hash.get("q"), Some(&0));
}

#[test]
fn bpe_step_adds_most_common_pair() {
    let mut set = strings(&["a", "b"]);
    let mut hash = token_map_from(&set);
    let input = "abab".to_string();
    assert_eq!(bpe_step(&input, &mut set, &mut hash), Some((0, 1)));
    assert_eq!(set, strings(&["a", "b", "ab"]));
    assert_eq!(hash.get("ab"), Some(&2));
    assert_eq!(tokenise_string(&input, &set, &hash), vec![2, 2]);
    assert_eq!(bpe_step(&input, &mut set, &mut hash), Some((2, 2)));
    assert_eq!(set, strings(&["a", "b", "ab", "abab"]));
}

#[test]
fn bpe_step_needs_two_tokens() {
    let mut set = strings(&["a"]);
    let mut hash = token_map_from(&set);
    assert_eq!(bpe_step(&"a".to_string(), &mut set, &mut hash), None);
    assert_eq!(bpe_step(&"zz".to_string(), &mut set, &mut hash), None);
    assert_eq!(set, strings(&["a"]));
    assert!(TARGET_VOCAB_SIZE >= set.len());
}

#[test]
fn read_token_map_parses_list() {
    let (tokens, map) = read_token_map("[\"a\", \"b\", \"a\"]").unwrap();
    assert_eq!(tokens, strings(&["a", "b", "a"]));
    assert_eq!(map.get("a"), Some(&2));
    assert!(read_token_map("{\"a\": 1}").is_none());
    assert!(read_token_map("[1, 2]").is_none());
}

#[test]
fn pad_prompt_to_context() {
    let padded = pad_prompt(&vec![5, 6]);
    assert_eq!(padded.len(), CONTEXT_LENGTH);
    assert!(padded[..CONTEXT_LENGTH - 2].iter().all(|&x| x == 0));
    assert_eq!(&padded[CONTEXT_LENGTH - 2..], &[5, 6]);
    let long: Vec<usize> = (0..70).collect();
    let same = pad_prompt(&long);
    assert_eq!(same, (0..70).collect::<Vec<i32>>());
    assert_eq!(pad_prompt(&vec![usize::MAX])[CONTEXT_LENGTH - 1], -1);
}

#[test]
fn context_window_start() {
    assert_eq!(context_start(100), 36);
    assert_eq!(context_start(64), 0);
    assert_eq!(context_start(3), 0);
}

#[test]
fn model_info_records_size() {
    assert_eq!(ModelInfo::new(5).vocab_size, 5);
}

#[test]
fn text_helpers() {
    assert_eq!(chars_of("h\u{e9}"), vec!['h', '\u{e9}']);
    assert!(starts_with(&chars_of(" under"), &chars_of(" un")));
    assert!(!starts_with(&chars_of(" u"), &chars_of(" un")));
}

#[test]
fn tokenise_text_ignores_case() {
    let (_, map) = word_map(&["a", "b", "ab"]);
    let mut upper: StrMap<Vec<usize>> = StrMap::new();
    let mut lower: StrMap<Vec<usize>> = StrMap::new();
    let r1 = tokenise_text(" DeBAB", &map, &mut upper);
    let r2 = tokenise_text(" debab", &map, &mut lower);
    assert_eq!(r1, r2);
    assert_eq!(upper.keys(), lower.keys());
    assert_eq!(upper.get(" debab"), lower.get(" debab"));
}

#[test]
fn tokenise_text_drops_only_unknown_chars() {
    let (tokens, map) = word_map(&["a", "b", "c", "bc"]);
    let mut cache: StrMap<Vec<usize>> = StrMap::new();
    let ids = tokenise_text("a-B?c!", &map, &mut cache);
    assert_eq!(detokenise(&ids, &tokens), "abc");
    assert!(ids.iter().all(|&t| t < tokens.len()));
}

#[test]
fn most_common_pair_ignores_order_with_clear_winner() {
    let a = vec![(1, 2), (3, 4), (1, 2), (5, 6), (1, 2)];
    let b = vec![(5, 6), (1, 2), (3, 4), (1, 2), (1, 2)];
    assert_eq!(most_common_pair(&a), Some((1, 2)));
    assert_eq!(most_common_pair(&b), Some((1, 2)));
}

#[test]
fn later_lines_do_not_change_token_list() {
    let short: Vec<String> = (0..TOKEN_GEN_LENGTH).map(|i| format!("w{} common", i % 7)).collect();
    let mut long = short.clone();
    long.extend(strings(&["zzz zzz zzz", "other words here"]));
    let r1 = rank_words(&collect_words(&short));
    let r2 = rank_words(&collect_words(&long));
    assert_eq!(r1, r2);
    let t1 = build_token_list(&r1, "{}", 2, 6).unwrap();
    let t2 = build_token_list(&r2, "{}", 2, 6).unwrap();
    assert_eq!(t1, t2);
}

#[test]
fn vocabulary_loop_stop_test() {
    assert!(needs_more_tokens(TARGET_VOCAB_SIZE));
    assert!(!needs_more_tokens(TARGET_VOCAB_SIZE + 1));
    assert!(needs_more_tokens(0));
}

#[test]
fn tokenise_text_with_any_injective_map() {
    let mut map: StrMap<usize> = StrMap::new();
    map.insert("a".to_string(), 10);
    map.insert("b".to_string(), 20);
    map.insert("cd".to_string(), 5);
    let mut cache: StrMap<Vec<usize>> = StrMap::new();
    let ids = tokenise_text("A?bCD", &map, &mut cache);
    assert_eq!(ids, vec![10, 20, 5]);
    let joined: String = ids
        .iter()
        .map(|&t| find_key_for_value(&map, t).unwrap().clone())
        .collect();
    assert_eq!(joined, "abcd");
}

#[test]
fn find_key_takes_first_inserted() {
    let mut map: StrMap<usize> = StrMap::new();
    map.insert("x".to_string(), 1);
    map.insert("y".to_string(), 1);
    map.insert("z".to_string(), 2);
    assert_eq!(find_key_for_value(&map, 1), Some(&"x".to_string()));
    assert_eq!(find_key_for_value(&map, 2), Some(&"z".to_string()));
}
