use crate::tokens::token_views;
use vstd::prelude::*;

verus! {

broadcast use vstd::string::group_string_axioms;

/// The characters of `s`, in order.
pub fn chars_of(s: &str) -> (r: Vec<char>)
    ensures
        r@ == s@,
{
    let mut r: Vec<char> = Vec::new();
    for c in it: s.chars()
        invariant
            it.seq() == s@,
            r@ == it.seq().take(it.index() as int),
    {
        r.push(c);
    }
    r
}

/// Collects characters into a string (std's `FromIterator<char>` for `String`).
#[verifier::external_body]
pub(crate) fn string_from_chars(cs: &[char]) -> (r: String)
    ensures
        r@ == cs@,
{
    cs.iter().collect()
}

/// What std's `str::to_lowercase` gives for a string: its lowercase form by
/// the Unicode case tables, where one character may map to several.
pub uninterp spec fn lowercase(s: Seq<char>) -> Seq<char>;

/// std's `str::to_lowercase`; its result is named by `lowercase`.
#[verifier::external_body]
pub(crate) fn to_lowercase(s: &str) -> (r: String)
    ensures
        r@ == lowercase(s@),
{
    s.to_lowercase()
}

/// `p` is a prefix of `s`.
pub open spec fn has_prefix(s: Seq<char>, p: Seq<char>) -> bool {
    p.len() <= s.len() && s.take(p.len() as int) == p
}

pub fn starts_with(s: &Vec<char>, p: &Vec<char>) -> (r: bool)
    ensures
        r == has_prefix(s@, p@),
{
    if p.len() > s.len() {
        return false;
    }
    let mut i: usize = 0;
    while i < p.len()
        invariant
            p.len() <= s.len(),
            i <= p.len(),
            s@.take(i as int) == p@.take(i as int),
        decreases p.len() - i,
    {
        if s[i] != p[i] {
            assert(s@.take(p.len() as int)[i as int] != p@[i as int]);
            return false;
        }
        i += 1;
        assert(s@.take(i as int) =~= p@.take(i as int));
    }
    assert(p@.take(p.len() as int) =~= p@);
    true
}

/// The whitespace characters among ASCII, as `char::is_whitespace` has them.
pub open spec fn is_ascii_space(c: char) -> bool {
    c == ' ' || c == '\t' || c == '\n' || c == '\x0B' || c == '\x0C' || c == '\r'
}

/// The ASCII lowercase of `c`: `A` to `Z` become `a` to `z`, the rest stays.
pub open spec fn ascii_lower(c: char) -> char {
    if 'A' <= c <= 'Z' {
        ((c as u32) + 32) as char
    } else {
        c
    }
}

pub open spec fn is_ascii_char(c: char) -> bool {
    (c as u32) < 128
}

/// The ASCII characters of `s`, lowercased, in order.
pub open spec fn ascii_lowered(s: Seq<char>) -> Seq<char>
    decreases s.len(),
{
    if s.len() == 0 {
        seq![]
    } else if is_ascii_char(s.last()) {
        ascii_lowered(s.drop_last()).push(ascii_lower(s.last()))
    } else {
        ascii_lowered(s.drop_last())
    }
}

/// The words of `s` (maximal runs of characters that are not ASCII
/// whitespace), read from the left with `cur` as the word begun so far.
pub open spec fn words_from(s: Seq<char>, cur: Seq<char>) -> Seq<Seq<char>>
    decreases s.len(),
{
    if s.len() == 0 {
        if cur.len() == 0 {
            seq![]
        } else {
            seq![cur]
        }
    } else if is_ascii_space(s[0]) {
        (if cur.len() == 0 {
            Seq::<Seq<char>>::empty()
        } else {
            seq![cur]
        }) + words_from(s.skip(1), seq![])
    } else {
        words_from(s.skip(1), cur.push(s[0]))
    }
}

/// The ASCII characters of `s`, in order.
pub open spec fn ascii_only(s: Seq<char>) -> Seq<char> {
    s.filter(|c: char| is_ascii_char(c))
}

/// The lowered text holds exactly the ASCII characters of `s`, in order, each
/// lowercased: other characters are deleted, not replaced.
pub proof fn lemma_ascii_lowered_keeps_ascii(s: Seq<char>)
    ensures
        ascii_lowered(s) == ascii_only(s).map_values(|c: char| ascii_lower(c)),
        ascii_lowered(s).len() == ascii_only(s).len(),
    decreases s.len(),
{
    reveal(Seq::filter);
    if s.len() > 0 {
        lemma_ascii_lowered_keeps_ascii(s.drop_last());
        let f = |c: char| is_ascii_char(c);
        assert(s.filter(f) == if f(s.last()) {
            s.drop_last().filter(f).push(s.last())
        } else {
            s.drop_last().filter(f)
        });
        assert(ascii_lowered(s) =~= ascii_only(s).map_values(|c: char| ascii_lower(c)));
    } else {
        assert(ascii_lowered(s) =~= ascii_only(s).map_values(|c: char| ascii_lower(c)));
    }
}

proof fn lemma_ascii_only_ascii(s: Seq<char>)
    ensures
        ascii_only(ascii_only(s)) == ascii_only(s),
{
    broadcast use vstd::seq_lib::group_filter_ensures;

    lemma_filter_all(ascii_only(s));
}

proof fn lemma_filter_all(t: Seq<char>)
    requires
        forall|i: int| 0 <= i < t.len() ==> is_ascii_char(#[trigger] t[i]),
    ensures
        ascii_only(t) == t,
    decreases t.len(),
{
    reveal(Seq::filter);
    if t.len() > 0 {
        lemma_filter_all(t.drop_last());
        assert(t.drop_last().push(t.last()) =~= t);
    }
}

/// The words of a line do not change when its non-ASCII characters are
/// removed first: such characters are deleted, never taken as separators.
pub proof fn lemma_line_words_ignore_non_ascii(line: Seq<char>)
    ensures
        line_words_spec(line) == line_words_spec(ascii_only(line)),
{
    lemma_ascii_lowered_keeps_ascii(line);
    lemma_ascii_lowered_keeps_ascii(ascii_only(line));
    lemma_ascii_only_ascii(line);
}

/// The words of a line, as the word list for the vocabulary takes them: only
/// the ASCII characters count, lowercased, split at whitespace, and each word
/// gets a space in front.
pub open spec fn line_words_spec(line: Seq<char>) -> Seq<Seq<char>> {
    spaced(words_from(ascii_lowered(line), seq![]))
}

pub open spec fn all_ascii(s: Seq<char>) -> bool {
    forall|i: int| 0 <= i < s.len() ==> is_ascii_char(#[trigger] s[i])
}

proof fn lemma_ascii_lowered_ascii(s: Seq<char>)
    ensures
        all_ascii(ascii_lowered(s)),
    decreases s.len(),
{
    if s.len() > 0 {
        lemma_ascii_lowered_ascii(s.drop_last());
    }
}

proof fn lemma_words_from_ascii(s: Seq<char>, cur: Seq<char>)
    requires
        all_ascii(s),
        all_ascii(cur),
    ensures
        forall|i: int| 0 <= i < words_from(s, cur).len() ==> all_ascii(#[trigger] words_from(s, cur)[i]),
    decreases s.len(),
{
    if s.len() == 0 {
        if cur.len() > 0 {
            assert(words_from(s, cur)[0] == cur);
        }
    } else {
        if is_ascii_space(s[0]) {
            lemma_words_from_ascii(s.skip(1), seq![]);
            let head: Seq<Seq<char>> = if cur.len() == 0 {
                Seq::<Seq<char>>::empty()
            } else {
                seq![cur]
            };
            assert(words_from(s, cur) == head + words_from(s.skip(1), seq![]));
            assert forall|i: int| 0 <= i < words_from(s, cur).len() implies all_ascii(
                #[trigger] words_from(s, cur)[i],
            ) by {
                if i >= head.len() {
                    assert(words_from(s, cur)[i] == words_from(s.skip(1), seq![])[i - head.len()]);
                } else {
                    assert(words_from(s, cur)[i] == cur);
                }
            }
        } else {
            assert(all_ascii(cur.push(s[0])));
            lemma_words_from_ascii(s.skip(1), cur.push(s[0]));
            assert(words_from(s, cur) == words_from(s.skip(1), cur.push(s[0])));
        }
    }
}

/// The words of a line are ASCII, with a space in front.
pub proof fn lemma_line_words_ascii(line: Seq<char>)
    ensures
        forall|i: int|
            0 <= i < line_words_spec(line).len() ==> all_ascii(#[trigger] line_words_spec(line)[i])
                && line_words_spec(line)[i].len() > 1 && line_words_spec(line)[i][0] == ' ',
{
    lemma_ascii_lowered_ascii(line);
    lemma_words_from_ascii(ascii_lowered(line), seq![]);
    lemma_words_nonempty(ascii_lowered(line), seq![]);
    assert forall|i: int| 0 <= i < line_words_spec(line).len() implies all_ascii(
        #[trigger] line_words_spec(line)[i],
    ) && line_words_spec(line)[i].len() > 1 && line_words_spec(line)[i][0] == ' ' by {
        let w = words_from(ascii_lowered(line), seq![])[i];
        assert(line_words_spec(line)[i] == seq![' '] + w);
        assert forall|j: int| 0 <= j < (seq![' '] + w).len() implies is_ascii_char(#[trigger] (seq![' '] + w)[j]) by {
            if j > 0 {
                assert((seq![' '] + w)[j] == w[j - 1]);
            }
        }
    }
}

proof fn lemma_words_nonempty(s: Seq<char>, cur: Seq<char>)
    ensures
        forall|i: int| 0 <= i < words_from(s, cur).len() ==> #[trigger] words_from(s, cur)[i].len() > 0,
    decreases s.len(),
{
    if s.len() == 0 {
        if cur.len() > 0 {
            assert(words_from(s, cur)[0] == cur);
        }
    } else {
        if is_ascii_space(s[0]) {
            lemma_words_nonempty(s.skip(1), seq![]);
            let head: Seq<Seq<char>> = if cur.len() == 0 {
                Seq::<Seq<char>>::empty()
            } else {
                seq![cur]
            };
            assert(words_from(s, cur) == head + words_from(s.skip(1), seq![]));
            assert forall|i: int| 0 <= i < words_from(s, cur).len() implies #[trigger] words_from(s, cur)[i].len() > 0 by {
                if i >= head.len() {
                    assert(words_from(s, cur)[i] == words_from(s.skip(1), seq![])[i - head.len()]);
                } else {
                    assert(words_from(s, cur)[i] == cur);
                }
            }
        } else {
            lemma_words_nonempty(s.skip(1), cur.push(s[0]));
            assert(words_from(s, cur) == words_from(s.skip(1), cur.push(s[0])));
        }
    }
}

fn is_space(c: char) -> (r: bool)
    ensures
        r == is_ascii_space(c),
{
    c == ' ' || c == '\t' || c == '\n' || c == '\x0B' || c == '\x0C' || c == '\r'
}

/// The ASCII characters of `line`, lowercased.
fn ascii_lowered_chars(line: &str) -> (r: Vec<char>)
    ensures
        r@ == ascii_lowered(line@),
{
    let mut r: Vec<char> = Vec::new();
    for c in it: line.chars()
        invariant
            it.seq() == line@,
            r@ == ascii_lowered(it.seq().take(it.index() as int)),
    {
        let ghost k = it.index();
        proof {
            assert(it.seq().take(k + 1).drop_last() =~= it.seq().take(k as int));
            assert(it.seq().take(k + 1).last() == c);
        }
        if (c as u32) < 128 {
            if 'A' <= c && c <= 'Z' {
                let lc = ((c as u8) + 32) as char;
                proof {
                    assert((c as u8) as int == (c as u32) as int);
                    assert(lc == ascii_lower(c));
                }
                r.push(lc);
            } else {
                r.push(c);
            }
        }
    }
    assert(line@.take(line@.len() as int) =~= line@);
    r
}

/// Each word with a space in front.
pub open spec fn spaced(ws: Seq<Seq<char>>) -> Seq<Seq<char>> {
    ws.map_values(|w: Seq<char>| seq![' '] + w)
}

proof fn lemma_spaced_append(a: Seq<Seq<char>>, b: Seq<Seq<char>>)
    ensures
        spaced(a + b) == spaced(a) + spaced(b),
{
    assert(spaced(a + b) =~= spaced(a) + spaced(b));
}

/// The words of `line`: its ASCII characters, lowercased, split at
/// whitespace, each word with a space in front.
pub fn line_words(line: &str) -> (r: Vec<String>)
    ensures
        token_views(r@) == line_words_spec(line@),
{
    let cs = ascii_lowered_chars(line);
    let mut out: Vec<String> = Vec::new();
    let mut cur: Vec<char> = vec![' '];
    let mut i: usize = 0;
    proof {
        assert(cs@.skip(0) =~= cs@);
        assert(cur@.skip(1) =~= Seq::<char>::empty());
        assert(token_views(out@) + spaced(words_from(cs@, seq![])) =~= spaced(words_from(cs@, seq![])));
    }
    while i < cs.len()
        invariant
            i <= cs@.len(),
            cur@.len() >= 1,
            cur@[0] == ' ',
            token_views(out@) + spaced(words_from(cs@.skip(i as int), cur@.skip(1))) == spaced(
                words_from(cs@, seq![]),
            ),
        decreases cs.len() - i,
    {
        let c = cs[i];
        let ghost rest = cs@.skip(i as int);
        let ghost cw = cur@.skip(1);
        let ghost before = token_views(out@);
        assert(rest[0] == c);
        assert(rest.skip(1) =~= cs@.skip(i + 1));
        if is_space(c) {
            if cur.len() > 1 {
                let w = string_from_chars(cur.as_slice());
                proof {
                    assert(cur@ =~= seq![' '] + cw);
                }
                out.push(w);
                proof {
                    assert(token_views(out@) =~= before + spaced(seq![cw]));
                    lemma_spaced_append(seq![cw], words_from(rest.skip(1), seq![]));
                }
            } else {
                proof {
                    assert(Seq::<Seq<char>>::empty() + words_from(rest.skip(1), seq![]) =~= words_from(
                        rest.skip(1),
                        seq![],
                    ));
                }
            }
            cur = vec![' '];
            proof {
                assert(cur@.skip(1) =~= Seq::<char>::empty());
            }
        } else {
            cur.push(c);
            proof {
                assert(cur@.skip(1) =~= cw.push(c));
            }
        }
        i += 1;
    }
    let ghost cw = cur@.skip(1);
    let ghost before = token_views(out@);
    proof {
        assert(cs@.skip(i as int) =~= Seq::<char>::empty());
    }
    if cur.len() > 1 {
        let w = string_from_chars(cur.as_slice());
        proof {
            assert(cur@ =~= seq![' '] + cw);
        }
        out.push(w);
        proof {
            assert(token_views(out@) =~= before + spaced(seq![cw]));
        }
    } else {
        proof {
            assert(spaced(Seq::<Seq<char>>::empty()) =~= Seq::<Seq<char>>::empty());
            assert(before + Seq::<Seq<char>>::empty() =~= before);
        }
    }
    out
}

} // verus!
