use crate::strmap::StrMap;
use vstd::prelude::*;

verus! {

broadcast use vstd::string::group_string_axioms;

/// The number of token ids the model reads at a time.
pub const CONTEXT_LENGTH: usize = 64;

/// A key of `map` whose value is `value` (the first such key in the order of
/// insertion), or `None` where no key has that value.
pub fn find_key_for_value(map: &StrMap<usize>, value: usize) -> (r: Option<&String>)
    ensures
        r is None <==> !exists|k: Seq<char>| #[trigger] map@.contains_key(k) && map@[k] == value,
        r matches Some(k) ==> map@.contains_key(k@) && map@[k@] == value,
        r matches Some(k) ==> exists|j: int|
            0 <= j < map.key_order().len() && map.key_order()[j] == k@ && forall|i: int|
                0 <= i < j ==> map@[#[trigger] map.key_order()[i]] != value,
{
    let keys = map.keys();
    for i in 0..keys.len()
        invariant
            keys@.map_values(|s: String| s@) == map.key_order(),
            forall|j: int| 0 <= j < i ==> map@[#[trigger] keys@[j]@] != value,
            forall|j: int| 0 <= j < keys@.len() ==> map@.contains_key(#[trigger] keys@[j]@),
            forall|k: Seq<char>|
                #[trigger] map@.contains_key(k) ==> exists|j: int| 0 <= j < keys@.len() && #[trigger] keys@[j]@ == k,
    {
        let key = &keys[i];
        let v = map.get(key.as_str());
        if *v.unwrap() == value {
            proof {
                assert(map.key_order()[i as int] == key@);
                assert forall|j: int| 0 <= j < i implies map@[#[trigger] map.key_order()[j]] != value by {
                    assert(map.key_order()[j] == keys@[j]@);
                }
            }
            return Some(key);
        }
    }
    proof {
        assert forall|k: Seq<char>| #[trigger] map@.contains_key(k) implies map@[k] != value by {
            let j = choose|j: int| 0 <= j < keys@.len() && #[trigger] keys@[j]@ == k;
        }
    }
    None
}

/// `tokens` as model input: each id converted to `i32`, with zeros put in
/// front up to the context length.
pub open spec fn padded_prompt(tokens: Seq<usize>) -> Seq<i32> {
    let pad: int = if tokens.len() < CONTEXT_LENGTH { CONTEXT_LENGTH - tokens.len() } else { 0 };
    Seq::new(pad as nat, |i: int| 0i32) + tokens.map_values(|t: usize| t as i32)
}

/// The model input for a prompt: the ids as `i32` (wrapping, as `as` does),
/// left-padded with zeros to at least the context length.
pub fn pad_prompt(tokens: &Vec<usize>) -> (r: Vec<i32>)
    ensures
        r@ == padded_prompt(tokens@),
{
    let mut r: Vec<i32> = Vec::new();
    let pad: usize = if tokens.len() < CONTEXT_LENGTH { CONTEXT_LENGTH - tokens.len() } else { 0 };
    for i in 0..pad
        invariant
            r@ == Seq::new(i as nat, |k: int| 0i32),
    {
        r.push(0);
        assert(r@ =~= Seq::new((i + 1) as nat, |k: int| 0i32));
    }
    let ghost front = r@;
    for i in 0..tokens.len()
        invariant
            pad == (if tokens.len() < CONTEXT_LENGTH { CONTEXT_LENGTH - tokens.len() } else { 0 }),
            front == Seq::new(pad as nat, |k: int| 0i32),
            r@ == front + tokens@.take(i as int).map_values(|t: usize| t as i32),
    {
        r.push(tokens[i] as i32);
        assert(tokens@.take(i + 1).map_values(|t: usize| t as i32) =~= tokens@.take(i as int).map_values(
            |t: usize| t as i32,
        ).push(tokens[i as int] as i32));
        assert(r@ =~= front + tokens@.take(i + 1).map_values(|t: usize| t as i32));
    }
    assert(tokens@.take(tokens.len() as int) =~= tokens@);
    r
}

/// Where the window of the last `CONTEXT_LENGTH` ids of a prompt of `len` ids starts.
pub fn context_start(len: usize) -> (r: usize)
    ensures
        r == if len > CONTEXT_LENGTH { len - CONTEXT_LENGTH } else { 0 },
{
    len.saturating_sub(CONTEXT_LENGTH)
}

} // verus!
