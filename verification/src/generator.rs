//! Exhaustive enumeration of the words of a given length over the lowercase
//! Latin alphabet, in dictionary order.
//!
//! The enumeration is modelled by [`word_at`]: the word at position `index`
//! is `index` written in base 26 with a fixed number of digits, most
//! significant digit first, digit `0` being `a` and digit `25` being `z`.

use vstd::prelude::*;
use vstd::arithmetic::power::pow;
use vstd::arithmetic::power::lemma_pow_positive;

verus! {

/// Number of symbols in the alphabet.
pub const ALPHABET_LEN: u8 = 26;

/// The symbol of the given rank: rank 0 is `a`, rank 25 is `z`.
pub open spec fn symbol(rank: int) -> char {
    ('a' as int + rank) as char
}

/// The rank of a symbol in the alphabet.
pub open spec fn rank(c: char) -> int {
    c as int - 'a' as int
}

/// Whether `c` belongs to the alphabet.
pub open spec fn is_symbol(c: char) -> bool {
    0 <= rank(c) < 26
}

/// Whether `word` consists of exactly `len` symbols of the alphabet.
pub open spec fn is_word(word: Seq<char>, len: nat) -> bool {
    &&& word.len() == len
    &&& forall|k: int| 0 <= k < word.len() ==> is_symbol(#[trigger] word[k])
}

/// The word of `len` symbols that stands at position `index` of the
/// enumeration.
pub open spec fn word_at(len: nat, index: int) -> Seq<char>
    decreases len,
{
    if len == 0 {
        Seq::empty()
    } else {
        word_at((len - 1) as nat, index / 26).push(symbol(index % 26))
    }
}

/// The position at which a word stands in the enumeration of the words of
/// its length.
pub open spec fn index_of(word: Seq<char>) -> int
    decreases word.len(),
{
    if word.len() == 0 {
        0
    } else {
        index_of(word.drop_last()) * 26 + rank(word.last())
    }
}

/// Strict dictionary order: `a` is a proper prefix of `b`, or at the first
/// place where they differ `a` has the symbol of lower rank.
pub open spec fn precedes(a: Seq<char>, b: Seq<char>) -> bool {
    ||| (a.len() < b.len() && a == b.subrange(0, a.len() as int))
    ||| exists|k: int|
        0 <= k < a.len() && k < b.len() && #[trigger] a.subrange(0, k) == b.subrange(0, k)
            && rank(a[k]) < rank(b[k])
}

/// `26^(e+1)` is 26 times `26^e`, and every power of 26 is positive.
pub proof fn lemma_pow26_step(e: nat)
    ensures
        pow(26, e + 1) == 26 * pow(26, e),
        pow(26, e) > 0,
        pow(26, 0) == 1,
{
    reveal(pow);
    lemma_pow_positive(26, e);
}

/// Every entry of the enumeration is a word of the requested length.
pub proof fn lemma_word_at_is_word(len: nat, index: int)
    ensures
        is_word(word_at(len, index), len),
    decreases len,
{
    if len > 0 {
        lemma_word_at_is_word((len - 1) as nat, index / 26);
    }
}

/// A word stands at the position that `index_of` computes for it: the
/// enumeration lists no word twice.
pub proof fn lemma_index_of_word_at(len: nat, index: int)
    requires
        0 <= index < pow(26, len),
    ensures
        index_of(word_at(len, index)) == index,
    decreases len,
{
    lemma_word_at_is_word(len, index);
    if len == 0 {
        lemma_pow26_step(0);
    } else {
        let shorter = (len - 1) as nat;
        lemma_pow26_step(shorter);
        lemma_index_of_word_at(shorter, index / 26);
        let prefix = word_at(shorter, index / 26);
        assert(word_at(len, index).drop_last() =~= prefix);
    }
}

/// Every word of `len` symbols is listed, at a position below `26^len`.
pub proof fn lemma_word_at_index_of(word: Seq<char>, len: nat)
    requires
        is_word(word, len),
    ensures
        0 <= index_of(word) < pow(26, len),
        word_at(len, index_of(word)) == word,
    decreases len,
{
    if len == 0 {
        lemma_pow26_step(0);
        assert(word =~= Seq::empty());
    } else {
        let shorter = (len - 1) as nat;
        lemma_pow26_step(shorter);
        lemma_word_at_index_of(word.drop_last(), shorter);
        assert(is_symbol(word[len - 1]));
        assert(word.drop_last().push(word.last()) =~= word);
    }
}

/// Two different positions hold two different words.
pub proof fn lemma_words_distinct(len: nat, i: int, j: int)
    requires
        0 <= i < pow(26, len),
        0 <= j < pow(26, len),
        i != j,
    ensures
        word_at(len, i) != word_at(len, j),
{
    lemma_index_of_word_at(len, i);
    lemma_index_of_word_at(len, j);
}

/// The enumeration is strictly increasing in dictionary order.
pub proof fn lemma_order_is_lexicographic(len: nat, i: int, j: int)
    requires
        0 <= i < j < pow(26, len),
    ensures
        precedes(word_at(len, i), word_at(len, j)),
    decreases len,
{
    if len == 0 {
        lemma_pow26_step(0);
    } else {
        let shorter = (len - 1) as nat;
        lemma_pow26_step(shorter);
        let a = word_at(shorter, i / 26);
        let b = word_at(shorter, j / 26);
        let wa = word_at(len, i);
        let wb = word_at(len, j);
        lemma_word_at_is_word(shorter, i / 26);
        lemma_word_at_is_word(shorter, j / 26);
        if i / 26 == j / 26 {
            let k = len - 1;
            assert(wa.subrange(0, k) =~= a);
            assert(wb.subrange(0, k) =~= b);
            assert(rank(wa[k]) < rank(wb[k]));
        } else {
            lemma_order_is_lexicographic(shorter, i / 26, j / 26);
            let k = choose|k: int|
                0 <= k < a.len() && k < b.len() && #[trigger] a.subrange(0, k) == b.subrange(0, k)
                    && rank(a[k]) < rank(b[k]);
            assert(wa.subrange(0, k) =~= a.subrange(0, k));
            assert(wb.subrange(0, k) =~= b.subrange(0, k));
            assert(rank(wa[k]) < rank(wb[k]));
        }
    }
}

/// The symbol of rank `i`.
fn symbol_at(i: u8) -> (c: char)
    requires
        i < 26,
    ensures
        c == symbol(i as int),
{
    (97u8 + i) as char
}

/// `String::from_iter` over the characters of a vector: the string made of
/// exactly those characters, in the same order.
#[verifier::external_body]
fn string_of(chars: &Vec<char>) -> (s: String)
    ensures
        s@ == chars@,
{
    String::from_iter(chars)
}

/// Depth-first step of the enumeration: with `current` holding the word at
/// position `at` among the words of its own length, appends to `all` every
/// word of `length` symbols that begins with `current`.
fn extend(current: &mut Vec<char>, length: usize, all: &mut Vec<String>, Ghost(at): Ghost<int>)
    requires
        old(current)@.len() <= length,
        0 <= at < pow(26, old(current)@.len()),
        old(current)@ == word_at(old(current)@.len(), at),
        old(all)@.len() == at * pow(26, (length - old(current)@.len()) as nat),
        forall|i: int|
            0 <= i < old(all)@.len() ==> (#[trigger] old(all)@[i])@ == word_at(length as nat, i),
    ensures
        final(current)@ == old(current)@,
        final(all)@.len() == (at + 1) * pow(26, (length - old(current)@.len()) as nat),
        forall|i: int|
            0 <= i < final(all)@.len() ==> (#[trigger] final(all)@[i])@ == word_at(
                length as nat,
                i,
            ),
    decreases length - old(current)@.len(),
{
    let ghost prefix = current@;
    let ghost depth = current@.len();
    let ghost rest = (length - depth) as nat;
    if current.len() == length {
        proof {
            lemma_pow26_step(0);
            assert(rest == 0);
            assert(at * 1 == at && (at + 1) * 1 == at + 1);
        }
        let word = string_of(current);
        all.push(word);
        return ;
    }
    let ghost below = (rest - 1) as nat;
    proof {
        lemma_pow26_step(below);
        lemma_pow26_step(depth);
        assert(at * (26 * pow(26, below)) == (at * 26) * pow(26, below)) by (nonlinear_arith);
    }
    let mut idx: u8 = 0;
    while idx < ALPHABET_LEN
        invariant
            idx <= 26,
            depth < length,
            depth == old(current)@.len(),
            rest == length - depth,
            below == rest - 1,
            current@ == prefix,
            prefix.len() == depth,
            prefix == word_at(depth, at),
            0 <= at,
            at + 1 <= pow(26, depth),
            pow(26, depth + 1) == 26 * pow(26, depth),
            pow(26, rest) == 26 * pow(26, below),
            all@.len() == (at * 26 + idx) * pow(26, below),
            forall|i: int| 0 <= i < all@.len() ==> (#[trigger] all@[i])@ == word_at(length as nat, i),
        decreases 26 - idx,
    {
        let c = symbol_at(idx);
        current.push(c);
        let ghost next = at * 26 + idx;
        proof {
            assert(next / 26 == at && next % 26 == idx);
            assert(word_at(depth + 1, next) == word_at(depth, next / 26).push(symbol(next % 26)));
            assert(current@ == word_at(depth + 1, next));
            assert(next < pow(26, depth + 1));
        }
        extend(current, length, all, Ghost(next));
        current.pop();
        proof {
            assert(current@ =~= prefix);
        }
        idx = idx + 1;
    }
    proof {
        assert((at * 26 + 26) * pow(26, below) == (at + 1) * (26 * pow(26, below)))
            by (nonlinear_arith);
    }
}

/// Lists every word of `length` symbols over the alphabet, each exactly
/// once, in dictionary order: `26^length` words in all, the word at position
/// `i` being `word_at(length, i)`. For `length == 0` the list holds the
/// empty word alone.
#[allow(non_snake_case)]
pub fn generateAllCombinations(length: usize) -> (all: Vec<String>)
    ensures
        all@.len() == pow(26, length as nat),
        forall|i: int| 0 <= i < all@.len() ==> (#[trigger] all@[i])@ == word_at(length as nat, i),
        forall|i: int| 0 <= i < all@.len() ==> is_word((#[trigger] all@[i])@, length as nat),
        forall|i: int, j: int|
            0 <= i < j < all@.len() ==> precedes((#[trigger] all@[i])@, (#[trigger] all@[j])@),
        forall|i: int, j: int|
            0 <= i < all@.len() && 0 <= j < all@.len() && i != j ==> (#[trigger] all@[i])@ != (
            #[trigger] all@[j])@,
        forall|word: Seq<char>| #[trigger]
            is_word(word, length as nat) ==> 0 <= index_of(word) < all@.len() && all@[index_of(
                word,
            )]@ == word,
{
    let mut all: Vec<String> = Vec::new();
    let mut current: Vec<char> = Vec::new();
    proof {
        lemma_pow26_step(0);
    }
    extend(&mut current, length, &mut all, Ghost(0));
    proof {
        let len = length as nat;
        assert forall|i: int| 0 <= i < all@.len() implies is_word(
            (#[trigger] all@[i])@,
            len,
        ) by {
            lemma_word_at_is_word(len, i);
        }
        assert forall|i: int, j: int| 0 <= i < j < all@.len() implies precedes(
            (#[trigger] all@[i])@,
            (#[trigger] all@[j])@,
        ) by {
            lemma_order_is_lexicographic(len, i, j);
        }
        assert forall|i: int, j: int|
            0 <= i < all@.len() && 0 <= j < all@.len() && i != j implies (#[trigger] all@[i])@ != (
        #[trigger] all@[j])@ by {
            lemma_words_distinct(len, i, j);
        }
        assert forall|word: Seq<char>| #[trigger] is_word(word, len) implies 0 <= index_of(word)
            < all@.len() && all@[index_of(word)]@ == word by {
            lemma_word_at_index_of(word, len);
        }
    }
    all
}

} // verus!
