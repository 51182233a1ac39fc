use username_sweep::generator::generateAllCombinations;

#[test]
fn length_zero_gives_the_empty_word_alone() {
    let all = generateAllCombinations(0);
    assert_eq!(all, vec![String::new()]);
}

#[test]
fn length_one_gives_the_alphabet_in_order() {
    let all = generateAllCombinations(1);
    let expected: Vec<String> = "abcdefghijklmnopqrstuvwxyz".chars().map(|c| c.to_string()).collect();
    assert_eq!(all.len(), 26);
    assert_eq!(all, expected);
}

#[test]
fn length_two_gives_676_words_at_known_positions() {
    let all = generateAllCombinations(2);
    assert_eq!(all.len(), 676);
    assert_eq!(all[0], "aa");
    assert_eq!(all[1], "ab");
    assert_eq!(all[25], "az");
    assert_eq!(all[26], "ba");
    assert_eq!(all[27], "bb");
    assert_eq!(all[675], "zz");
}

#[test]
fn length_three_gives_17576_words() {
    let all = generateAllCombinations(3);
    assert_eq!(all.len(), 17576);
    assert_eq!(all[0], "aaa");
    assert_eq!(all[26 * 26], "baa");
    assert_eq!(all[26 * 26 + 26 + 2], "bbc");
    assert_eq!(all[17575], "zzz");
}

#[test]
fn every_word_has_the_requested_length_and_lowercase_letters() {
    for length in 0..4usize {
        for word in generateAllCombinations(length) {
            assert_eq!(word.chars().count(), length);
            assert!(word.chars().all(|c| c.is_ascii_lowercase()));
        }
    }
}

#[test]
fn words_are_strictly_increasing_and_so_distinct() {
    for length in 1..4usize {
        let all = generateAllCombinations(length);
        for pair in all.windows(2) {
            assert!(pair[0] < pair[1]);
        }
    }
}

#[test]
fn every_word_is_listed() {
    let all = generateAllCombinations(2);
    for first in 'a'..='z' {
        for second in 'a'..='z' {
            let word: String = [first, second].iter().collect();
            assert_eq!(all.iter().filter(|w| **w == word).count(), 1);
        }
    }
}

#[test]
fn the_same_length_gives_the_same_list() {
    assert_eq!(generateAllCombinations(2), generateAllCombinations(2));
}
