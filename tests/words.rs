use words_with_letters::{
    expand_sentences_found, rank_sentences, remove_first, remove_letters, seed_sentences,
    sentences_for_letters, sentences_for_letters_with_progress, words_for_letters_in_file,
    BaseWord, Sentence,
};

fn base_words(list: &[&str]) -> Vec<BaseWord> {
    list.iter().map(|w| BaseWord::new(w.to_string())).collect()
}

fn sorted(mut v: Vec<char>) -> Vec<char> {
    v.sort();
    v
}

#[test]
fn word_can_build_from_letters_duplicate_letter() {
    let word = "happy".to_string();
    let chars = vec!['h', 'a', 'p', 'y'];
    assert_eq!(BaseWord::new(word).word_can_build_from_letters(&chars), false)
}

#[test]
fn word_can_build_from_letters_happy() {
    let word = "happy".to_string();
    let chars = vec!['h', 'a', 'p', 'y', 'p'];
    assert_eq!(BaseWord::new(word).word_can_build_from_letters(&chars), true)
}

#[test]
fn remove_first_exists() {
    let mut chars = vec!['h', 'a', 'p', 'y', 'p'];
    remove_first(&mut chars, |c| *c == 'a');
    assert_eq!(chars, vec!['h', 'p', 'y', 'p'])
}

#[test]
fn remove_first_no_match() {
    let mut chars = vec!['h', 'a', 'p', 'y', 'p'];
    remove_first(&mut chars, |c| *c == 'z');
    assert_eq!(chars, vec!['h', 'a', 'p', 'y', 'p'])
}

#[test]
fn remove_first_only_first_of_duplicates() {
    let mut chars = vec!['h', 'a', 'p', 'y', 'p'];
    remove_first(&mut chars, |c| *c == 'p');
    assert_eq!(chars, vec!['h', 'a', 'y', 'p'])
}

#[test]
fn sentences_for_letters_multiple_words() {
    let chars = vec![
        'y', 'o', 'u', 'h', 'o', 'u', 'i', 'c', 'a', 'n', 'r', 'u', 'n', 't', 'h', 'i', 's',
    ];
    let words = vec!["you", "can", "run", "this"]
        .iter()
        .map(|w| BaseWord::new(w.to_string()))
        .collect();
    let sentences = sentences_for_letters(&words, &chars, 4, false);
    println!("{:#?}", sentences);
    assert_eq!(sentences.len(), 6);
    let expected_result: Vec<String> = vec![
        "this can run you",
        "this can you run",
        "this run can you",
        "this run you can",
        "this you can run",
        "this you run can",
    ]
    .iter()
    .map(|w| w.to_string())
    .collect();
    assert_eq!(sentences.len(), expected_result.len());
    assert_eq!(sentences, expected_result)
}

#[test]
fn word_can_be_built_from_its_own_letters() {
    fn prop(word: String) -> bool {
        let chars: Vec<char> = word.chars().collect();
        BaseWord::new(word).word_can_build_from_letters(&chars)
    }
    quickcheck::quickcheck(prop as fn(String) -> bool);
}

#[test]
fn word_cant_be_built_from_different_letters() {
    fn prop(word: String) -> bool {
        let chars: Vec<char> = word.chars().collect();
        let other_word = format!("{}a", word);
        !BaseWord::new(other_word).word_can_build_from_letters(&chars)
    }
    quickcheck::quickcheck(prop as fn(String) -> bool);
}

#[test]
fn word_fits_own_letters_plus_one() {
    let word = BaseWord::new("happy".to_string());
    assert!(word.word_can_build_from_letters(&vec!['h', 'a', 'p', 'p', 'y', 'z']));
    assert!(word.word_can_build_from_letters(&vec!['y', 'p', 'p', 'a', 'h']));
}

#[test]
fn word_with_extra_letter_does_not_fit() {
    let word = BaseWord::new("happyx".to_string());
    assert!(!word.word_can_build_from_letters(&vec!['h', 'a', 'p', 'p', 'y']));
    let word = BaseWord::new("happyp".to_string());
    assert!(!word.word_can_build_from_letters(&vec!['h', 'a', 'p', 'p', 'y']));
}

#[test]
fn empty_word_fits_any_bag() {
    let word = BaseWord::new(String::new());
    assert!(word.word_can_build_from_letters(&vec![]));
    assert!(word.word_can_build_from_letters(&vec!['a']));
}

#[test]
fn case_is_not_folded() {
    let word = BaseWord::new("Ab".to_string());
    assert!(!word.word_can_build_from_letters(&vec!['a', 'b']));
}

#[test]
fn remove_letters_then_add_back_gives_bag() {
    let bag = vec!['h', 'a', 'p', 'y', 'p', 'z'];
    let word = vec!['p', 'a', 'p'];
    assert!(BaseWord::new("pap".to_string()).word_can_build_from_letters(&bag));
    let mut rest = bag.clone();
    remove_letters(&mut rest, &word);
    assert_eq!(rest, vec!['h', 'y', 'z']);
    let mut back = rest.clone();
    back.extend(word.iter());
    assert_eq!(sorted(back), sorted(bag));
}

#[test]
fn same_canonical_words_are_kept_once() {
    let letters = vec!['a', 'b', 'c', 'd'];
    let sentences = sentences_for_letters(&base_words(&["abc", "d"]), &letters, 2, false);
    assert_eq!(sentences, vec!["abc d".to_string()]);
}

#[test]
fn equal_length_words_in_other_order_are_not_merged() {
    let letters = vec!['a', 'b', 'c', 'd'];
    let sentences = sentences_for_letters(&base_words(&["ab", "cd"]), &letters, 2, false);
    assert_eq!(sentences, vec!["ab cd".to_string(), "cd ab".to_string()]);
}

#[test]
fn ranking_longest_first_then_text() {
    let letters = vec!['a', 'b', 'c', 'd', 'e'];
    let sentences = sentences_for_letters(&base_words(&["b", "cde", "a", "ab"]), &letters, 1, false);
    assert_eq!(
        sentences,
        vec!["cde".to_string(), "ab".to_string(), "a".to_string(), "b".to_string()]
    );
}

#[test]
fn single_word_sentences_are_the_base_words() {
    let chars = vec![
        'y', 'o', 'u', 'h', 'o', 'u', 'i', 'c', 'a', 'n', 'r', 'u', 'n', 't', 'h', 'i', 's',
    ];
    let sentences = sentences_for_letters(&base_words(&["you", "can", "run", "this"]), &chars, 1, false);
    assert_eq!(
        sentences,
        vec!["this".to_string(), "can".to_string(), "run".to_string(), "you".to_string()]
    );
}

#[test]
fn shorter_sentence_that_cannot_grow_is_kept() {
    let letters = vec!['a', 'b', 'c'];
    let sentences = sentences_for_letters(&base_words(&["ab", "c", "abc"]), &letters, 3, true);
    assert_eq!(
        sentences,
        vec!["ab c".to_string(), "abc".to_string()]
    );
}

#[test]
fn unused_letters_are_shown_when_asked() {
    let letters = vec!['a', 'b', 'x'];
    let sentences = sentences_for_letters(&base_words(&["ab"]), &letters, 1, true);
    assert_eq!(sentences, vec!["ab (unused letters:['x'])".to_string()]);
    let plain = sentences_for_letters(&base_words(&["ab"]), &letters, 1, false);
    assert_eq!(plain, vec!["ab".to_string()]);
}

#[test]
fn dictionary_filter_keeps_fitting_words_in_order() {
    let letters = vec!['c', 'a', 't', 's'];
    let lines: Vec<String> = vec!["cat", "dog", "acts", "catss", "", "sat"]
        .iter()
        .map(|w| w.to_string())
        .collect();
    let found = words_for_letters_in_file(lines, &letters);
    let texts: Vec<String> = found.iter().map(|w| w.text().clone()).collect();
    assert_eq!(texts, vec!["cat", "acts", "", "sat"]);
}

#[test]
fn word_longer_than_bag_never_appears() {
    let letters = vec!['a', 'b'];
    let lines: Vec<String> = vec!["ab", "abab", "a"].iter().map(|w| w.to_string()).collect();
    let found = words_for_letters_in_file(lines, &letters);
    assert_eq!(found.len(), 2);
    let sentences = sentences_for_letters(&found, &letters, 2, false);
    assert!(sentences.iter().all(|s| !s.contains("abab")));
    assert_eq!(sentences, vec!["ab".to_string(), "a".to_string()]);
}

#[test]
fn sentence_display_and_completion() {
    let letters = vec!['a', 'b', 'x', 'y'];
    let sentence = BaseWord::new("ab".to_string()).to_sentence(&letters);
    assert_eq!(sentence.display(false), "ab");
    assert_eq!(sentence.display(true), "ab (unused letters:['x', 'y'])");
    assert!(!sentence.is_completed());
    let marked = sentence.mark_as_max_expansion_reached();
    assert!(marked.is_completed());
    assert_eq!(marked.display(false), "ab");
    let full = BaseWord::new("yxba".to_string()).to_sentence(&letters);
    assert!(full.is_completed());
    assert_eq!(full.display(true), "yxba");
}

#[test]
fn sentence_new_joins_words_in_given_order() {
    let words = vec![BaseWord::new("this".to_string()), BaseWord::new("can".to_string())];
    let sentence = Sentence::new(words, vec!['z']);
    assert_eq!(sentence.display(false), "this can");
    assert_eq!(sentence.joined(), "this can");
    let single = Sentence::start(BaseWord::new("run".to_string()), vec![]);
    assert_eq!(single.display(true), "run");
}

#[test]
fn expansion_step_grows_and_marks() {
    let letters = vec!['a', 'b', 'c'];
    let words = vec![BaseWord::new("ab".to_string()), BaseWord::new("c".to_string())];
    let seeds = seed_sentences(&words, &letters);
    assert_eq!(seeds.len(), 2);
    let next = expand_sentences_found(&words, &seeds);
    assert_eq!(next.len(), 1);
    let again = expand_sentences_found(&words, &next);
    assert_eq!(again.len(), 1);
    assert!(again[0].is_completed());
    assert_eq!(rank_sentences(&again, false), vec!["ab c".to_string()]);
}

#[test]
fn progress_reports_each_generation_size() {
    let letters = vec!['a', 'b', 'c'];
    let words = vec![BaseWord::new("ab".to_string()), BaseWord::new("c".to_string())];
    let (found, sizes) = sentences_for_letters_with_progress(&words, &letters, 3, false);
    assert_eq!(sizes, vec![2, 1]);
    assert_eq!(found, vec!["ab c".to_string()]);
    let (single, none) = sentences_for_letters_with_progress(&words, &letters, 1, false);
    assert!(none.is_empty());
    assert_eq!(single, vec!["ab".to_string(), "c".to_string()]);
}

#[test]
fn growing_keeps_words_sorted_by_length() {
    let letters = vec!['a', 'b', 'c', 'd', 'e', 'f'];
    let words = vec![
        BaseWord::new("a".to_string()),
        BaseWord::new("bcd".to_string()),
        BaseWord::new("ef".to_string()),
    ];
    let sentences = sentences_for_letters(&words, &letters, 3, false);
    assert_eq!(sentences, vec!["bcd ef a".to_string()]);
}

#[test]
fn base_word_clone_and_equality() {
    let word = BaseWord::new("happy".to_string());
    let copy = word.clone();
    assert!(copy == word);
    assert_eq!(copy.text(), "happy");
    assert!(BaseWord::new("happy".to_string()) != BaseWord::new("hapy".to_string()));
}
