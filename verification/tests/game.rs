use hangman::game::{wants_database_count, GuessCheck, GuessOutcome, Hangman};

fn lines(words: &[&str]) -> Vec<String> {
    words.iter().map(|w| w.to_string()).collect()
}

fn game_with(length: usize, words: &[&str]) -> Hangman {
    let mut game = Hangman::default();
    game.set_length(length);
    game.make_word_database(&lines(words));
    game.make_init_word();
    game
}

fn database(game: &Hangman) -> Vec<String> {
    (0..game.count_database()).map(|i| game.word_at(i)).collect()
}

#[test]
fn default_game_starts_empty() {
    let game = Hangman::default();
    assert_eq!(game.count_database(), 0);
    assert_eq!(game.get_guesses_left(), 10);
    assert_eq!(game.word(), "");
    assert!(game.guessed_letters().is_empty());
}

#[test]
fn guesses_left_follows_initial_guesses() {
    let mut game = Hangman::default();
    game.set_initial_guesses(3);
    assert_eq!(game.get_guesses_left(), 3);
}

#[test]
fn init_word_is_stars_of_the_length() {
    let mut game = Hangman::default();
    game.set_length(5);
    game.make_init_word();
    assert_eq!(game.word(), "*****");
    assert!(!game.check_word_filled());
}

#[test]
fn empty_init_word_counts_as_filled() {
    let mut game = Hangman::default();
    game.set_length(0);
    game.make_init_word();
    assert_eq!(game.word(), "");
    assert!(game.check_word_filled());
}

#[test]
fn check_length_counts_characters() {
    let game = Hangman::default();
    let dict = lines(&["cat", "dogs", "\u{e9}t"]);
    assert!(game.check_length(&dict, 3));
    assert!(game.check_length(&dict, 4));
    assert!(game.check_length(&dict, 2));
    assert!(!game.check_length(&dict, 5));
    assert!(!game.check_length(&dict, 0));
    assert!(!game.check_length(&dict, -3));
}

#[test]
fn word_database_keeps_words_of_the_length_and_appends() {
    let mut game = Hangman::default();
    game.set_length(3);
    game.make_word_database(&lines(&["cat", "dogs", "cow", "a"]));
    assert_eq!(database(&game), vec!["cat", "cow"]);
    game.set_length(4);
    game.make_word_database(&lines(&["cat", "dogs"]));
    assert_eq!(database(&game), vec!["cat", "cow", "dogs"]);
}

#[test]
fn categorize_splits_by_the_guess() {
    let game = game_with(3, &["cat", "dog", "cow"]);
    assert_eq!(game.categorize("c"), (false, lines(&["dog"])));
    assert_eq!(game.categorize("o"), (false, lines(&["cat"])));
    assert_eq!(game.categorize("z"), (false, lines(&["cat", "dog", "cow"])));
    assert_eq!(game.categorize(""), (true, vec![]));
    let all = game_with(3, &["cat", "bat"]);
    assert_eq!(all.categorize("a"), (true, vec![]));
    assert_eq!(all.categorize("at"), (true, vec![]));
}

#[test]
fn check_guess_judges_answers() {
    let mut game = game_with(3, &["cat", "dog"]);
    assert_eq!(game.check_guess("ab"), GuessCheck::TooLong);
    assert_eq!(game.check_guess("d"), GuessCheck::Accepted);
    assert_eq!(game.take_guess("d"), Some(GuessOutcome::Miss));
    assert_eq!(game.check_guess("d"), GuessCheck::AlreadyGuessed);
    assert_eq!(game.check_guess("\u{e9}"), GuessCheck::TooLong);
    assert_eq!(game.check_guess(""), GuessCheck::Empty);
}

#[test]
fn miss_keeps_words_without_the_letter_and_costs_a_guess() {
    let mut game = game_with(3, &["cat", "dog", "cow"]);
    assert_eq!(game.take_guess("d"), Some(GuessOutcome::Miss));
    assert_eq!(database(&game), vec!["cat", "cow"]);
    assert_eq!(game.get_guesses_left(), 9);
    assert_eq!(game.guessed_letters(), &lines(&["d"]));
    assert_eq!(game.word(), "***");
}

#[test]
fn hit_on_a_single_word_reveals_its_letter() {
    let mut game = game_with(3, &["cat"]);
    assert_eq!(game.take_guess("a"), Some(GuessOutcome::Hit { copies: 1, plural: false }));
    assert_eq!(game.word(), "*a*");
    assert_eq!(database(&game), vec!["cat"]);
    assert_eq!(game.get_guesses_left(), 10);
    assert_eq!(game.guessed_letters(), &lines(&["a"]));
}

#[test]
fn hit_announces_the_fewest_copies() {
    let mut game = game_with(3, &["bat", "cat"]);
    assert_eq!(game.categorize_add_guess("a"), (1, false));
    assert_eq!(game.word(), "*a*");
    assert_eq!(database(&game), vec!["bat", "cat"]);
}

#[test]
fn hit_drops_words_over_the_limit() {
    let mut game = game_with(2, &["ba", "aa"]);
    assert_eq!(game.take_guess("a"), Some(GuessOutcome::Hit { copies: 1, plural: false }));
    assert_eq!(database(&game), vec!["ba"]);
    assert_eq!(game.word(), "*a");
}

#[test]
fn hit_keeps_the_one_group_sharing_a_pattern() {
    let mut game = game_with(3, &["bat", "cat", "hat"]);
    assert_eq!(game.take_guess("t"), Some(GuessOutcome::Hit { copies: 1, plural: false }));
    assert_eq!(game.word(), "**t");
    assert_eq!(database(&game), vec!["bat", "cat", "hat"]);
}

#[test]
fn hit_with_two_copies_in_every_word() {
    let mut game = game_with(3, &["dad"]);
    assert_eq!(game.take_guess("d"), Some(GuessOutcome::Hit { copies: 2, plural: true }));
    assert_eq!(database(&game), vec!["dad"]);
    assert_eq!(game.word(), "d*d");
}

#[test]
fn hit_on_an_empty_database_is_refused() {
    let mut game = game_with(3, &[]);
    assert_eq!(game.take_guess("a"), None);
}

#[test]
fn empty_answer_is_refused() {
    let mut game = game_with(3, &["cat"]);
    assert_eq!(game.take_guess(""), None);
    assert_eq!(game.word(), "***");
    assert!(game.guessed_letters().is_empty());
}

#[test]
fn short_words_are_refused_on_a_hit() {
    let mut game = game_with(3, &["cat"]);
    game.set_length(4);
    assert_eq!(game.take_guess("a"), None);
    assert_eq!(database(&game), vec!["cat"]);
}

#[test]
fn miss_then_hit_costs_one_guess() {
    let mut game = game_with(3, &["cat", "dog"]);
    assert_eq!(game.take_guess("c"), Some(GuessOutcome::Miss));
    assert_eq!(database(&game), vec!["dog"]);
    assert_eq!(game.get_guesses_left(), 9);
    assert_eq!(game.take_guess("g"), Some(GuessOutcome::Hit { copies: 1, plural: false }));
    assert_eq!(game.get_guesses_left(), 9);
    assert_eq!(game.word(), "**g");
    assert_eq!(game.guessed_letters(), &lines(&["c", "g"]));
}

#[test]
fn keep_pattern_keeps_exactly_the_words_with_that_pattern() {
    let mut game = game_with(3, &["xab", "cab", "cat", "cow", "coc"]);
    game.keep_pattern(&vec![0], "c");
    assert_eq!(database(&game), vec!["cab", "cat", "cow"]);
    assert_eq!(game.word(), "c**");
}

#[test]
fn keep_pattern_writes_every_listed_position() {
    let mut game = game_with(4, &["abab"]);
    game.keep_pattern(&vec![0, 2], "a");
    assert_eq!(game.word(), "a*a*");
    assert_eq!(database(&game), vec!["abab"]);
    let mut empty = game_with(4, &[]);
    empty.keep_pattern(&vec![1, 3, 7], "z");
    assert_eq!(empty.word(), "*z*z");
}

#[test]
fn guessing_every_letter_fills_the_word() {
    let mut game = game_with(2, &["ab"]);
    assert_eq!(game.take_guess("a"), Some(GuessOutcome::Hit { copies: 1, plural: false }));
    assert!(!game.check_word_filled());
    assert_eq!(game.take_guess("b"), Some(GuessOutcome::Hit { copies: 1, plural: false }));
    assert_eq!(game.word(), "ab");
    assert!(game.check_word_filled());
}

#[test]
fn choose_random_word_picks_a_candidate() {
    let game = game_with(3, &["cat", "dog", "cow"]);
    for _ in 0..20 {
        let w = game.choose_random_word();
        assert!(["cat", "dog", "cow"].contains(&w.as_str()));
    }
}

#[test]
fn word_at_reads_in_order() {
    let game = game_with(3, &["cat", "dog"]);
    assert_eq!(game.word_at(0), "cat");
    assert_eq!(game.word_at(1), "dog");
}

#[test]
fn database_count_answers() {
    assert!(wants_database_count("1"));
    assert!(wants_database_count("t"));
    assert!(wants_database_count("yes"));
    assert!(wants_database_count("y"));
    assert!(!wants_database_count("no"));
    assert!(!wants_database_count(""));
    assert!(!wants_database_count("true"));
}

#[test]
fn hit_drops_every_word_with_more_copies() {
    let mut game = game_with(3, &["cab", "aaa", "aaa"]);
    assert_eq!(game.take_guess("a"), Some(GuessOutcome::Hit { copies: 1, plural: false }));
    assert_eq!(database(&game), vec!["cab"]);
    assert_eq!(game.word(), "*a*");
}

#[test]
fn hit_keeps_the_largest_group() {
    let mut game = game_with(2, &["ab", "ba", "ca"]);
    assert_eq!(game.take_guess("a"), Some(GuessOutcome::Hit { copies: 1, plural: false }));
    assert_eq!(database(&game), vec!["ba", "ca"]);
    assert_eq!(game.word(), "*a");
    assert_eq!(game.guessed_letters(), &lines(&["a"]));
}

#[test]
fn hit_keeps_the_lowest_multiple() {
    let mut game = game_with(3, &["aab", "abc"]);
    assert_eq!(game.take_guess("a"), Some(GuessOutcome::Hit { copies: 1, plural: false }));
    assert_eq!(database(&game), vec!["abc"]);
    assert_eq!(game.word(), "a**");
}

#[test]
fn hit_on_five_words_keeps_the_largest_one_copy_group() {
    let mut game = game_with(3, &["bad", "abc", "acd", "aef", "bae"]);
    assert_eq!(game.take_guess("a"), Some(GuessOutcome::Hit { copies: 1, plural: false }));
    assert_eq!(database(&game), vec!["abc", "acd", "aef"]);
    assert_eq!(game.word(), "a**");
}

#[test]
fn hit_prefers_the_fewest_copies_over_group_size() {
    let mut game = game_with(3, &["aab", "bab", "aab", "bab", "bab"]);
    assert_eq!(game.take_guess("a"), Some(GuessOutcome::Hit { copies: 1, plural: false }));
    assert_eq!(database(&game), vec!["bab", "bab", "bab"]);
    assert_eq!(game.word(), "*a*");
}

#[test]
fn tied_largest_groups_can_each_be_drawn() {
    let mut seen_first = false;
    let mut seen_last = false;
    for _ in 0..60 {
        let mut game = game_with(2, &["ab", "ba"]);
        assert_eq!(game.take_guess("a"), Some(GuessOutcome::Hit { copies: 1, plural: false }));
        let words = database(&game);
        if words == vec!["ab"] {
            assert_eq!(game.word(), "a*");
            seen_first = true;
        } else {
            assert_eq!(words, vec!["ba"]);
            assert_eq!(game.word(), "*a");
            seen_last = true;
        }
    }
    assert!(seen_first && seen_last);
}


#[test]
fn empty_answer_is_judged_empty_before_anything_is_guessed() {
    let game = game_with(3, &["cat", "dog"]);
    assert_eq!(game.check_guess(""), GuessCheck::Empty);
    assert_eq!(game.check_guess("c"), GuessCheck::Accepted);
}

#[test]
fn guessing_the_same_letter_again_changes_nothing() {
    let mut game = game_with(3, &["cab", "aaa", "aaa"]);
    assert_eq!(game.take_guess("a"), Some(GuessOutcome::Hit { copies: 1, plural: false }));
    assert_eq!(game.take_guess("a"), Some(GuessOutcome::Hit { copies: 1, plural: false }));
    assert_eq!(database(&game), vec!["cab"]);
    assert_eq!(game.word(), "*a*");
}

#[test]
fn keep_pattern_twice_is_once() {
    let mut game = game_with(4, &[]);
    game.keep_pattern(&vec![1, 3], "z");
    game.keep_pattern(&vec![1, 3], "z");
    assert_eq!(game.word(), "*z*z");
}

#[test]
fn remove_multiples_by_limit() {
    let mut low = game_with(3, &["aab", "abc", "aaa"]);
    low.remove_multiples("a", 1);
    assert_eq!(database(&low), vec!["abc"]);
    low.remove_multiples("a", 1);
    assert_eq!(database(&low), vec!["abc"]);
    let mut high = game_with(3, &["aab", "abc", "aaa"]);
    high.remove_multiples("a", 2);
    assert_eq!(database(&high), vec!["aab", "abc"]);
    let mut all = game_with(3, &["aab", "abc", "aaa"]);
    all.remove_multiples("a", 3);
    assert_eq!(database(&all), vec!["aab", "abc", "aaa"]);
}

#[test]
fn words_in_play_keep_fitting_the_shown_word() {
    let mut game = game_with(3, &["cat", "cow", "dog"]);
    assert_eq!(game.take_guess("o"), Some(GuessOutcome::Miss));
    assert_eq!(game.take_guess("a"), Some(GuessOutcome::Hit { copies: 1, plural: false }));
    assert_eq!(game.take_guess("t"), Some(GuessOutcome::Hit { copies: 1, plural: false }));
    let words = database(&game);
    assert!(!words.is_empty());
    let shown: Vec<char> = game.word().chars().collect();
    for w in &words {
        for (i, c) in w.chars().enumerate() {
            if shown[i] != '*' {
                assert_eq!(c, shown[i]);
            } else {
                assert!(c != 'o' && c != 'a' && c != 't');
            }
        }
    }
    assert_eq!(words, vec!["cat"]);
    assert_eq!(game.word(), "*at");
}
