use wordle_solver::constraints::{filter, Constraints};
use wordle_solver::counts::LetterCounts;
use wordle_solver::feedback::{is_all_green, parse_feedback, respond, Response};
use wordle_solver::ranker::{analyze_freq, position_counts, preprocess, rank, word_score};
use wordle_solver::word::{contains, distinct_letters, parse_dictionary, parse_word};
use wordle_solver::{WordleResult, WordleSolver};

use Response::{Black, Green, Yellow};

fn w(s: &str) -> [char; 5] {
    let c: Vec<char> = s.chars().collect();
    [c[0], c[1], c[2], c[3], c[4]]
}

fn words(list: &[&str]) -> Vec<[char; 5]> {
    list.iter().map(|s| w(s)).collect()
}

fn toy() -> Vec<[char; 5]> {
    words(&["apple", "angle", "ample", "amble", "ankle"])
}

#[test]
fn match_and_absent_feedback_leaves_only_consistent_words() {
    let mut s = WordleSolver::new(toy());
    s.attempt(&w("apple"), &[Green, Green, Black, Black, Green]);
    // "p" and "l" are absent everywhere, which no word starting "ap" can meet.
    assert!(s.remaining_words().is_empty());
    assert_eq!(s.is_successed(), Some(false));
}

#[test]
fn all_match_feedback_solves_at_any_round() {
    let mut s = WordleSolver::new(toy());
    s.attempt(&w("angle"), &[Green, Black, Black, Green, Green]);
    s.attempt(&w("amble"), &[Green, Green, Black, Green, Green]);
    assert_eq!(s.is_successed(), None);
    s.attempt(&w("ample"), &[Green, Green, Green, Green, Green]);
    assert_eq!(s.is_successed(), Some(true));
}

#[test]
fn two_answers_left_are_guessed_directly() {
    let mut s = WordleSolver::new(words(&["rouse", "ample", "amble"]));
    s.attempt(&w("rouse"), &[Black, Black, Black, Black, Green]);
    assert_eq!(s.remaining_words(), &words(&["ample", "amble"]));
    assert_eq!(s.guess(), w("ample"));
}

#[test]
fn empty_guess_list_falls_back_to_ranking_answers() {
    let mut s = WordleSolver::new(words(&["zzzzy", "aabcd", "aabce", "aabcf", "xgjkm"]));
    s.attempt(&w("xgjkm"), &[Black, Black, Black, Black, Black]);
    assert_eq!(s.remaining_words().len(), 4);
    // "aabcd" scores 32 against the answers, "zzzzy" only 22.
    assert_eq!(s.guess(), w("aabcd"));
}

#[test]
fn six_absent_rounds_exhaust_with_answer_kept() {
    let mut t = WordleSolver::new(words(&["vexed", "bacon", "crumb", "quark"]));
    for g in ["bacon", "crumb", "sloth", "glyph", "quark", "swing"].iter() {
        assert_eq!(t.is_successed(), None);
        let g = w(g);
        let f = respond(&w("vexed"), &g);
        assert_eq!(f, [Black, Black, Black, Black, Black]);
        t.attempt(&g, &f);
    }
    assert_eq!(t.is_successed(), Some(false));
    assert_eq!(t.remaining_words(), &words(&["vexed"]));
}

#[test]
fn try_solve_finds_answer_in_first_guess() {
    let s = WordleSolver::new(toy());
    assert!(matches!(s.try_solve(w("ample")), WordleResult::Done));
}

#[test]
fn try_solve_narrows_then_solves() {
    let mut s = WordleSolver::new(toy());
    assert_eq!(s.guess(), w("ample"));
    s.attempt(&w("ample"), &respond(&w("amble"), &w("ample")));
    assert_eq!(s.remaining_words(), &words(&["amble"]));
    let s = WordleSolver::new(toy());
    assert!(matches!(s.try_solve(w("amble")), WordleResult::Done));
}

#[test]
fn try_solve_unknown_answer_fails_with_empty_list() {
    let s = WordleSolver::new(toy());
    match s.try_solve(w("zzzzz")) {
        WordleResult::Failed(list) => assert!(list.is_empty()),
        WordleResult::Done => panic!("no word of the dictionary is the answer"),
    }
}

#[test]
fn new_session_lists() {
    let s = WordleSolver::new(toy());
    assert_eq!(s.remaining_words(), &toy());
    assert_eq!(s.is_successed(), None);
    assert!(s.constraints().present.is_empty());
    let empty = WordleSolver::new(Vec::new());
    assert_eq!(empty.is_successed(), Some(false));
}

#[test]
fn round_shrinks_lists_and_filter_is_idempotent() {
    let mut s = WordleSolver::new(toy());
    let before = s.remaining_words().len();
    s.attempt(&w("angle"), &[Green, Black, Black, Green, Green]);
    assert!(s.remaining_words().len() <= before);
    assert_eq!(s.remaining_words(), &words(&["apple", "ample", "amble"]));
    let c = s.constraints();
    let once = filter(&toy(), c);
    let twice = filter(&once, c);
    assert_eq!(once, twice);
    assert_eq!(once, words(&["apple", "ample", "amble"]));
}

#[test]
fn confirmed_position_holds_for_every_remaining_word() {
    let mut s = WordleSolver::new(toy());
    s.attempt(&w("amble"), &[Green, Green, Black, Green, Green]);
    for word in s.remaining_words() {
        assert_eq!(word[1], 'm');
        assert!(!word.contains(&'b'));
    }
    assert_eq!(s.remaining_words(), &words(&["ample"]));
}

#[test]
fn present_letter_rules_out_its_position() {
    let mut c = Constraints::new();
    c.apply(&w("lemon"), &[Yellow, Black, Black, Black, Black]);
    assert_eq!(c.present, vec!['l']);
    assert_eq!(c.misplaced, vec![(0usize, 'l')]);
    assert_eq!(c.absent, vec!['e', 'm', 'o', 'n']);
    assert!(c.allows(&w("apple")) == false);
    assert!(c.allows(&w("skull")));
    assert!(!c.allows(&w("lucky")));
    assert!(!c.allows(&w("quick")));
}

#[test]
fn constraint_sets_do_not_repeat() {
    let mut c = Constraints::new();
    c.without('x');
    c.without('x');
    c.with(2, 'a');
    c.with(2, 'a');
    c.confirm(4, 's');
    assert_eq!(c.absent, vec!['x']);
    assert_eq!(c.present, vec!['a']);
    assert_eq!(c.misplaced, vec![(2usize, 'a')]);
    assert_eq!(c.confirmed, [None, None, None, None, Some('s')]);
}

#[test]
fn feedback_digits_parse() {
    let line: Vec<char> = "20110".chars().collect();
    assert_eq!(parse_feedback(&line), Some([Green, Black, Yellow, Yellow, Black]));
    assert_eq!(parse_feedback(&"2011".chars().collect()), None);
    assert_eq!(parse_feedback(&"201103".chars().collect()), None);
    assert_eq!(parse_feedback(&"20130".chars().collect()), None);
    assert_eq!(Response::from_digit('1'), Some(Yellow));
    assert_eq!(Response::from_digit('x'), None);
}

#[test]
fn oracle_marks_letters() {
    assert_eq!(respond(&w("apple"), &w("lapel")), [Yellow, Yellow, Green, Yellow, Yellow]);
    assert_eq!(respond(&w("crane"), &w("crate")), [Green, Green, Green, Black, Green]);
    assert!(is_all_green(&respond(&w("crane"), &w("crane"))));
    assert!(!is_all_green(&[Green, Green, Green, Green, Yellow]));
}

#[test]
fn dictionary_lines_parse() {
    assert_eq!(parse_word(&"Apple".chars().collect()), Some(w("apple")));
    assert_eq!(parse_word(&"appl".chars().collect()), None);
    assert_eq!(parse_word(&"apples".chars().collect()), None);
    assert_eq!(parse_word(&"ap1le".chars().collect()), None);
}

#[test]
fn word_letters() {
    assert!(contains(&w("apple"), 'l'));
    assert!(!contains(&w("apple"), 'z'));
    assert_eq!(distinct_letters(&w("apple")), 4);
    assert_eq!(distinct_letters(&w("crane")), 5);
    assert_eq!(distinct_letters(&w("aaaaa")), 1);
}

#[test]
fn scores_follow_frequencies() {
    let none = [None; 5];
    let answers = toy();
    assert_eq!(word_score(&answers, &none, &w("ample")), 39);
    assert_eq!(word_score(&answers, &none, &w("angle")), 36);
    assert_eq!(word_score(&answers, &none, &w("zzzzz")), 0);
    let confirmed = [Some('a'), None, None, Some('l'), Some('e')];
    // positions 0, 3 and 4 count nothing; "ample" scores m: 2 + 2, p: 3 + 2.
    assert_eq!(word_score(&answers, &confirmed, &w("ample")), 9);
}

#[test]
fn ranking_orders_and_drops_zero_scores() {
    let none = [None; 5];
    let ranked = rank(&toy(), &none, &words(&["angle", "zzzzz", "amble", "ample", "ankle"]));
    assert_eq!(ranked, words(&["ample", "angle", "amble", "ankle"]));
}

#[test]
fn dictionary_preprocessing_penalises_repeats() {
    let sorted = preprocess(&toy());
    assert_eq!(sorted, words(&["ample", "angle", "amble", "ankle", "apple"]));
    let tables = analyze_freq(&toy());
    assert_eq!(tables[0].get('a'), 5);
    assert_eq!(tables[1].get('n'), 2);
    assert_eq!(tables[2].get('p'), 2);
    assert_eq!(tables[2].get('z'), 0);
    let t = position_counts(&toy(), 1);
    assert_eq!(t.get('m'), 2);
}

#[test]
fn letter_counts_accumulate() {
    let mut t = LetterCounts::new();
    assert_eq!(t.get('q'), 0);
    t.add_one('q');
    t.add_one('r');
    t.add_one('q');
    assert_eq!(t.get('q'), 2);
    assert_eq!(t.get('r'), 1);
}

#[test]
fn try_solve_runs_out_after_six_rounds() {
    let dict = words(&["fight", "light", "might", "night", "right", "sight", "tight", "wight"]);
    let mut s = WordleSolver::new(dict.clone());
    // "tight" repeats a letter, so it is no guess; the others tie.
    assert_eq!(s.guess(), w("fight"));
    let s2 = WordleSolver::new(dict);
    match s2.try_solve(w("wight")) {
        WordleResult::Failed(list) => assert_eq!(list, words(&["tight", "wight"])),
        WordleResult::Done => panic!("six rounds cannot single out the answer"),
    }
    assert_eq!(s.is_successed(), None);
}

#[test]
fn matched_letter_is_not_made_absent() {
    let mut s = WordleSolver::new(toy());
    s.attempt(&w("apple"), &[Green, Green, Black, Black, Green]);
    let c = s.constraints();
    assert_eq!(c.confirmed, [Some('a'), Some('p'), None, None, Some('e')]);
    assert_eq!(c.absent, vec!['l']);
}

#[test]
fn present_letter_is_not_made_absent() {
    let mut c = Constraints::new();
    c.apply(&w("sassy"), &[Yellow, Black, Black, Black, Black]);
    assert_eq!(c.present, vec!['s']);
    assert_eq!(c.absent, vec!['a', 'y']);
    assert!(c.allows(&w("bliss")));
    assert!(!c.allows(&w("spoil")));
}

#[test]
fn later_match_clears_absent_letter() {
    let mut c = Constraints::new();
    c.apply(&w("xyzwv"), &[Black, Black, Black, Black, Black]);
    assert_eq!(c.absent, vec!['x', 'y', 'z', 'w', 'v']);
    c.apply(&w("xaaab"), &[Green, Black, Black, Black, Yellow]);
    assert_eq!(c.absent, vec!['y', 'z', 'w', 'v', 'a']);
    assert_eq!(c.present, vec!['b']);
    assert_eq!(c.confirmed[0], Some('x'));
}

#[test]
fn dictionary_parses_line_by_line() {
    let lines: Vec<Vec<char>> = ["crane", "", "Slate", "toolong", "ab3de", "pious"]
        .iter()
        .map(|l| l.chars().collect())
        .collect();
    assert_eq!(parse_dictionary(&lines), words(&["crane", "slate", "pious"]));
}

#[test]
fn empty_dictionary_fails_with_empty_list() {
    let s = WordleSolver::new(Vec::new());
    match s.try_solve(w("crane")) {
        WordleResult::Failed(list) => assert!(list.is_empty()),
        WordleResult::Done => panic!("an empty dictionary has no answer"),
    }
}

#[test]
fn rounds_stop_counting_after_six() {
    let mut s = WordleSolver::new(words(&["vexed", "bacon"]));
    for _ in 0..8 {
        s.attempt(&w("tulip"), &[Black, Black, Black, Black, Black]);
    }
    assert_eq!(s.is_successed(), Some(false));
    assert_eq!(s.remaining_words(), &words(&["vexed", "bacon"]));
}
