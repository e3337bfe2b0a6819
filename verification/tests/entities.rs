use quizlate::card::Card;
use quizlate::study_set::StudySet;
use quizlate::study_set::get_scores;
use quizlate::text::has_duplicate;
use quizlate::text::is_same_2_d_vec_string;
use quizlate::text::is_same_vec_string;
use quizlate::text::is_valid;
use quizlate::text::place_holder_helper;
use quizlate::text::trimmed;

fn set_with_three_cards() -> StudySet {
    let mut s = StudySet::new("animals".to_string());
    s.add_card(Card::new(0, "cat".to_string(), "feline".to_string(), "".to_string()));
    s.add_card(Card::new(1, "dog".to_string(), "canine".to_string(), "".to_string()));
    s.add_card(Card::new(2, "fox".to_string(), "vulpine".to_string(), "".to_string()));
    s
}

#[test]
fn card_fields_round_through_getters() {
    let c = Card::new(7, "word".to_string(), "ans".to_string(), "note".to_string());
    assert_eq!(c.get_id(), 7);
    assert_eq!(c.get_word(), "word");
    assert_eq!(c.get_ans(), "ans");
    assert_eq!(c.get_remarks(), "note");
    let mut c2 = c.clone();
    c2.set_id(3);
    assert_eq!(c2.get_id(), 3);
    assert_eq!(c.get_id(), 7);
}

#[test]
fn delete_card_renumbers_contiguously() {
    // Deleting position 1 of 3 leaves ids 0..1 in sequence order.
    let mut s = set_with_three_cards();
    s.delete_card(1);
    assert_eq!(s.get_num_of_cards(), 2);
    assert_eq!(s.get_card(0).get_id(), 0);
    assert_eq!(s.get_card(0).get_word(), "cat");
    assert_eq!(s.get_card(1).get_id(), 1);
    assert_eq!(s.get_card(1).get_word(), "fox");
}

#[test]
fn delete_first_and_last_card_renumber_too() {
    let mut s = set_with_three_cards();
    s.delete_card(0);
    assert_eq!(s.get_num_of_cards(), 2);
    assert_eq!(s.get_card(0).get_id(), 0);
    assert_eq!(s.get_card(0).get_word(), "dog");
    let mut s2 = set_with_three_cards();
    s2.delete_card(2);
    assert_eq!(s2.get_num_of_cards(), 2);
    assert_eq!(s2.get_card(1).get_id(), 1);
    assert_eq!(s2.get_card(1).get_word(), "dog");
}

#[test]
fn clean_up_set_renumbers_ids() {
    let mut s = StudySet::new("x".to_string());
    s.add_card(Card::new(9, "a".to_string(), "b".to_string(), "".to_string()));
    s.add_card(Card::new(4, "c".to_string(), "d".to_string(), "".to_string()));
    s.clean_up_set();
    assert_eq!(s.get_card(0).get_id(), 0);
    assert_eq!(s.get_card(1).get_id(), 1);
    assert_eq!(s.get_card(1).get_word(), "c");
}

#[test]
fn replace_card_changes_only_that_position() {
    let mut s = set_with_three_cards();
    s.replace_card(1, Card::new(1, "owl".to_string(), "strigine".to_string(), "".to_string()));
    assert_eq!(s.get_card(0).get_word(), "cat");
    assert_eq!(s.get_card(1).get_word(), "owl");
    assert_eq!(s.get_card(2).get_word(), "fox");
}

#[test]
fn rename_set_changes_name() {
    let mut s = StudySet::new("before".to_string());
    s.rename_set("after".to_string());
    assert_eq!(s.get_set_name(), "after");
}

#[test]
fn tag_queries_match_subset_and_intersection() {
    let mut s = StudySet::new("t".to_string());
    s.add_tag("a".to_string());
    s.add_tag("b".to_string());
    assert!(s.has_tag("a".to_string()));
    assert!(!s.has_tag("c".to_string()));
    // AND: true iff the query is a subset of the tags.
    assert!(s.has_all_tags(vec!["a".to_string()]));
    assert!(s.has_all_tags(vec!["a".to_string(), "b".to_string()]));
    assert!(!s.has_all_tags(vec!["a".to_string(), "c".to_string()]));
    // OR: true iff the query intersects the tags.
    assert!(s.has_any_tags(vec!["c".to_string(), "b".to_string()]));
    assert!(!s.has_any_tags(vec!["c".to_string(), "d".to_string()]));
    // Empty query: vacuously true under AND, false under OR.
    assert!(s.has_all_tags(vec![]));
    assert!(!s.has_any_tags(vec![]));
}

#[test]
fn get_tag_index_finds_first_occurrence() {
    let mut s = StudySet::new("t".to_string());
    s.add_tag("a".to_string());
    s.add_tag("b".to_string());
    s.add_tag("a".to_string());
    assert_eq!(s.get_tag_index("a".to_string()), 0);
    assert_eq!(s.get_tag_index("b".to_string()), 1);
    assert_eq!(s.get_tag_index("zz".to_string()), -1);
}

#[test]
fn delete_tag_removes_first_occurrence_only() {
    let mut s = StudySet::new("t".to_string());
    s.add_tag("a".to_string());
    s.add_tag("b".to_string());
    s.add_tag("a".to_string());
    s.delete_tag("a".to_string());
    assert_eq!(s.get_all_tags(), vec!["b".to_string(), "a".to_string()]);
    s.delete_tag("missing".to_string());
    assert_eq!(s.get_all_tags(), vec!["b".to_string(), "a".to_string()]);
}

#[test]
fn get_scores_counts_exact_matches() {
    let mut s = StudySet::new("quiz".to_string());
    s.add_card(Card::new(0, "w0".to_string(), "right".to_string(), "".to_string()));
    s.add_card(Card::new(1, "w1".to_string(), "also right".to_string(), "".to_string()));
    s.add_card(Card::new(2, "w2".to_string(), "x".to_string(), "".to_string()));
    let answers = vec!["right".to_string(), "wrong".to_string(), "x".to_string()];
    assert_eq!(get_scores(answers, s), 2);
}

#[test]
fn is_valid_rejects_space_only_input() {
    assert!(!is_valid("".to_string()));
    assert!(!is_valid("    ".to_string()));
    assert!(is_valid("  a ".to_string()));
}

#[test]
fn trimmed_strips_unicode_whitespace() {
    assert_eq!(trimmed("  hello \t\n"), "hello");
    assert_eq!(trimmed("\u{3000}wide\u{3000}"), "wide");
    assert_eq!(trimmed("   "), "");
    assert_eq!(trimmed("a b"), "a b");
}

#[test]
fn has_duplicate_trims_before_comparing() {
    let names = vec!["alpha".to_string(), "beta".to_string()];
    assert!(has_duplicate("  alpha ".to_string(), names.clone()));
    assert!(!has_duplicate("gamma".to_string(), names));
}

#[test]
fn place_holder_helper_keeps_previous_on_blank() {
    assert_eq!(place_holder_helper("old".to_string(), "   ".to_string()), "old");
    assert_eq!(place_holder_helper("old".to_string(), " new ".to_string()), "new");
}

#[test]
fn vec_string_equality_helpers() {
    let a = vec!["x".to_string(), "y".to_string()];
    let b = vec!["x".to_string(), "y".to_string()];
    let c = vec!["x".to_string(), "z".to_string()];
    assert!(is_same_vec_string(a.clone(), b.clone()));
    assert!(!is_same_vec_string(a.clone(), c.clone()));
    assert!(!is_same_vec_string(a.clone(), vec!["x".to_string()]));
    assert!(is_same_2_d_vec_string(vec![a.clone(), b.clone()], vec![a.clone(), b.clone()]));
    assert!(!is_same_2_d_vec_string(vec![a.clone()], vec![c.clone()]));
}
