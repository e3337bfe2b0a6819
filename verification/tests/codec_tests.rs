use quizlate::card::Card;
use quizlate::catalogue::Catalogue;
use quizlate::codec::encode_catalogue;
use quizlate::codec::encode_study_set;
use quizlate::codec::parse_catalogue;
use quizlate::codec::parse_study_set;
use quizlate::list_item::ListItem;
use quizlate::study_set::StudySet;

fn to_text(s: &str) -> Vec<char> {
    s.chars().collect()
}

fn to_string(v: &[char]) -> String {
    v.iter().collect()
}

#[test]
fn encode_study_set_exact_output() {
    let mut s = StudySet::new("L1".to_string());
    s.add_tag("n5".to_string());
    s.add_card(Card::new(0, "w".to_string(), "a".to_string(), "r".to_string()));
    let out = encode_study_set(&s);
    assert_eq!(
        to_string(&out),
        "{\"name\":\"L1\",\"tags\":[\"n5\"],\"cards\":[{\"id\":0,\"word\":\"w\",\"ans\":\"a\",\"remarks\":\"r\"}]}"
    );
}

#[test]
fn encode_empty_set_exact_output() {
    let s = StudySet::new("empty".to_string());
    let out = encode_study_set(&s);
    assert_eq!(to_string(&out), "{\"name\":\"empty\",\"tags\":[],\"cards\":[]}");
}

#[test]
fn encode_escapes_special_characters() {
    let s = StudySet::new("a\"b\\c\nd".to_string());
    let out = encode_study_set(&s);
    assert_eq!(
        to_string(&out),
        "{\"name\":\"a\\\"b\\\\c\\nd\",\"tags\":[],\"cards\":[]}"
    );
}

#[test]
fn study_set_round_trips_with_unicode_and_escapes() {
    let mut s = StudySet::new("日本語 N5".to_string());
    s.add_tag("JLPT-N5".to_string());
    s.add_tag("tab\there".to_string());
    s.add_card(Card::new(
        0,
        "楽しい".to_string(),
        "たのしい".to_string(),
        "line\nbreak and \"quote\"".to_string(),
    ));
    s.add_card(Card::new(
        1,
        "難しい".to_string(),
        "むずかしい".to_string(),
        "back\\slash\r".to_string(),
    ));
    let out = encode_study_set(&s);
    let back = parse_study_set(&out).expect("encoder output must parse");
    assert_eq!(back.get_set_name(), "日本語 N5");
    assert_eq!(
        back.get_all_tags(),
        vec!["JLPT-N5".to_string(), "tab\there".to_string()]
    );
    assert_eq!(back.get_num_of_cards(), 2);
    assert_eq!(back.get_card(0).get_id(), 0);
    assert_eq!(back.get_card(0).get_word(), "楽しい");
    assert_eq!(back.get_card(0).get_ans(), "たのしい");
    assert_eq!(back.get_card(0).get_remarks(), "line\nbreak and \"quote\"");
    assert_eq!(back.get_card(1).get_id(), 1);
    assert_eq!(back.get_card(1).get_remarks(), "back\\slash\r");
}

#[test]
fn parse_study_set_exact_input() {
    let text = to_text(
        "{\"name\":\"L1\",\"tags\":[\"a\",\"b\"],\"cards\":[{\"id\":0,\"word\":\"w\",\"ans\":\"x\",\"remarks\":\"\"},{\"id\":1,\"word\":\"v\",\"ans\":\"y\",\"remarks\":\"\"}]}",
    );
    let s = parse_study_set(&text).unwrap();
    assert_eq!(s.get_set_name(), "L1");
    assert_eq!(s.get_all_tags(), vec!["a".to_string(), "b".to_string()]);
    assert_eq!(s.get_num_of_cards(), 2);
    assert_eq!(s.get_card(1).get_word(), "v");
    assert_eq!(s.get_card(1).get_id(), 1);
}

#[test]
fn parse_rejects_malformed_input() {
    assert!(parse_study_set(&to_text("")).is_none());
    assert!(parse_study_set(&to_text("{}")).is_none());
    assert!(parse_study_set(&to_text("{\"name\":\"x\",\"tags\":[],\"cards\":[]")).is_none());
    assert!(parse_study_set(&to_text("{\"name\":\"x\",\"tags\":[],\"cards\":[]} ")).is_none());
    assert!(parse_study_set(&to_text("{\"name\":\"x\",\"tags\":[],\"cards\":[]}x")).is_none());
    assert!(parse_study_set(&to_text("{\"name\":x,\"tags\":[],\"cards\":[]}")).is_none());
    assert!(
        parse_study_set(&to_text(
            "{\"name\":\"x\",\"tags\":[],\"cards\":[{\"id\":01,\"word\":\"w\",\"ans\":\"a\",\"remarks\":\"\"}]}"
        ))
        .is_none()
    );
}

#[test]
fn catalogue_round_trips() {
    let items = vec![
        ListItem::new(0, "L1".to_string(), vec!["a".to_string()], 2),
        ListItem::new(1, "L2".to_string(), vec![], 0),
    ];
    let cat = Catalogue::from_items(items);
    let out = encode_catalogue(&cat);
    assert_eq!(
        to_string(&out),
        "{\"inventory\":[{\"item_id\":0,\"item_name\":\"L1\",\"item_tags\":[\"a\"],\"num_of_cards\":2},{\"item_id\":1,\"item_name\":\"L2\",\"item_tags\":[],\"num_of_cards\":0}]}"
    );
    let back = parse_catalogue(&out).expect("encoder output must parse");
    assert_eq!(back.get_num_of_items(), 2);
    let inv = back.get_inventory();
    assert_eq!(inv[0].get_id(), 0);
    assert_eq!(inv[0].get_name(), "L1");
    assert_eq!(inv[0].get_all_tags(), vec!["a".to_string()]);
    assert_eq!(inv[0].get_num_of_cards(), 2);
    assert_eq!(inv[1].get_id(), 1);
    assert_eq!(inv[1].get_name(), "L2");
}

#[test]
fn empty_catalogue_round_trips() {
    let cat = Catalogue::new();
    let out = encode_catalogue(&cat);
    assert_eq!(to_string(&out), "{\"inventory\":[]}");
    let back = parse_catalogue(&out).unwrap();
    assert_eq!(back.get_num_of_items(), 0);
}

#[test]
fn parse_catalogue_rejects_malformed_input() {
    assert!(parse_catalogue(&to_text("")).is_none());
    assert!(parse_catalogue(&to_text("{\"inventory\":[}")).is_none());
    assert!(parse_catalogue(&to_text("{\"inventory\":[]}}")).is_none());
}

#[test]
fn large_ids_round_trip() {
    let items = vec![ListItem::new(
        usize::MAX,
        "big".to_string(),
        vec![],
        12345678901234,
    )];
    let cat = Catalogue::from_items(items);
    let out = encode_catalogue(&cat);
    let back = parse_catalogue(&out).unwrap();
    let inv = back.get_inventory();
    assert_eq!(inv[0].get_id(), usize::MAX);
    assert_eq!(inv[0].get_num_of_cards(), 12345678901234);
}
