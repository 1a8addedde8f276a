use ngram::database::Database;
use ngram::text::split_words;

#[test]
fn identifiers_count_up_from_zero() {
    let mut db = Database::new();
    for i in 0..20 {
        assert_eq!(db.publish(format!("document number {}", i)), i);
    }
}

#[test]
fn search_finds_each_word_in_any_case() {
    let mut db = Database::new();
    let id = db.publish("The Quick Fox".to_string());
    assert_eq!(id, 0);
    assert!(db.search("the").contains(&id));
    assert!(db.search("quick").contains(&id));
    assert!(db.search("fox").contains(&id));
    assert!(db.search("THE").contains(&id));
    assert_eq!(db.search("zzz"), Vec::<usize>::new());
}

#[test]
fn search_gives_the_documents_in_the_order_of_publication() {
    let mut db = Database::new();
    db.publish("red fox".to_string());
    db.publish("blue whale".to_string());
    db.publish("Red panda, RED kite".to_string());
    db.publish("a fox is red".to_string());
    assert_eq!(db.search("red"), vec![0, 2, 3]);
    assert_eq!(db.search("fox"), vec![0, 3]);
    assert_eq!(db.search("whale"), vec![1]);
    assert_eq!(db.search("panda,"), vec![2]);
    assert_eq!(db.search("panda"), Vec::<usize>::new());
}

#[test]
fn a_word_that_a_document_repeats_finds_it_once() {
    let mut db = Database::new();
    db.publish("spam Spam SPAM spam".to_string());
    assert_eq!(db.search("spam"), vec![0]);
}

#[test]
fn a_query_is_put_in_lower_case_but_not_cut_into_words() {
    let mut db = Database::new();
    db.publish("hello world".to_string());
    assert_eq!(db.search("HeLLo"), vec![0]);
    assert_eq!(db.search("hello world"), Vec::<usize>::new());
    assert_eq!(db.search(" hello"), Vec::<usize>::new());
    assert_eq!(db.search(""), Vec::<usize>::new());
}

#[test]
fn lower_case_goes_by_unicode() {
    let mut db = Database::new();
    db.publish("\u{c9}COLE \u{4e16}\u{754c}".to_string());
    assert_eq!(db.search("\u{e9}cole"), vec![0]);
    assert_eq!(db.search("\u{c9}cole"), vec![0]);
    assert_eq!(db.search("\u{4e16}\u{754c}"), vec![0]);
}

#[test]
fn retrieve_gives_the_text_as_it_was_published() {
    let mut db = Database::new();
    let first = "  The Quick\tFox\n".to_string();
    let second = String::new();
    let a = db.publish(first.clone());
    let b = db.publish(second.clone());
    assert_eq!(db.retrieve(a), Some(first));
    assert_eq!(db.retrieve(b), Some(second));
}

#[test]
fn retrieve_finds_nothing_beyond_the_count() {
    let mut db = Database::new();
    assert_eq!(db.retrieve(0), None);
    db.publish("one".to_string());
    db.publish("two".to_string());
    assert_eq!(db.retrieve(2), None);
    assert_eq!(db.retrieve(3), None);
    assert_eq!(db.retrieve(usize::MAX), None);
}

#[test]
fn a_document_without_words_gets_an_identifier() {
    let mut db = Database::new();
    assert_eq!(db.publish(String::new()), 0);
    assert_eq!(db.publish(" \t\n ".to_string()), 1);
    assert_eq!(db.publish("word".to_string()), 2);
    assert_eq!(db.search("word"), vec![2]);
}

#[test]
fn words_are_the_runs_between_whitespace() {
    assert_eq!(split_words("The Quick Fox"), vec!["The", "Quick", "Fox"]);
    assert_eq!(split_words("  two\t\twords\n"), vec!["two", "words"]);
    assert_eq!(split_words("one"), vec!["one"]);
    assert_eq!(split_words(""), Vec::<String>::new());
    assert_eq!(split_words(" \r\n\t"), Vec::<String>::new());
    assert_eq!(split_words("a,b c"), vec!["a,b", "c"]);
}

#[test]
fn whitespace_goes_by_unicode() {
    assert_eq!(split_words("a\u{a0}b\u{3000}c\u{2003}d"), vec!["a", "b", "c", "d"]);
    assert_eq!(split_words("no\u{200b}break"), vec!["no\u{200b}break"]);
}

#[test]
fn words_are_split_as_the_standard_library_splits_them() {
    for text in ["", "x", " x ", "The Quick  Fox", "\u{e9}t\u{e9}\u{2028}hiver\u{85}\u{1f600} ok", "\t\ta\nb\rc d"] {
        let expected: Vec<String> = text.split_whitespace().map(|w| w.to_string()).collect();
        assert_eq!(split_words(text), expected);
    }
}
