use std::cmp::Ordering;

use zine_season::article::{sort_by_date, Article, PubDate};
use zine_season::season::{ArticleStep, Intro, Season};
use zine_season::summary::{extract_description, DESCRIPTION_LIMIT};
use zine_season::words::{compare_words, count_words, word_frequencies};

fn date(year: u16, month: u8, day: u8) -> PubDate {
    PubDate { year, month, day }
}

fn article(slug: &str, pub_date: PubDate, markdown: &str) -> Article {
    Article {
        slug: slug.to_string(),
        file: format!("{}.md", slug),
        title: slug.to_uppercase(),
        pub_date,
        markdown: markdown.to_string(),
    }
}

fn season() -> Season {
    Season::new(
        "s1".to_string(),
        1,
        "First season".to_string(),
        Some("intro.md".to_string()),
        Some("cover.png".to_string()),
        "season1".to_string(),
    )
}

fn slugs(articles: &[Article]) -> Vec<String> {
    articles.iter().map(|a| a.slug.clone()).collect()
}

fn strings(words: &[&str]) -> Vec<String> {
    words.iter().map(|w| w.to_string()).collect()
}

#[test]
fn date_key_orders_by_year_month_day() {
    assert_eq!(date(2022, 3, 9).key(), 2022 * 65536 + 3 * 256 + 9);
    assert!(date(2021, 12, 31).key() < date(2022, 1, 1).key());
    assert!(date(2022, 1, 31).key() < date(2022, 2, 1).key());
}

#[test]
fn sort_keeps_manifest_order_for_equal_dates() {
    let input = vec![
        article("c", date(2022, 5, 1), ""),
        article("a", date(2022, 1, 1), ""),
        article("d", date(2022, 5, 1), ""),
        article("b", date(2022, 1, 1), ""),
        article("e", date(2021, 7, 1), ""),
    ];
    let sorted = sort_by_date(input);
    assert_eq!(slugs(&sorted), strings(&["e", "a", "b", "c", "d"]));
}

#[test]
fn sort_of_empty_is_empty() {
    assert!(sort_by_date(Vec::new()).is_empty());
}

#[test]
fn compare_words_is_lexicographic() {
    assert_eq!(compare_words("ab", "ab"), Ordering::Equal);
    assert_eq!(compare_words("ab", "abc"), Ordering::Less);
    assert_eq!(compare_words("b", "abc"), Ordering::Greater);
    assert_eq!(compare_words("", "a"), Ordering::Less);
    assert_eq!(compare_words("灵感", "灵"), Ordering::Greater);
}

#[test]
fn count_words_skips_single_characters_and_counts_the_rest() {
    let tokens = strings(&["rust", "a", "的", "verus", "rust", "灵感", "a", "rust", ""]);
    let table = count_words(&tokens);
    let expected: Vec<(String, usize)> = vec![
        ("rust".to_string(), 3),
        ("verus".to_string(), 1),
        ("灵感".to_string(), 1),
    ];
    assert_eq!(table, expected);
}

#[test]
fn count_words_of_nothing_is_empty() {
    assert!(count_words(&Vec::new()).is_empty());
}

#[test]
fn word_frequencies_cut_text_into_words() {
    let docs = vec!["hello world hello", "world"];
    let table = word_frequencies(&docs);
    let expected: Vec<(String, usize)> = vec![("hello".to_string(), 2), ("world".to_string(), 2)];
    assert_eq!(table, expected);
}

#[test]
fn new_season_holds_intro_path() {
    let s = season();
    assert_eq!(s.intro_path(), Some(&"intro.md".to_string()));
    assert!(s.articles.is_empty());
    assert!(s.word_count.is_empty());
    assert_eq!(s.description(), "");
}

#[test]
fn intro_is_loaded_once() {
    let mut s = season();
    s.load_intro("Welcome.".to_string());
    assert!(s.intro_path().is_none());
    s.load_intro("intro.md".to_string());
    assert!(matches!(&s.intro, Some(Intro::Loaded(t)) if t == "Welcome."));
}

#[test]
fn season_without_intro_loads_nothing() {
    let mut s = Season::new(
        "s2".to_string(),
        2,
        "Second".to_string(),
        None,
        None,
        "season2".to_string(),
    );
    s.load_intro("text".to_string());
    assert!(s.intro.is_none());
    assert_eq!(s.description(), "");
}

#[test]
fn render_before_parse_has_no_steps() {
    let s = season();
    assert!(s.render_steps().is_empty());
    let (p, n) = s.sibling_articles(0);
    assert!(p.is_none() && n.is_none());
}

#[test]
fn siblings_at_both_ends() {
    let mut s = season();
    s.load_articles(vec![
        article("a", date(2022, 1, 1), ""),
        article("b", date(2022, 2, 1), ""),
        article("c", date(2022, 3, 1), ""),
    ]);
    let (p, n) = s.sibling_articles(0);
    assert!(p.is_none());
    assert_eq!(n.unwrap().slug, "b");
    let (p, n) = s.sibling_articles(1);
    assert_eq!(p.unwrap().slug, "a");
    assert_eq!(n.unwrap().slug, "c");
    let (p, n) = s.sibling_articles(2);
    assert_eq!(p.unwrap().slug, "b");
    assert!(n.is_none());
    let (p, n) = s.sibling_articles(3);
    assert!(p.is_none() && n.is_none());
}

#[test]
fn lone_article_has_no_siblings() {
    let mut s = season();
    s.load_articles(vec![article("a", date(2022, 1, 1), "")]);
    let (p, n) = s.sibling_articles(0);
    assert!(p.is_none() && n.is_none());
    assert_eq!(
        s.render_steps(),
        vec![ArticleStep { index: 0, number: 1, prev: None, next: None }]
    );
}

#[test]
fn render_steps_number_from_one() {
    let mut s = season();
    s.load_articles(vec![
        article("a", date(2022, 1, 1), ""),
        article("b", date(2022, 2, 1), ""),
        article("c", date(2022, 3, 1), ""),
    ]);
    assert_eq!(
        s.render_steps(),
        vec![
            ArticleStep { index: 0, number: 1, prev: None, next: Some(1) },
            ArticleStep { index: 1, number: 2, prev: Some(0), next: Some(2) },
            ArticleStep { index: 2, number: 3, prev: Some(1), next: None },
        ]
    );
}

#[test]
fn description_is_first_paragraph() {
    assert_eq!(extract_description("First line\nstill first.\n\nSecond."), "First line\nstill first.");
    assert_eq!(extract_description(""), "");
    assert_eq!(extract_description("\n\nafter"), "");
    assert_eq!(extract_description("no break"), "no break");
}

#[test]
fn description_is_cut_at_the_limit() {
    let long: String = "灵".repeat(DESCRIPTION_LIMIT + 50);
    let d = extract_description(&long);
    assert_eq!(d.chars().count(), DESCRIPTION_LIMIT);
    assert_eq!(d, "灵".repeat(DESCRIPTION_LIMIT));
}

#[test]
fn meta_of_season_page() {
    let mut s = season();
    s.load_intro("Hello readers.\n\nMore to come.".to_string());
    let m = s.meta();
    assert_eq!(m.title, "First season");
    assert_eq!(m.description, "Hello readers.");
    assert_eq!(m.url, "s1");
    assert_eq!(m.image, Some("cover.png".to_string()));
}

#[test]
fn three_articles_end_to_end() {
    let mut s = season();
    let d1 = date(2022, 1, 10);
    let d2 = date(2022, 3, 10);
    let d3 = date(2022, 2, 10);
    s.load_articles(vec![
        article("one", d1, "灵感"),
        article("two", d2, "灵感。"),
        article("three", d3, "灵感"),
    ]);
    assert_eq!(slugs(&s.articles), strings(&["one", "three", "two"]));
    s.analyze_words();
    assert_eq!(s.frequency("灵感"), 3);
    assert_eq!(s.frequency("。"), 0);
    assert!(s.word_count.iter().all(|(w, _)| w.chars().count() > 1));
    let steps = s.render_steps();
    assert_eq!(steps[1].number, 2);
    let (p, n) = s.sibling_articles(steps[1].index);
    assert_eq!(p.unwrap().pub_date, d1);
    assert_eq!(n.unwrap().pub_date, d2);
}

#[test]
fn frequency_of_missing_word_is_zero() {
    let mut s = season();
    s.load_articles(vec![article("a", date(2022, 1, 1), "hello world")]);
    s.analyze_words();
    assert_eq!(s.frequency("hello"), 1);
    assert_eq!(s.frequency("absent"), 0);
    assert_eq!(s.frequency("h"), 0);
}
