use satori::api::{parse_limit, parse_search_request, resolve_vector_matches, ApiError};
use satori::card::{build_index_documents, IndexDocument, JargonCard};
use satori::index::SearchIndex;
use satori::load::{load_cards_from_parsed, CardLoadError};
use satori::search::{
    keyword_score, normalize_query, rank_keyword_matches, SearchQueryError, SearchResult,
};
use satori::text::str_chars;
use satori::validate::{check_required_field, has_searchable_text, validate_cards};

fn strings(items: &[&str]) -> Vec<String> {
    items.iter().map(|item| item.to_string()).collect()
}

fn fixture_cards() -> Vec<JargonCard> {
    vec![
        JargonCard {
            id: "jargon_lar_tong_dui_qi".to_owned(),
            term: "拉通对齐".to_owned(),
            plain: "大家先统一想法".to_owned(),
            explanation: "让相关的人先把目标、分工和时间说清楚。".to_owned(),
            examples: strings(&["这个需求先拉通对齐一下。"]),
            queries: strings(&["大家先统一想法", "先把要做的事情说清楚"]),
            tags: strings(&["职场", "会议", "协作"]),
            source: "manual".to_owned(),
            verified: true,
        },
        JargonCard {
            id: "meme_po_fang_le".to_owned(),
            term: "破防了".to_owned(),
            plain: "心理防线被击穿".to_owned(),
            explanation: "形容情绪一下子绷不住。".to_owned(),
            examples: strings(&["看到这条评论我直接破防了。"]),
            queries: strings(&["心态崩了", "绷不住了"]),
            tags: strings(&["网络梗", "情绪"]),
            source: "manual".to_owned(),
            verified: true,
        },
        JargonCard {
            id: "jargon_fu_neng".to_owned(),
            term: "赋能".to_owned(),
            plain: "提供帮助或支持".to_owned(),
            explanation: "给别人提供资源或能力。".to_owned(),
            examples: strings(&["平台要给业务赋能。"]),
            queries: strings(&["提供帮助"]),
            tags: strings(&["职场"]),
            source: "manual".to_owned(),
            verified: true,
        },
    ]
}

fn card() -> JargonCard {
    fixture_cards().remove(0)
}

#[test]
fn searchable_text_contains_card_fields() {
    let card = card();
    let text = card.searchable_text();

    assert!(text.contains(&card.term));
    assert!(text.contains(&card.plain));
    assert!(card.tags.iter().any(|tag| text.contains(tag)));
}

#[test]
fn searchable_text_joins_fields_with_spaces() {
    assert_eq!(
        card().searchable_text(),
        "拉通对齐 大家先统一想法 让相关的人先把目标、分工和时间说清楚。 这个需求先拉通对齐一下。 大家先统一想法 先把要做的事情说清楚 职场 会议 协作"
    );
}

#[test]
fn searchable_text_keeps_separators_for_empty_fields() {
    let mut card = card();
    card.plain.clear();
    card.examples.clear();
    card.tags.clear();
    assert_eq!(
        card.searchable_text(),
        "拉通对齐  让相关的人先把目标、分工和时间说清楚。  大家先统一想法 先把要做的事情说清楚 "
    );
}

#[test]
fn index_document_contains_stable_content_sections() {
    let card = card();
    let document = card.index_document();

    assert_eq!(document.id, card.id);
    assert!(document.content.contains("term: "));
    assert!(document.content.contains("plain: "));
    assert!(document.content.contains("explanation: "));
    assert!(document.content.contains("examples: "));
    assert!(document.content.contains("queries: "));
    assert!(document.content.contains("tags: "));
}

#[test]
fn index_document_content_is_exact() {
    let document = card().index_document();
    assert_eq!(
        document.content,
        "term: 拉通对齐\nplain: 大家先统一想法\nexplanation: 让相关的人先把目标、分工和时间说清楚。\nexamples: 这个需求先拉通对齐一下。\nqueries: 大家先统一想法 | 先把要做的事情说清楚\ntags: 职场 | 会议 | 协作"
    );
    assert_eq!(document.tags, card().tags);
    assert_eq!(document.source, "manual");
    assert!(document.verified);
}

#[test]
fn index_document_trims_and_skips_blank_items() {
    let mut card = card();
    card.term = "  拉通对齐 ".to_owned();
    card.examples = strings(&[" 甲 ", "   ", "乙"]);
    card.queries.clear();
    card.tags = strings(&["  "]);
    let document = IndexDocument::from_card(&card);
    assert_eq!(
        document.content,
        "term: 拉通对齐\nplain: 大家先统一想法\nexplanation: 让相关的人先把目标、分工和时间说清楚。\nexamples: 甲 | 乙\ntags: "
    );
    assert_eq!(document.term, "  拉通对齐 ");
}

#[test]
fn build_index_documents_keeps_order() {
    let cards = fixture_cards();
    let documents = build_index_documents(&cards);
    assert_eq!(documents.len(), cards.len());
    assert_eq!(documents[0].id, "jargon_lar_tong_dui_qi");
    assert!(documents[0].content.contains("term: 拉通对齐"));
    assert_eq!(documents[1].id, "meme_po_fang_le");
    assert_eq!(documents[2].id, "jargon_fu_neng");
}

#[test]
fn normalize_query_trims_input() {
    assert_eq!(normalize_query("  query  ", 20), Ok("query".to_owned()));
}

#[test]
fn normalize_query_rejects_empty_input() {
    assert_eq!(normalize_query(" ", 20), Err(SearchQueryError::Empty));
}

#[test]
fn normalize_query_rejects_long_input() {
    assert_eq!(
        normalize_query("一二三四五", 4),
        Err(SearchQueryError::TooLong { max_chars: 4 })
    );
}

#[test]
fn normalize_query_counts_characters_not_bytes() {
    assert_eq!(normalize_query(" 一二三四 ", 4), Ok("一二三四".to_owned()));
    assert_eq!(normalize_query("\u{3000}\t\n", 4), Err(SearchQueryError::Empty));
}

#[test]
fn rank_keyword_matches_returns_expected_card() {
    let card = card();
    let results = rank_keyword_matches(&card.plain, &[card.clone()], 3);

    assert_eq!(results.len(), 1);
    assert_eq!(results[0].id, card.id);
}

#[test]
fn rank_keyword_matches_scores_each_tier() {
    let cards = fixture_cards();
    let exact = rank_keyword_matches("拉通对齐", &cards, 10);
    assert_eq!(exact[0].id, "jargon_lar_tong_dui_qi");
    assert_eq!(exact[0].score, 100);

    let by_query = rank_keyword_matches("心态崩了", &cards, 1);
    assert_eq!(by_query.len(), 1);
    assert_eq!(by_query[0].id, "meme_po_fang_le");
    assert_eq!(by_query[0].score, 95);

    let by_text = rank_keyword_matches("绷不住", &cards, 10);
    assert_eq!(by_text.len(), 1);
    assert_eq!(by_text[0].score, 75);

    let by_char = rank_keyword_matches("能量", &cards, 10);
    assert_eq!(by_char.len(), 1);
    assert_eq!(by_char[0].id, "jargon_fu_neng");
    assert_eq!(by_char[0].score, 20);

    assert!(rank_keyword_matches("zzz", &cards, 10).is_empty());
}

#[test]
fn rank_keyword_matches_orders_by_score_then_term() {
    let cards = fixture_cards();
    let results = rank_keyword_matches("先", &cards, 10);
    let scores: Vec<u32> = results.iter().map(|result| result.score).collect();
    assert!(scores.windows(2).all(|pair| pair[0] >= pair[1]));
    assert!(results.iter().any(|result| result.id == "jargon_lar_tong_dui_qi"));

    let mut a = card();
    a.term = "b".to_owned();
    a.id = "b".to_owned();
    let mut b = card();
    b.term = "a".to_owned();
    b.id = "a".to_owned();
    let tie = rank_keyword_matches("大家先统一想法", &[a, b], 10);
    assert_eq!(tie[0].id, "a");
    assert_eq!(tie[1].id, "b");
}

#[test]
fn rank_keyword_matches_respects_limit_and_blank_query() {
    let cards = fixture_cards();
    assert!(rank_keyword_matches("   ", &cards, 10).is_empty());
    assert!(rank_keyword_matches("拉通对齐", &cards, 0).is_empty());
    assert!(rank_keyword_matches("的", &cards, 1).len() <= 1);
}

#[test]
fn search_result_from_card_copies_fields() {
    let card = card();
    let result = SearchResult::from_card(&card, 75);
    assert_eq!(result.id, card.id);
    assert_eq!(result.examples, card.examples);
    assert_eq!(result.tags, card.tags);
    assert_eq!(result.score, 75);
}

#[test]
fn validate_cards_accepts_fixture_cards() {
    assert_eq!(validate_cards(&fixture_cards()), Ok(()));
}

#[test]
fn validate_cards_rejects_blank_required_fields() {
    let mut card = card();
    card.id = " ".to_owned();
    card.term = " ".to_owned();

    let error = validate_cards(&[card]).unwrap_err();

    assert!(
        error
            .issues
            .iter()
            .any(|issue| issue.message == "id is required")
    );
    assert!(
        error
            .issues
            .iter()
            .any(|issue| issue.message == "term is required")
    );
}

#[test]
fn validate_cards_rejects_duplicate_ids() {
    let card = card();
    let duplicate = card.clone();

    let error = validate_cards(&[card, duplicate]).unwrap_err();

    assert!(
        error
            .issues
            .iter()
            .any(|issue| issue.message == "duplicate id")
    );
}

#[test]
fn validate_cards_rejects_cards_without_searchable_text() {
    let mut card = card();
    card.term.clear();
    card.plain.clear();
    card.explanation.clear();
    card.examples.clear();
    card.queries.clear();
    card.tags.clear();

    let error = validate_cards(&[card]).unwrap_err();

    assert!(
        error
            .issues
            .iter()
            .any(|issue| issue.message == "card has no searchable text")
    );
}

#[test]
fn validate_cards_reports_issues_in_order_with_trimmed_ids() {
    let mut first = card();
    first.id = "  x  ".to_owned();
    first.source = "".to_owned();
    let mut second = card();
    second.id = "x".to_owned();
    let error = validate_cards(&[first, second]).unwrap_err();
    assert_eq!(error.issues.len(), 2);
    assert_eq!(error.issues[0].card_id, Some("x".to_owned()));
    assert_eq!(error.issues[0].message, "source is required");
    assert_eq!(error.issues[1].card_id, Some("x".to_owned()));
    assert_eq!(error.issues[1].message, "duplicate id");

    let mut blank = card();
    blank.id = "".to_owned();
    let error = validate_cards(&[blank]).unwrap_err();
    assert_eq!(error.issues.len(), 1);
    assert_eq!(error.issues[0].card_id, None);
}

#[test]
fn app_state_rejects_invalid_cards() {
    let mut cards = fixture_cards();
    cards[1].id = cards[0].id.clone();

    let error = SearchIndex::new(cards).err().unwrap();

    assert!(
        error
            .issues
            .iter()
            .any(|issue| issue.message == "duplicate id")
    );
}

#[test]
fn search_index_searches_and_finds_by_id() {
    let index = SearchIndex::new(fixture_cards()).ok().unwrap();
    assert_eq!(index.len(), 3);
    let results = index.search("心态崩了", 1);
    assert_eq!(results.len(), 1);
    assert_eq!(results[0].id, "meme_po_fang_le");
    assert_eq!(index.card_by_id("jargon_fu_neng").unwrap().term, "赋能");
    assert!(index.card_by_id("missing_card").is_none());
    assert_eq!(index.position_of_id("meme_po_fang_le"), Some(1));
}

#[test]
fn resolve_vector_matches_keeps_vector_order() {
    let index = SearchIndex::new(fixture_cards()).ok().unwrap();
    let ids = strings(&["meme_po_fang_le", "jargon_lar_tong_dui_qi"]);
    let resolved = resolve_vector_matches(&index, &ids);
    assert_eq!(resolved, vec![(0, 1), (1, 0)]);
    assert_eq!(index.cards()[resolved[0].1].examples, fixture_cards()[1].examples);
}

#[test]
fn resolve_vector_matches_skips_unknown_ids() {
    let index = SearchIndex::new(fixture_cards()).ok().unwrap();
    assert!(resolve_vector_matches(&index, &strings(&["missing_card"])).is_empty());
    let resolved = resolve_vector_matches(&index, &strings(&["missing_card", "jargon_fu_neng"]));
    assert_eq!(resolved, vec![(1, 2)]);
}

fn assert_error(error: ApiError, status: u16, code: &str) {
    assert_eq!(error.status, status);
    assert_eq!(error.error, code);
}

#[test]
fn parse_limit_defaults_clamps_and_refuses() {
    assert_eq!(parse_limit(None).ok(), Some(10));
    assert_eq!(parse_limit(Some("3")).ok(), Some(3));
    assert_eq!(parse_limit(Some("+7")).ok(), Some(7));
    assert_eq!(parse_limit(Some("-1")).ok(), Some(1));
    assert_eq!(parse_limit(Some("0")).ok(), Some(1));
    assert_eq!(parse_limit(Some("500")).ok(), Some(50));
    assert_eq!(parse_limit(Some("-9223372036854775808")).ok(), Some(1));
    assert_eq!(parse_limit(Some("9223372036854775807")).ok(), Some(50));
    for bad in ["abc", "", "-", "+", " 3", "3 ", "1.5", "9223372036854775808", "99999999999999999999999"] {
        assert_error(parse_limit(Some(bad)).err().unwrap(), 400, "invalid_limit");
    }
}

#[test]
fn parse_search_request_checks_query_then_limit() {
    assert_error(parse_search_request(Some(" "), None).err().unwrap(), 400, "invalid_query");
    assert_error(parse_search_request(None, None).err().unwrap(), 400, "invalid_query");
    assert_error(
        parse_search_request(None, Some("abc")).err().unwrap(),
        400,
        "invalid_query",
    );
    assert_error(
        parse_search_request(Some("测试"), Some("abc")).err().unwrap(),
        400,
        "invalid_limit",
    );
    let long = "字".repeat(201);
    assert_error(parse_search_request(Some(&long), None).err().unwrap(), 400, "invalid_query");
    let (query, limit) = parse_search_request(Some(" 大家先统一想法 "), Some("-1")).ok().unwrap();
    assert_eq!(query, "大家先统一想法");
    assert_eq!(limit, 1);
    let error = ApiError::internal_search_error();
    assert_error(error, 500, "search_failed");
    let error = ApiError::from_query_error(SearchQueryError::Empty);
    assert_eq!(error.message, "q must be present, non-empty, and within the character limit");
}

#[test]
fn load_cards_from_reader_rejects_empty_collection() {
    assert!(matches!(load_cards_from_parsed(Ok(Vec::new())), Err(CardLoadError::Empty)));
}

#[test]
fn load_cards_from_reader_rejects_invalid_json() {
    let parse_error = serde_json::from_str::<serde_json::Value>("not json").unwrap_err();
    assert!(matches!(load_cards_from_parsed(Err(parse_error)), Err(CardLoadError::Json(_))));
}

#[test]
fn load_cards_from_parsed_accepts_cards() {
    let cards = load_cards_from_parsed(Ok(fixture_cards())).ok().unwrap();
    assert_eq!(cards.len(), 3);
    assert_eq!(cards[0].id, "jargon_lar_tong_dui_qi");
}

#[test]
fn keyword_score_gives_each_tier() {
    let card = card();
    assert_eq!(keyword_score(&str_chars("拉通对齐"), &card), 100);
    assert_eq!(keyword_score(&str_chars("先把要做的事情说清楚"), &card), 95);
    assert_eq!(keyword_score(&str_chars("分工"), &card), 75);
    assert_eq!(keyword_score(&str_chars("工作"), &card), 20);
    assert_eq!(keyword_score(&str_chars("zzz"), &card), 0);
}

#[test]
fn has_searchable_text_ignores_id_and_source() {
    let mut card = card();
    assert!(has_searchable_text(&card));
    card.term = " ".to_owned();
    card.plain.clear();
    card.explanation.clear();
    card.examples.clear();
    card.queries = strings(&["  "]);
    card.tags.clear();
    assert!(!has_searchable_text(&card));
    card.tags = strings(&["标签"]);
    assert!(has_searchable_text(&card));
}

#[test]
fn check_required_field_appends_one_issue_when_blank() {
    let mut issues = Vec::new();
    check_required_field(&mut issues, &Some("x".to_owned()), "term", &"  ".to_owned());
    check_required_field(&mut issues, &None, "plain", &"值".to_owned());
    assert_eq!(issues.len(), 1);
    assert_eq!(issues[0].card_id, Some("x".to_owned()));
    assert_eq!(issues[0].message, "term is required");
}

#[test]
fn validation_report_lists_issues() {
    let mut blank = card();
    blank.id = " ".to_owned();
    let error = validate_cards(&[blank]).unwrap_err();
    assert_eq!(
        error.report(),
        "card validation failed with 1 issue(s)\n- id is required\n"
    );
}

#[test]
fn load_error_describe_includes_parse_detail() {
    let parse_error = serde_json::from_str::<serde_json::Value>("not json").unwrap_err();
    let detail = parse_error.to_string();
    let error = load_cards_from_parsed(Err(parse_error)).err().unwrap();
    assert_eq!(error.describe(), format!("invalid card JSON: {detail}"));
    let empty = load_cards_from_parsed(Ok(Vec::new())).err().unwrap();
    assert_eq!(empty.describe(), "card collection is empty");
}
