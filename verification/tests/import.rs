use satori::import::{
    imported_card_id, normalize_imported_text, parse_mcsrainbow_markdown, stable_hash,
};
use satori::segment::pronunciation_check;
use satori::text::str_chars;

#[test]
fn parse_mcsrainbow_markdown_imports_explanation_lines() {
    let markdown = r#"
# 二字黑话词汇解释
赋能 - 提供帮助或支持。
闭环 - 把事情从开始做到结束。

# 二字黑话词汇翻译
赋能 - enable
"#;

    let cards = parse_mcsrainbow_markdown(markdown);

    assert_eq!(cards.len(), 2);
    assert_eq!(cards[0].term, "赋能");
    assert_eq!(cards[0].plain, "提供帮助或支持。");
    assert_eq!(cards[0].queries, vec!["提供帮助或支持。"]);
    assert!(!cards[0].verified);
}

#[test]
fn parse_mcsrainbow_markdown_skips_duplicate_terms() {
    let markdown = r#"
# 词汇解释
赋能 - 提供帮助或支持。
赋能 - 重复内容。
"#;

    let cards = parse_mcsrainbow_markdown(markdown);

    assert_eq!(cards.len(), 1);
    assert_eq!(cards[0].plain, "提供帮助或支持。");
}

#[test]
fn parse_mcsrainbow_markdown_strips_pronunciation_prefixes() {
    let markdown = r#"
# 词汇解释
阈值 - (yù zhí)触发某种状态变化的临界点
"#;

    let cards = parse_mcsrainbow_markdown(markdown);

    assert_eq!(cards.len(), 1);
    assert_eq!(cards[0].plain, "触发某种状态变化的临界点");
    assert_eq!(cards[0].explanation, "触发某种状态变化的临界点");
    assert_eq!(cards[0].queries, vec!["触发某种状态变化的临界点"]);
}

#[test]
fn parse_mcsrainbow_markdown_splits_multi_meaning_explanations() {
    let markdown = r#"
# 词汇解释
矩阵 - 多渠道规模化的产品或服务组合 / 有m行n列二维数组元素的矩形阵列
"#;

    let cards = parse_mcsrainbow_markdown(markdown);

    assert_eq!(cards.len(), 1);
    assert_eq!(cards[0].plain, "多渠道规模化的产品或服务组合");
    assert_eq!(
        cards[0].explanation,
        "多渠道规模化的产品或服务组合；有m行n列二维数组元素的矩形阵列"
    );
    assert_eq!(
        cards[0].queries,
        vec![
            "多渠道规模化的产品或服务组合",
            "有m行n列二维数组元素的矩形阵列"
        ]
    );
}

#[test]
fn imported_card_id_is_stable() {
    assert_eq!(imported_card_id("赋能"), imported_card_id("赋能"));
    assert_ne!(imported_card_id("赋能"), imported_card_id("闭环"));
}

#[test]
fn imported_card_id_is_fnv1a_in_hex() {
    assert_eq!(imported_card_id("赋能"), "jargon_mcsrainbow_092959dd598d9c75");
    assert_eq!(imported_card_id("闭环"), "jargon_mcsrainbow_9789c10f6d58a8e6");
    assert_eq!(imported_card_id(""), "jargon_mcsrainbow_cbf29ce484222325");
    assert_eq!(stable_hash(b""), 0xcbf29ce484222325);
}

#[test]
fn parse_mcsrainbow_markdown_fills_card_fields() {
    let cards = parse_mcsrainbow_markdown("# 解释\n- 赋能：提供帮助\r\n* 闭环 — 做完\n");
    assert_eq!(cards.len(), 2);
    assert_eq!(cards[0].id, "jargon_mcsrainbow_092959dd598d9c75");
    assert_eq!(cards[0].term, "赋能");
    assert_eq!(cards[0].explanation, "提供帮助");
    assert!(cards[0].examples.is_empty());
    assert_eq!(cards[0].tags, vec!["external", "jargon"]);
    assert_eq!(cards[0].source, "mcsrainbow/chinese-internet-jargon");
    assert_eq!(cards[1].term, "闭环");
    assert_eq!(cards[1].plain, "做完");
}

#[test]
fn parse_mcsrainbow_markdown_ignores_lines_outside_explanation_sections() {
    let markdown = "赋能 - 提供帮助\n# 翻译与解释\n闭环 - 做完\n# 解释\n没有分隔的行\n - \n链路 -  \n";
    assert!(parse_mcsrainbow_markdown(markdown).is_empty());
    assert!(parse_mcsrainbow_markdown("").is_empty());
}

#[test]
fn imported_segments_are_cleaned_and_deduplicated() {
    let markdown = "# 解释\n抓手 - （zhuā shǒu）  切入   点 ／切入 点 /  / 方法\n打法 - (1.2)做法\n";
    let cards = parse_mcsrainbow_markdown(markdown);
    assert_eq!(cards.len(), 2);
    assert_eq!(cards[0].queries, vec!["切入 点", "方法"]);
    assert_eq!(cards[0].plain, "切入 点");
    assert_eq!(cards[0].explanation, "切入 点；方法");
    assert_eq!(cards[1].plain, "(1.2)做法");
}

#[test]
fn pronunciation_check_reads_given_answers() {
    let text = str_chars("yù zhí");
    let alphabetic = vec![true, true, false, true, true, true];
    assert!(pronunciation_check(&text, &alphabetic));
    let no_letters = vec![false, false, false, false, false, false];
    assert!(!pronunciation_check(&text, &no_letters));
    assert!(pronunciation_check(&str_chars("- '·"), &vec![false, false, false, false]));
    assert!(!pronunciation_check(&str_chars(""), &Vec::new()));
}

#[test]
fn normalize_imported_text_derives_fields() {
    let text = normalize_imported_text(&str_chars(" 甲  乙 ／丙 / 甲  乙"));
    assert_eq!(text.plain, "甲 乙");
    assert_eq!(text.explanation, "甲 乙；丙");
    assert_eq!(text.queries, vec!["甲 乙", "丙"]);
    let fallback = normalize_imported_text(&str_chars(" / "));
    assert_eq!(fallback.queries, vec!["/"]);
    assert_eq!(fallback.plain, "/");
}
