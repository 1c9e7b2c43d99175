//! Tests of the topic line wrapping.

use jieba_rs::Jieba;
use poster_text::split::Title;
use poster_text::wrap::pack_tokens;

#[test]
fn short_topic_is_unchanged() {
    let jieba = Jieba::new();
    let r = Title::read("【经管学院】读书会");
    let wrapped = r.wrap_topic(jieba, 12);
    assert_eq!(wrapped.tags, vec!["经管学院"]);
    assert_eq!(wrapped.topic, vec!["读书会"]);
}

#[test]
fn empty_topic_is_unchanged() {
    let jieba = Jieba::new();
    let r = Title::read("");
    let wrapped = r.wrap_topic(jieba, 6);
    assert!(wrapped.topic.is_empty());
    assert!(wrapped.tags.is_empty());
}

#[test]
fn topic_at_exact_limit_is_unchanged() {
    let jieba = Jieba::new();
    let r = Title::read("【社团】一二三四五六");
    let wrapped = r.wrap_topic(jieba, 6);
    assert_eq!(wrapped.topic, vec!["一二三四五六"]);
}

#[test]
fn long_topic_lines_keep_every_character() {
    let jieba = Jieba::new();
    let topic = "2020年大学生暑期社会实践宣讲会活动";
    let r = Title::read("【计算机学院】2020年大学生暑期社会实践宣讲会活动");
    let wrapped = r.wrap_topic(jieba, 8);
    assert!(wrapped.topic.len() > 1);
    let joined: String = wrapped.topic.concat();
    assert_eq!(joined, topic);
}

#[test]
fn long_topic_lines_respect_the_limit() {
    let jieba = Jieba::new();
    let topic = "2020年大学生暑期社会实践宣讲会活动";
    let words: Vec<String> = jieba.cut(topic, true).iter().map(|t| t.word.to_string()).collect();
    let r = Title::read("【计算机学院】2020年大学生暑期社会实践宣讲会活动");
    let wrapped = r.wrap_topic(jieba, 8);
    for line in &wrapped.topic {
        let fits = line.chars().count() < 8;
        let single_token = words.iter().any(|w| w == line);
        assert!(fits || single_token, "line {:?} breaks the limit and is no single token", line);
    }
}

#[test]
fn wrapping_never_splits_a_word() {
    let jieba = Jieba::new();
    let topic = "2020年大学生暑期社会实践宣讲会活动";
    let words: Vec<String> = jieba.cut(topic, true).iter().map(|t| t.word.to_string()).collect();
    let r = Title::read("【计算机学院】2020年大学生暑期社会实践宣讲会活动");
    let wrapped = r.wrap_topic(jieba, 8);
    // Each line is a concatenation of consecutive whole tokens.
    let mut w: usize = 0;
    for line in &wrapped.topic {
        let mut rest: &str = line;
        while !rest.is_empty() {
            assert!(w < words.len());
            assert!(rest.starts_with(words[w].as_str()), "line {:?} splits a word", line);
            rest = &rest[words[w].len()..];
            w += 1;
        }
    }
    assert_eq!(w, words.len());
}

#[test]
fn pack_tokens_greedy_packing() {
    let words: Vec<String> = vec!["ab".to_string(), "cd".to_string(), "ef".to_string()];
    let lines = pack_tokens(&words, 5);
    assert_eq!(lines, vec!["abcd", "ef"]);
}

#[test]
fn pack_tokens_oversized_token_stands_alone() {
    let words: Vec<String> = vec!["abcdef".to_string(), "g".to_string()];
    let lines = pack_tokens(&words, 3);
    // The oversized first token closes the (still empty) first line and
    // then stands alone, unsplit.
    assert_eq!(lines, vec!["", "abcdef", "g"]);
}

#[test]
fn pack_tokens_flushes_the_last_line() {
    let words: Vec<String> = vec!["aa".to_string(), "bb".to_string()];
    let lines = pack_tokens(&words, 10);
    assert_eq!(lines, vec!["aabb"]);
}

#[test]
fn pack_tokens_no_tokens_no_lines() {
    let words: Vec<String> = Vec::new();
    let lines = pack_tokens(&words, 4);
    assert!(lines.is_empty());
}
