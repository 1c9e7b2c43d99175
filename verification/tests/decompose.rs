//! Tests of the title decomposition.

use poster_text::split::Title;

#[test]
fn single_tag_title() {
    let r = Title::read("【计算机学院】2020年大学生暑期社会实践宣讲会活动");
    assert_eq!(r.tags, vec!["计算机学院"]);
    assert_eq!(r.topic, vec!["2020年大学生暑期社会实践宣讲会活动"]);
    assert_eq!(r.origin, "【计算机学院】2020年大学生暑期社会实践宣讲会活动");
}

#[test]
fn two_tag_title() {
    let r = Title::read("【经管学院】【历史社】SIT历史社联合社团特色活动");
    assert_eq!(r.tags, vec!["经管学院", "历史社"]);
    assert_eq!(r.topic, vec!["SIT历史社联合社团特色活动"]);
}

#[test]
fn empty_title() {
    let r = Title::read("");
    assert!(r.tags.is_empty());
    assert!(r.topic.is_empty());
    assert_eq!(r.origin, "");
}

#[test]
fn ascii_brackets_are_normalized() {
    let r = Title::read("[社团]周末读书会");
    assert_eq!(r.tags, vec!["社团"]);
    assert_eq!(r.topic, vec!["周末读书会"]);
}

#[test]
fn untagged_title_is_all_topic() {
    let r = Title::read("校园歌手大赛决赛");
    assert!(r.tags.is_empty());
    assert_eq!(r.topic, vec!["校园歌手大赛决赛"]);
}

#[test]
fn only_bracketed_section_becomes_topic() {
    // The last section is always the topic, even when it looks like a tag.
    let r = Title::read("【工作室】");
    assert!(r.tags.is_empty());
    assert_eq!(r.topic, vec!["【工作室】"]);
}

#[test]
fn split_keeps_closing_bracket() {
    let sections = Title::split("【a】b");
    assert_eq!(sections, vec!["【a】", "b"]);
}

#[test]
fn split_empty_title_has_no_sections() {
    let sections = Title::split("");
    assert!(sections.is_empty());
}

#[test]
fn split_trailing_bracket_only() {
    let sections = Title::split("【a】【b】");
    assert_eq!(sections, vec!["【a】", "【b】"]);
}

#[test]
fn remove_parentheses_strips_both_sides() {
    assert_eq!(Title::remove_parentheses(&"【计算机学院】".to_string()), "计算机学院");
    assert_eq!(Title::remove_parentheses(&"【【x】】".to_string()), "x");
    assert_eq!(Title::remove_parentheses(&"plain".to_string()), "plain");
}

#[test]
fn reconstruction_reproduces_normalized_title() {
    let title = "[经管学院]【历史社】SIT历史社联合社团特色活动";
    let normalized = title.replace('[', "【").replace(']', "】");
    let r = Title::read(title);
    let mut rebuilt = String::new();
    for tag in &r.tags {
        rebuilt.push('【');
        rebuilt.push_str(tag);
        rebuilt.push('】');
    }
    for part in &r.topic {
        rebuilt.push_str(part);
    }
    assert_eq!(rebuilt, normalized);
}
