use erudify::pinyin::{
    answer_matches, apply_tones, has_tone_mark, split_words, strip_prefix_no_tones, strip_tone,
};

#[test]
fn test_apply_tones_basic() {
    assert_eq!(apply_tones("wo3"), "wǒ");
    assert_eq!(apply_tones("xue2"), "xué");
    assert_eq!(apply_tones("xuesheng2"), "xuésheng");
    assert_eq!(apply_tones("xuésheng1"), "xuéshēng");
    assert_eq!(apply_tones("xuésheng5"), "xuesheng");
    assert_eq!(apply_tones("xuéshēng5"), "xuésheng");
    assert_eq!(apply_tones("xue sheng2"), "xué sheng");
    assert_eq!(apply_tones("xué sheng1"), "xué shēng");
    assert_eq!(apply_tones("xué sheng5"), "xue sheng");
    assert_eq!(apply_tones("xué shēng5"), "xué sheng");
    assert_eq!(apply_tones("hao3"), "hǎo");
    assert_eq!(apply_tones("hǎo5"), "hao");
    assert_eq!(apply_tones("ma"), "ma");
}

#[test]
fn test_split_words_examples() {
    assert_eq!(split_words("xuesheng"), vec!["xue", "sheng"]);
    assert_eq!(split_words("nihao"), vec!["ni", "hao"]);
    assert_eq!(split_words("wǎnshang"), vec!["wǎn", "shang"]);
    assert_eq!(split_words("xihuan"), vec!["xi", "huan"]);
    assert_eq!(split_words("wo"), vec!["wo"]);
    assert_eq!(split_words("daan"), vec!["daan"]);
    assert_eq!(split_words("da an"), vec!["da", " an"]);
    assert_eq!(split_words("aihao"), vec!["ai", "hao"]);
    assert_eq!(split_words("xiayu"), vec!["xia", "yu"]);
    assert_eq!(split_words("shengqi"), vec!["sheng", "qi"]);
    assert_eq!(split_words("guojia"), vec!["guo", "jia"]);
}

#[test]
fn strip_tone_examples() {
    assert_eq!(strip_tone('ǎ'), 'a');
    assert_eq!(strip_tone('é'), 'e');
    assert_eq!(strip_tone('Ǜ'), 'U');
    assert_eq!(strip_tone('x'), 'x');
    assert_eq!(strip_tone('好'), '好');
}

#[test]
fn strip_prefix_no_tones_examples() {
    assert_eq!(strip_prefix_no_tones("nihao ma", "nǐhǎo"), Some(" ma"));
    assert_eq!(strip_prefix_no_tones("nǐhǎo ma", "nihao"), Some(" ma"));
    assert_eq!(strip_prefix_no_tones("nihao", "nǐhǎo"), Some(""));
    assert_eq!(strip_prefix_no_tones("wǒ shì", "nǐ"), None);
    // The whole prefix must be consumed: a cursor that runs out first does
    // not match.
    assert_eq!(strip_prefix_no_tones("n", "nǐ"), None);
    assert_eq!(strip_prefix_no_tones("niha", "nǐhǎo"), None);
}

#[test]
fn has_tone_mark_examples() {
    assert!(has_tone_mark("xué"));
    assert!(!has_tone_mark("xue"));
    assert!(!has_tone_mark(""));
}

#[test]
fn answer_matches_ignores_case_and_spacing() {
    assert!(answer_matches("xué sheng", "  XUÉSHENG "));
    assert!(answer_matches("wǒ", "wǒ"));
    assert!(!answer_matches("wǒ", "wo"));
    assert!(answer_matches("", "   "));
}
