use erudify::align::AlignError;
use erudify::exercise::{Exercise, ParseError, Segment};
use erudify::text::{str_pop, str_tail};

fn join_ok(chinese: &str, pinyin: &str) -> Vec<Segment> {
    Segment::join(chinese, pinyin).expect("alignment should succeed")
}

fn full_text(segments: &[Segment]) -> String {
    segments.iter().map(|s| s.chinese.as_str()).collect()
}

#[test]
fn str_pop_1() {
    let (c, rest) = str_pop("abc").unwrap();
    assert_eq!(c, 'a');
    assert_eq!(rest, "bc");
}

#[test]
fn str_pop_2() {
    let (c, rest) = str_pop("今天有两个会议。").unwrap();
    assert_eq!(c, '今');
    assert_eq!(rest, "天有两个会议。");
}

#[test]
fn str_pop_3() {
    let (c, rest) = str_pop("ǒ jiào").unwrap();
    assert_eq!(c, 'ǒ');
    assert_eq!(rest, " jiào");
}

#[test]
fn str_pop_empty() {
    assert!(str_pop("").is_none());
}

#[test]
fn str_tail_examples() {
    assert_eq!(str_tail("abc"), "bc");
    assert_eq!(str_tail("今天"), "天");
    assert_eq!(str_tail(""), "");
}

#[test]
fn basic_segment_1() {
    let segments = join_ok("今天有两个会议。", "Jīntiān yǒu liǎng gè huìyì.");
    assert_eq!(full_text(&segments), "今天有两个会议。");
}

#[test]
fn basic_segment_2() {
    let segments = join_ok("我叫David。你好。", "Wǒ jiào David. Nǐhǎo.");
    assert_eq!(full_text(&segments), "我叫David。你好。");
    // Each maximal run of unaligned characters forms exactly one
    // empty-reading segment.
    let runs: Vec<&str> = segments
        .iter()
        .filter(|s| s.pinyin.is_empty())
        .map(|s| s.chinese.as_str())
        .collect();
    assert_eq!(runs, vec!["David。", "。"]);
}

#[test]
fn basic_segment_3() {
    // The dictionary reads 答应 with a neutral tone ("dā ying"), so this
    // tone-marked transcription does not align exactly: strict alignment
    // reports the 答 match as ending mid-word, and the tone-insensitive
    // mode aligns the whole sentence.
    let strict = Segment::join("他答应帮忙，但是忘记了。", "Tā dāyìng bāngmáng, dànshì wàngjì le.");
    assert!(matches!(strict, Err(AlignError::SegmentationAmbiguous { .. })));
    let segments = Segment::join_with(
        "他答应帮忙，但是忘记了。",
        "Tā dāyìng bāngmáng, dànshì wàngjì le.",
        true,
        true,
    )
    .expect("tone-insensitive alignment should succeed");
    assert_eq!(full_text(&segments), "他答应帮忙，但是忘记了。");
}

#[test]
fn basic_segment_4() {
    let segments = join_ok("他也不知道答案。", "Tā yě bù zhīdào dá'àn.");
    assert_eq!(full_text(&segments), "他也不知道答案。");
}

#[test]
fn alignment_example_one_segment_per_word() {
    let segments = join_ok("他也不知道答案。", "Tā yě bù zhīdào dá'àn.");
    let texts: Vec<&str> = segments.iter().map(|s| s.chinese.as_str()).collect();
    assert_eq!(texts, vec!["他", "也", "不", "知道", "答案", "。"]);
    let last = segments.last().unwrap();
    assert_eq!(last.chinese, "。");
    assert_eq!(last.pinyin, "");
    for segment in &segments[..segments.len() - 1] {
        assert!(!segment.pinyin.is_empty());
    }
}

#[test]
fn alignment_of_empty_input_is_empty() {
    let segments = join_ok("", "");
    assert!(segments.is_empty());
}

#[test]
fn alignment_strips_interior_spaces() {
    let segments = join_ok("你 好。", "Nǐ hǎo.");
    assert_eq!(full_text(&segments), "你好。");
}

#[test]
fn alignment_failure_reports_remainder() {
    let first = Segment::join("你好", "xyzabc").unwrap_err();
    let second = Segment::join("你好", "xyzabc").unwrap_err();
    assert_eq!(first, second);
    match first {
        AlignError::AlignmentFailed { chinese, pinyin, remainder } => {
            assert_eq!(chinese, "你好");
            assert_eq!(pinyin, "xyzabc");
            assert_eq!(remainder, "xyzabc");
        }
        other => panic!("expected an alignment failure, got {other:?}"),
    }
}

#[test]
fn strict_match_mid_word_is_ambiguous() {
    let err = Segment::join("你好", "nǐhǎoma").unwrap_err();
    match err {
        AlignError::SegmentationAmbiguous { reading, remainder } => {
            assert_eq!(reading, "nǐhǎo");
            assert_eq!(remainder, "nǐhǎoma");
        }
        other => panic!("expected a segmentation ambiguity, got {other:?}"),
    }
}

#[test]
fn lax_tone_matches_unmarked_pinyin() {
    let segments =
        Segment::join_with("你好", "nihao", true, true).expect("lax alignment should succeed");
    assert_eq!(segments.len(), 1);
    assert_eq!(segments[0].chinese, "你好");
    assert_eq!(segments[0].pinyin, "nǐ hǎo");
}

#[test]
fn exact_tones_required_without_lax_mode() {
    assert!(Segment::join_with("你好", "nihao", true, false).is_err());
}

#[test]
fn parse_reads_three_lines_and_leaves_rest() {
    let input = "Chinese: 你好。\nPinyin: Nǐ hǎo.\nEnglish:  Hello. \n\nChinese: 谢谢。\nPinyin: Xièxie.\nEnglish: Thanks.";
    let (first, rest) = Exercise::parse(input, true, false).expect("first record should parse");
    assert_eq!(first.english, "Hello.");
    assert_eq!(first.chinese(), "你好。");
    let (second, rest2) = Exercise::parse(rest.as_str(), true, false)
        .expect("second record should parse");
    assert_eq!(second.english, "Thanks.");
    assert_eq!(second.chinese(), "谢谢。");
    assert_eq!(rest2, "");
}

#[test]
fn parse_rejects_reordered_keys() {
    let input = "English: Hello.\nChinese: 你好。\nPinyin: Nǐ hǎo.";
    assert_eq!(
        Exercise::parse(input, true, false).unwrap_err(),
        ParseError::MalformedRecord
    );
}

#[test]
fn parse_rejects_unknown_key() {
    let input = "Bogus: x\nPinyin: y\nEnglish: z";
    assert_eq!(
        Exercise::parse(input, true, false).unwrap_err(),
        ParseError::MalformedRecord
    );
}

#[test]
fn parse_rejects_missing_field() {
    let input = "Chinese: 你好。\nChinese: 你好。\nEnglish: Hello.";
    assert_eq!(
        Exercise::parse(input, true, false).unwrap_err(),
        ParseError::MalformedRecord
    );
}

#[test]
fn parse_rejects_line_without_colon() {
    assert_eq!(
        Exercise::parse("Chinese 你好。", true, false).unwrap_err(),
        ParseError::MalformedRecord
    );
}

#[test]
fn parse_propagates_alignment_failure() {
    let input = "Chinese: 你好\nPinyin: zzz\nEnglish: x";
    match Exercise::parse(input, true, false).unwrap_err() {
        ParseError::Align(AlignError::AlignmentFailed { remainder, .. }) => {
            assert_eq!(remainder, "zzz");
        }
        other => panic!("expected an alignment failure, got {other:?}"),
    }
}

fn seg(chinese: &str, pinyin: &str) -> Segment {
    Segment { chinese: chinese.to_string(), pinyin: pinyin.to_string() }
}

#[test]
fn words_keeps_first_occurrences_and_skips_runs() {
    let record = Exercise {
        segments: vec![seg("我", "wǒ"), seg("喜欢", "xǐ huan"), seg("我", "wǒ"), seg("。", "")],
        english: "I like me.".to_string(),
    };
    assert_eq!(record.words(), vec!["我", "喜欢"]);
    assert_eq!(record.chinese(), "我喜欢我。");
    assert_eq!(record.pinyin(), "wǒ xǐ huan wǒ");
}
