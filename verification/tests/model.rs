use erudify::exercise::{Exercise, Segment};
use erudify::memory::Proficiency;
use erudify::model::UserModel;

/// 2024-01-15T12:00:00Z in milliseconds since the Unix epoch.
const NOW: i64 = 1_705_320_000_000;
const HOUR: i64 = 3_600_000;
const SECOND: i64 = 1_000;

fn basic_word_list() -> Vec<String> {
    vec![
        "你好".to_string(),
        "谢谢".to_string(),
        "再见".to_string(),
        "学习".to_string(),
        "工作".to_string(),
    ]
}

fn seg(chinese: &str, pinyin: &str) -> Segment {
    Segment { chinese: chinese.to_string(), pinyin: pinyin.to_string() }
}

fn wo_shi_xuesheng_exercise() -> Exercise {
    Exercise {
        segments: vec![seg("我", "wǒ"), seg("是", "shì"), seg("学生", "xué sheng"), seg("。", "")],
        english: "I am a student.".to_string(),
    }
}

fn wo_xihuan_chi_jiaozi_exercise() -> Exercise {
    Exercise {
        segments: vec![
            seg("我", "wǒ"),
            seg("喜欢", "xǐ huan"),
            seg("吃", "chī"),
            seg("饺子", "jiǎo zi"),
            seg("。", ""),
        ],
        english: "I like to eat dumplings.".to_string(),
    }
}

#[test]
fn test_next_word_empty_model_returns_first_word() {
    assert_eq!(UserModel::new().next_word(NOW, &basic_word_list()), basic_word_list()[0]);
}

#[test]
fn test_next_word_seen_due_words_prioritized_by_closest_to_now() {
    let mut model = UserModel::new();
    model.set_target_date("你好", NOW - 3 * HOUR);
    model.set_target_date("谢谢", NOW - 2 * HOUR);
    model.set_target_date("再见", NOW - 3 * HOUR);

    // "谢谢" is due closest to now (2 hours ago vs 3 hours ago)
    assert_eq!(model.next_word(NOW, &basic_word_list()), "谢谢");
}

#[test]
fn test_next_word_seen_future_words_prioritized_by_closest_to_now() {
    let mut model = UserModel::new();

    model.set_target_date("你好", NOW + 5 * HOUR);
    model.set_target_date("谢谢", NOW + 3 * HOUR);
    model.set_target_date("再见", NOW + 7 * HOUR);
    model.set_target_date("学习", NOW + 10 * HOUR);
    model.set_target_date("工作", NOW + 15 * HOUR);

    // All words are seen and none is due: pick the one due closest to now.
    assert_eq!(model.next_word(NOW, &basic_word_list()), "谢谢");
}

#[test]
fn test_next_word_mixed_scenarios_prioritizes_due_over_unseen() {
    let mut model = UserModel::new();
    model.set_target_date("你好", NOW - 2 * HOUR);
    model.set_target_date("谢谢", NOW + 5 * HOUR);

    // "你好" should be prioritized because it is due for review.
    assert_eq!(model.next_word(NOW, &basic_word_list()), basic_word_list()[0]);
}

#[test]
fn test_next_word_mixed_scenarios_prioritizes_unseen_over_future() {
    let mut model = UserModel::new();
    model.set_target_date("你好", NOW + 5 * HOUR);
    model.set_target_date("谢谢", NOW + 3 * HOUR);

    // No word is due, so the first unseen word wins.
    assert_eq!(model.next_word(NOW, &basic_word_list()), basic_word_list()[2]);
}

#[test]
fn test_next_word_all_words_seen_no_unseen() {
    let word_list = vec!["你好".to_string(), "谢谢".to_string()];

    let mut model = UserModel::new();
    model.set_target_date("你好", NOW + 5 * HOUR);
    model.set_target_date("谢谢", NOW + 3 * HOUR);

    assert_eq!(model.next_word(NOW, &word_list), "谢谢");
}

#[test]
fn test_next_word_exact_timing_edge_cases() {
    let mut model = UserModel::new();
    model.set_target_date("你好", NOW - SECOND);
    model.set_target_date("谢谢", NOW - 2 * SECOND);

    // Both are due, but "你好" became due closer to now.
    assert_eq!(model.next_word(NOW, &basic_word_list()), "你好");
}

#[test]
fn test_set_target_date() {
    let mut model = UserModel::new();

    let target_date = NOW - 2 * HOUR;
    model.set_target_date("你好", target_date);
    let proficiency = model.proficiency("你好").unwrap();
    assert_eq!(proficiency.target_date, target_date);

    let future_target_date = NOW + 3 * HOUR;
    model.set_target_date("谢谢", future_target_date);
    let proficiency2 = model.proficiency("谢谢").unwrap();
    assert_eq!(proficiency2.target_date, future_target_date);

    let word_list = vec!["你好".to_string(), "谢谢".to_string()];
    // "你好" should be prioritized because it is due.
    assert_eq!(model.next_word(NOW, &word_list), "你好");
}

#[test]
fn test_next_word_with_single_word_list() {
    assert_eq!(UserModel::new().next_word(NOW, &vec!["你好".to_string()]), "你好");
}

#[test]
fn next_word_prefers_smaller_overdue_gap() {
    let word_list = vec!["你好".to_string(), "谢谢".to_string()];
    let mut model = UserModel::new();
    model.set_target_date("谢谢", NOW - 2 * HOUR);
    model.set_target_date("你好", NOW - 3 * HOUR);
    assert_eq!(model.next_word(NOW, &word_list), "谢谢");
}

#[test]
fn test_next_exercise_empty_exercises_returns_none() {
    let exercises: Vec<Exercise> = Vec::new();
    assert_eq!(
        UserModel::new().next_exercise(
            NOW,
            &exercises,
            &vec!["你好".to_string(), "谢谢".to_string()],
            "你好"
        ),
        None
    );
}

#[test]
fn test_next_exercise_no_exercise_contains_target_word_returns_none() {
    let exercises = vec![wo_xihuan_chi_jiaozi_exercise(), wo_shi_xuesheng_exercise()];
    let word_list = vec!["你好".to_string(), "谢谢".to_string()];

    assert_eq!(UserModel::new().next_exercise(NOW, &exercises, &word_list, "你好"), None);
}

#[test]
fn test_next_exercise_prioritizes_least_words_not_in_list() {
    // Both exercises contain the target word "我".
    // The second exercise has fewer total words but more words outside the
    // word list; the first has fewer words outside the list.
    let mut exercises = vec![wo_xihuan_chi_jiaozi_exercise(), wo_shi_xuesheng_exercise()];
    let word_list = vec!["我".to_string(), "喜欢".to_string(), "吃".to_string()];

    let result = UserModel::new().next_exercise(NOW, &exercises, &word_list, "我").unwrap();
    assert_eq!(result, exercises[0]);

    // The order of the exercises should not matter.
    exercises.swap(0, 1);
    let result = UserModel::new().next_exercise(NOW, &exercises, &word_list, "我").unwrap();
    assert_eq!(result, exercises[1]);
}

#[test]
fn test_next_exercise_ignores_seen_future_words() {
    let exercises = vec![wo_xihuan_chi_jiaozi_exercise(), wo_shi_xuesheng_exercise()];
    let word_list = vec!["我".to_string(), "喜欢".to_string(), "吃".to_string()];

    let mut model = UserModel::new();
    model.set_target_date("是", NOW + 2 * HOUR);
    model.set_target_date("学生", NOW + 2 * HOUR);

    let result = model.next_exercise(NOW, &exercises, &word_list, "我").unwrap();
    assert_eq!(result, exercises[1]);
}

#[test]
fn test_next_exercise_doesnt_ignore_seen_past_words() {
    let exercises = vec![wo_xihuan_chi_jiaozi_exercise(), wo_shi_xuesheng_exercise()];
    let word_list = vec!["我".to_string(), "喜欢".to_string(), "吃".to_string()];

    let mut model = UserModel::new();
    model.set_target_date("是", NOW - 2 * HOUR);
    model.set_target_date("学生", NOW - 2 * HOUR);

    let result = model.next_exercise(NOW, &exercises, &word_list, "我").unwrap();
    assert_eq!(result, exercises[0]);
}

#[test]
fn test_score_exercise_1() {
    let word_list = vec!["我".to_string(), "喜欢".to_string(), "吃".to_string()];

    let mut model = UserModel::new();
    model.set_target_date("我", NOW - 2 * HOUR);
    model.set_target_date("喜欢", NOW - 2 * HOUR);

    let score = model.score_exercise(NOW, &wo_xihuan_chi_jiaozi_exercise(), &word_list);

    assert_eq!(score.future_words_count, 0);
    assert_eq!(score.words_in_list, 3); // 我, 喜欢, 吃
    assert_eq!(score.words_not_in_list, 1); // 饺子

    model.set_target_date("我", NOW + 2 * HOUR);
    model.set_target_date("喜欢", NOW + 2 * HOUR);

    let score = model.score_exercise(NOW, &wo_xihuan_chi_jiaozi_exercise(), &word_list);

    assert_eq!(score.future_words_count, 2);
    assert_eq!(score.words_in_list, 1);
    assert_eq!(score.words_not_in_list, 1);
}

#[test]
fn score_record_without_memory() {
    let word_list = vec!["我".to_string(), "喜欢".to_string(), "吃".to_string()];
    let score = UserModel::new().score_exercise(NOW, &wo_xihuan_chi_jiaozi_exercise(), &word_list);
    assert_eq!(score.words_in_list, 3);
    assert_eq!(score.words_not_in_list, 1);
    assert_eq!(score.future_words_count, 0);
    assert_eq!(score.words_not_seen, 4);
    assert_eq!(score.last_seen_date, None);
}

#[test]
fn score_uses_last_presented_time() {
    let word_list = vec!["我".to_string()];
    let mut model = UserModel::new();
    let record = wo_shi_xuesheng_exercise();
    model.mark_seen(&record, NOW - HOUR);
    model.mark_seen(&record, NOW);
    let score = model.score_exercise(NOW, &record, &word_list);
    assert_eq!(score.last_seen_date, Some(NOW));
}

#[test]
fn memory_success_before_due_grows_by_two_percent() {
    let mut p = Proficiency { target_date: NOW + HOUR, memory_strength: 5_000 };
    p.success(NOW);
    assert_eq!(p.memory_strength, 5_100);
    assert_eq!(p.target_date, NOW + 5_100);
}

#[test]
fn memory_success_at_or_after_due_grows_five_fold() {
    let mut p = Proficiency::init(NOW - HOUR);
    p.success(NOW);
    assert_eq!(p.memory_strength, 25_000);
    assert_eq!(p.target_date, NOW + 25_000);
}

#[test]
fn memory_fail_resets_to_five_seconds() {
    let mut p = Proficiency { target_date: NOW + HOUR, memory_strength: 123_456 };
    p.fail(NOW);
    assert_eq!(p.memory_strength, 5_000);
    assert_eq!(p.target_date, NOW + 5_000);
}

#[test]
fn record_success_initializes_fresh_words() {
    let mut model = UserModel::new();
    assert!(!model.seen("你好"));
    model.record_success("你好", NOW);
    // A fresh word starts due at once with five seconds of strength, so the
    // first success is a true spaced recall: five-fold growth.
    let p = model.proficiency("你好").unwrap();
    assert_eq!(p.memory_strength, 25_000);
    assert_eq!(p.target_date, NOW + 25_000);
    assert!(model.seen("你好"));
}

#[test]
fn record_fail_resets_existing_words() {
    let mut model = UserModel::new();
    model.record_success("你好", NOW - HOUR);
    model.record_fail("你好", NOW);
    let p = model.proficiency("你好").unwrap();
    assert_eq!(p.memory_strength, 5_000);
    assert_eq!(p.target_date, NOW + 5_000);
}

#[test]
fn status_counts_words_and_sentences() {
    let word_list = vec!["我".to_string(), "喜欢".to_string(), "吃".to_string()];
    let exercises = vec![wo_xihuan_chi_jiaozi_exercise(), wo_shi_xuesheng_exercise()];

    let mut model = UserModel::new();
    model.set_target_date("我", NOW + 2 * HOUR);
    model.set_target_date("喜欢", NOW - 2 * HOUR);
    model.set_target_date("是", NOW + HOUR);
    model.set_target_date("学生", NOW + HOUR);
    model.mark_seen(&wo_shi_xuesheng_exercise(), NOW - HOUR);

    let status = model.status(&exercises, &word_list, NOW);
    assert_eq!(status.total_words, 3);
    assert_eq!(status.known_words, 1); // 我
    assert_eq!(status.words_to_review, 1); // 喜欢
    // 我是学生。 contains the list word 我 and every word has a record.
    assert_eq!(status.unlocked_sentences, 1);
    assert_eq!(status.seen_sentences, 1);
}
