use shellsuggest::plugin::{Score, SuggestionCandidate, SuggestionKind};
use shellsuggest::ranking::{
    apply_dangerous_filter, cwd_similarity, expects_directory, expects_file, extract_command,
    extract_current_token, frequency, is_dangerous, path_exists_score, path_to_check,
    prefix_exactness, recency, PathKind, Recency, Share, CWD_SIMILARITY_WEIGHT,
    DANGEROUS_THRESHOLD_BITS, FREQUENCY_WEIGHT, PATH_EXISTS_WEIGHT, PREFIX_EXACTNESS_WEIGHT,
    RECENCY_WEIGHT, SUCCESS_WEIGHT, TRANSITION_WEIGHT,
};

fn value(share: Share) -> f32 {
    share.part as f32 / share.whole as f32
}

fn recency_value(recency: Recency) -> f32 {
    match recency {
        Recency::Unknown => 0.0,
        Recency::Fresh => 1.0,
        Recency::Aged { age_ms } => {
            let half_life_ms: f64 = 24.0 * 60.0 * 60.0 * 1000.0;
            (-0.693 * age_ms as f64 / half_life_ms).exp() as f32
        }
    }
}

fn candidate(text: &str, score: f32) -> SuggestionCandidate {
    SuggestionCandidate {
        text: text.into(),
        source: "history".into(),
        score: Score {
            bits: score.to_bits(),
            text: score.to_string(),
        },
        kind: SuggestionKind::Command,
    }
}

#[test]
fn test_score_weights_sum_to_one() {
    let weights = PREFIX_EXACTNESS_WEIGHT
        + CWD_SIMILARITY_WEIGHT
        + PATH_EXISTS_WEIGHT
        + RECENCY_WEIGHT
        + FREQUENCY_WEIGHT
        + TRANSITION_WEIGHT
        + SUCCESS_WEIGHT;
    let score = weights as f32 / 100.0;
    assert!(
        (score - 1.0).abs() < 0.001,
        "weights should sum to 1.0, got {score}"
    );
}

#[test]
fn test_prefix_exactness() {
    let exactness = |candidate: &str, typed: &str| value(prefix_exactness(candidate, typed));
    assert!(exactness("cd src", "cd s") > 0.0);
    assert_eq!(exactness("cd src", "cd xr"), 0.0);
    assert!(exactness("cd src", "cd src") > exactness("cd src", "cd s"));
    assert_eq!(exactness("anything", ""), 0.0);
}

#[test]
fn test_cwd_similarity() {
    let similarity = |a: &str, b: &str| value(cwd_similarity(a, b));
    assert_eq!(similarity("/project/src", "/project/src"), 1.0);
    assert_eq!(similarity("/project", "/project/src"), 0.5);
    assert_eq!(similarity("/project/src", "/project"), 0.5);
    assert_eq!(similarity("/other", "/project"), 0.0);
}

#[test]
fn test_recency_decay() {
    let now = 1_000_000_000u64;
    let recency = |then: u64, now: u64| recency_value(recency(then, now));
    assert_eq!(recency(now, now), 1.0);
    assert!(recency(now - 1000, now) > recency(now - 100_000, now));
    let day_ms = 24 * 60 * 60 * 1000;
    let score = recency(now - day_ms, now + day_ms);
    assert!(score < 0.6 && score > 0.1);
}

#[test]
fn test_frequency_capped() {
    let frequency = |count: u64| value(frequency(count));
    assert_eq!(frequency(0), 0.0);
    assert_eq!(frequency(50), 0.5);
    assert_eq!(frequency(100), 1.0);
    assert_eq!(frequency(200), 1.0);
}

#[test]
fn test_extract_command() {
    assert_eq!(extract_command("cd src"), Some("cd"));
    assert_eq!(extract_command("vim"), Some("vim"));
    assert_eq!(extract_command(""), None);
}

#[test]
fn test_path_exists_score_skips_non_path_commands() {
    assert_eq!(path_to_check("make test", "/tmp", None), None);
    let score = path_exists_score("make test", "/tmp", None, Some(PathKind::File));
    assert_eq!(value(score), 0.0);
}

#[test]
fn test_dangerous_filter() {
    let mut candidates = vec![
        candidate("rm -rf /tmp/old", 0.3),
        candidate("cd src", 0.3),
        candidate("rm old.txt", 0.7),
    ];
    apply_dangerous_filter(&mut candidates);
    assert_eq!(candidates.len(), 2);
    assert_eq!(candidates[0].text, "cd src");
    assert_eq!(candidates[1].text, "rm old.txt");
}

#[test]
fn test_command_type_detection() {
    assert!(expects_directory("cd"));
    assert!(!expects_directory("vim"));
    assert!(expects_file("vim"));
    assert!(expects_file("cat"));
    assert!(!expects_file("cd"));
    assert!(is_dangerous("rm"));
    assert!(!is_dangerous("ls"));
}

#[test]
fn threshold_is_six_tenths() {
    assert_eq!(DANGEROUS_THRESHOLD_BITS, 0.6f32.to_bits());
    let mut at_threshold = vec![candidate("mv a b", 0.6)];
    apply_dangerous_filter(&mut at_threshold);
    assert_eq!(at_threshold.len(), 1);
}

#[test]
fn scores_below_zero_are_below_the_threshold() {
    let mut candidates = vec![
        candidate("rm a", -1.0),
        candidate("cp a b", f32::NEG_INFINITY),
        candidate("mv a b", -0.0),
        candidate("rm b", f32::INFINITY),
        candidate("rm c", f32::NAN),
        candidate("rm d", -f32::NAN),
        candidate("ls", -1.0),
    ];
    let expected: Vec<String> = candidates
        .iter()
        .filter(|c| c.text == "ls" || !(f32::from_bits(c.score.bits) < 0.6))
        .map(|c| c.text.clone())
        .collect();
    apply_dangerous_filter(&mut candidates);
    let kept: Vec<String> = candidates.into_iter().map(|c| c.text).collect();
    assert_eq!(kept, expected);
    assert_eq!(kept, vec!["rm b", "rm c", "rm d", "ls"]);
}

#[test]
fn words_are_found_between_any_white_space() {
    assert_eq!(extract_command("  git\u{3000}status "), Some("git"));
    assert_eq!(extract_current_token("git  checkout\tmain"), "main");
    assert_eq!(extract_current_token("vim né.txt "), "né.txt");
    assert_eq!(extract_current_token("   "), "");
}

#[test]
fn exactness_counts_bytes() {
    let share = prefix_exactness("né", "n");
    assert_eq!((share.part, share.whole), (1, 3));
}

#[test]
fn recency_is_an_age() {
    assert_eq!(recency(5, 3), Recency::Fresh);
    assert_eq!(recency(3, 5), Recency::Aged { age_ms: 2 });
}

#[test]
fn named_paths_are_resolved() {
    let home = Some("/home/me");
    assert_eq!(path_to_check("vim  a.txt ", "/p", home), Some("/p/a.txt".into()));
    assert_eq!(path_to_check("cat /etc/hosts", "/p", home), Some("/etc/hosts".into()));
    assert_eq!(path_to_check("cd ~/src", "/p", home), Some("/home/me/src".into()));
    assert_eq!(path_to_check("cd ~/src", "/p", None), None);
    assert_eq!(path_to_check("cd", "/p", home), None);
    assert_eq!(path_to_check("cd   ", "/p", home), None);
    assert_eq!(path_to_check(" cd src", "/p", home), None);
}

#[test]
fn what_stands_at_a_path_is_weighed() {
    let score = |line: &str, found| value(path_exists_score(line, "/p", None, found));
    assert_eq!(score("cd src", Some(PathKind::Directory)), 1.0);
    assert_eq!(score("cd src", Some(PathKind::File)), 0.3);
    assert_eq!(score("vim src", Some(PathKind::File)), 1.0);
    assert_eq!(score("vim src", Some(PathKind::Directory)), 0.3);
    assert_eq!(score("ls src", Some(PathKind::Other)), 0.3);
    assert_eq!(score("ls src", None), 0.0);
}
