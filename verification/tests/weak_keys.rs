use typerlude::app::adaptive::adaptive_candidates;
use typerlude::content::{ContentCatalog, ContentItem, ContentKind, ContentPack, SourceMeta};
use typerlude::model::{Language, PracticeKind};
use typerlude::stats::{has_key_attempts, weak_keys, KeyCount, SessionEntry};

fn source() -> SourceMeta {
    SourceMeta {
        author: "Typerlude contributors".into(),
        source_id: "stats-fixture".into(),
        source_url: "https://github.com/baba9811/typerlude".into(),
        license: "CC0-1.0".into(),
        license_url: "https://creativecommons.org/publicdomain/zero/1.0/".into(),
        modified: false,
        retrieved_at: "2026-08-07".into(),
    }
}

fn item(id: &str, kind: ContentKind, text: &str) -> ContentItem {
    ContentItem {
        id: id.into(),
        kind,
        text: text.into(),
        difficulty: if kind == ContentKind::Word { Some(1) } else { None },
        tags: Vec::new(),
        title: None,
        source: None,
    }
}

fn adaptive_catalog() -> ContentCatalog {
    let mut catalog = ContentCatalog::new();
    let english = ContentPack {
        schema_version: 1,
        id: "stats-fixture-en".into(),
        title: "Stats fixture English".into(),
        language: Language::En,
        source: source(),
        items: vec![
            item("fixture-repeat", ContentKind::Word, "☃☃☃"),
            item("fixture-tie-a", ContentKind::Word, "☃a"),
            item("fixture-tie-b", ContentKind::Word, "b☃"),
            item("fixture-tie-c", ContentKind::Sentence, "See ☃."),
            item("fixture-star", ContentKind::Word, "★"),
            item("fixture-umbrella", ContentKind::Word, "☂"),
            item("fixture-yin", ContentKind::Word, "☯"),
            item("fixture-plain", ContentKind::Word, "plain"),
            item("fixture-quote", ContentKind::Quote, "☃ quoted"),
        ],
    };
    assert!(catalog.validate_candidate(&english).is_empty());
    catalog.insert(english);
    let korean = ContentPack {
        schema_version: 1,
        id: "stats-fixture-ko".into(),
        title: "Stats fixture Korean".into(),
        language: Language::Ko,
        source: source(),
        items: vec![
            item("fixture-ko-snow", ContentKind::Word, "눈☃"),
            item("fixture-ko-plain", ContentKind::Word, "연습"),
        ],
    };
    assert!(catalog.validate_candidate(&korean).is_empty());
    catalog.insert(korean);
    catalog
}

fn key_session(language: Language, counts: Vec<(char, u64, u64)>) -> SessionEntry {
    SessionEntry {
        schema_version: 1,
        id: "keys".into(),
        started_at_unix_ms: 0,
        local_date: 0,
        language,
        mode: PracticeKind::Words,
        content_id: "fixture".into(),
        difficulty: Some(1),
        duration_ms: 60_000,
        correct_units: 9,
        attempted_units: 10,
        errors: 1,
        backspaces: 0,
        intended_keys: counts
            .into_iter()
            .map(|(key, correct, errors)| KeyCount { key, correct, errors })
            .collect(),
    }
}

fn ids(catalog: &ContentCatalog, sessions: &[SessionEntry], seed: u64) -> Vec<String> {
    adaptive_candidates(catalog, sessions, Language::En, seed)
        .into_iter()
        .map(|item| item.id.clone())
        .collect()
}

#[test]
fn weak_keys_require_attempts_and_sort_accuracy_then_key() {
    let counts: Vec<KeyCount> = [('p', 10, 0), ('q', 1, 1), ('x', 8, 2), ('y', 4, 1), ('z', 2, 8)]
        .into_iter()
        .map(|(key, correct, errors)| KeyCount { key, correct, errors })
        .collect();
    let weak = weak_keys(&counts, 5);
    assert!(has_key_attempts(&counts, 5));
    assert_eq!(weak.iter().map(|value| value.key).collect::<Vec<_>>(), ['z', 'x', 'y']);
    assert_eq!((weak[0].correct, weak[0].errors), (2, 8));
    assert_eq!(weak[0].correct as f64 / (weak[0].correct + weak[0].errors) as f64 * 100.0, 20.0);
    assert!(weak_keys(&[KeyCount { key: '0', correct: 0, errors: 0 }], 0).is_empty());
}

#[test]
fn adaptive_scoring_counts_repeated_keys_and_seed_shuffles_only_equal_scores() {
    let catalog = adaptive_catalog();
    let sessions = [key_session(Language::En, vec![('☃', 0, 10)])];
    let first = ids(&catalog, &sessions, 11);
    let again = ids(&catalog, &sessions, 11);
    assert_eq!(first[0], "fixture-repeat");
    let mut rest = first[1..].to_vec();
    rest.sort();
    assert_eq!(rest, ["fixture-tie-a", "fixture-tie-b", "fixture-tie-c"]);
    assert_eq!(first, again);
    assert!((0..16u64).any(|seed| ids(&catalog, &sessions, seed) != first));
}

#[test]
fn adaptive_selection_uses_only_three_weakest_sufficiently_sampled_keys() {
    let catalog = adaptive_catalog();
    let sessions = [key_session(
        Language::En,
        vec![('★', 1, 9), ('☂', 2, 8), ('☃', 0, 10), ('☯', 3, 7)],
    )];
    let mut sorted = sessions[0].intended_keys.clone();
    sorted.sort_by_key(|k| k.key);
    let sessions = [SessionEntry { intended_keys: sorted, ..sessions[0].clone() }];
    let candidates = adaptive_candidates(&catalog, &sessions, Language::En, 9);
    assert!(candidates.iter().any(|item| item.id == "fixture-star"));
    assert!(candidates.iter().any(|item| item.id == "fixture-umbrella"));
    assert!(!candidates.iter().any(|item| item.id == "fixture-yin"));
    assert!(candidates.iter().all(|item| {
        item.language == Language::En && matches!(item.kind, ContentKind::Word | ContentKind::Sentence)
    }));
}

#[test]
fn adaptive_history_is_language_isolated() {
    let catalog = adaptive_catalog();
    let sessions = [key_session(Language::Ko, vec![('☃', 0, 10)])];
    let ordinary_count = catalog
        .items()
        .iter()
        .filter(|item| {
            item.language == Language::En && matches!(item.kind, ContentKind::Word | ContentKind::Sentence)
        })
        .count();
    let candidates = adaptive_candidates(&catalog, &sessions, Language::En, 7);
    assert_eq!(candidates.len(), ordinary_count);
    assert!(candidates.iter().all(|item| item.language == Language::En));
}

#[test]
fn no_weak_key_falls_back_to_seeded_ordinary_language_candidates() {
    let catalog = adaptive_catalog();
    let sessions = [key_session(Language::En, vec![('☃', 0, 9)])];
    let expected_count = catalog
        .items()
        .iter()
        .filter(|item| {
            item.language == Language::En && matches!(item.kind, ContentKind::Word | ContentKind::Sentence)
        })
        .count();
    let first = adaptive_candidates(&catalog, &sessions, Language::En, 21);
    assert_eq!(first.len(), expected_count);
    assert!(first.iter().all(|item| {
        item.language == Language::En && matches!(item.kind, ContentKind::Word | ContentKind::Sentence)
    }));
    assert_eq!(ids(&catalog, &sessions, 21), ids(&catalog, &sessions, 21));
    assert_ne!(ids(&catalog, &sessions, 21), ids(&catalog, &sessions, 22));
}
