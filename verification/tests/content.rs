use typerlude::content::{
    validate_builtin_typeability, validate_builtin_words, validate_pack, ContentCatalog,
    ContentItem, ContentKind, ContentPack, PackRead, SourceMeta,
};
use typerlude::app::summaries::{collect_content_packs, pack_listings};
use typerlude::cli::listing_line;
use typerlude::model::{Difficulty, Language};

fn fixture_source() -> SourceMeta {
    SourceMeta {
        author: "Example Author".into(),
        source_id: "example".into(),
        source_url: "https://example.com/source".into(),
        license: "CC-BY-4.0".into(),
        license_url: "https://creativecommons.org/licenses/by/4.0/".into(),
        modified: false,
        retrieved_at: "2026-08-07".into(),
    }
}

fn fixture_pack() -> ContentPack {
    ContentPack {
        schema_version: 1,
        id: "fixture".into(),
        title: "Fixture".into(),
        language: Language::En,
        source: fixture_source(),
        items: vec![ContentItem {
            id: "fixture-1".into(),
            kind: ContentKind::Word,
            text: "hello".into(),
            difficulty: Some(2),
            tags: Vec::new(),
            title: None,
            source: None,
        }],
    }
}

#[test]
fn tests_disallowed_or_incomplete_licenses_fail() {
    let mut pack = fixture_pack();
    pack.source.license = "CC-BY-NC-4.0".into();
    assert!(validate_pack(&pack)
        .iter()
        .any(|e| e.field == "source.license"));

    pack.source.license = "CC-BY-4.0".into();
    pack.source.author.clear();
    let error = validate_pack(&pack)
        .into_iter()
        .find(|e| e.field == "source.author")
        .unwrap();
    assert_eq!(error.pack_id, "fixture");
    assert_eq!(error.item_id, None);
    assert!(!error.message.is_empty());
}

#[test]
fn tests_schema_version_and_exact_license_allowlist_are_enforced() {
    let mut pack = fixture_pack();
    pack.schema_version = 2;
    assert!(validate_pack(&pack)
        .iter()
        .any(|error| error.field == "schema_version"));

    pack.schema_version = 1;
    for license in [
        "CC0-1.0",
        "CC-BY-2.0-FR",
        "CC-BY-4.0",
        "CC-BY-SA-4.0",
        "KOGL-0",
        "KOGL-1.0",
        "LicenseRef-Public-Domain",
    ] {
        pack.source.license = license.into();
        assert!(validate_pack(&pack).is_empty(), "{license}");
    }
}

#[test]
fn tests_invalid_items_report_stable_fields_and_normalized_duplicates() {
    let mut pack = fixture_pack();
    let mut duplicate = pack.items[0].clone();
    duplicate.id = "fixture-1".into();
    duplicate.text = "he\u{301}llo".into();
    duplicate.difficulty = Some(4);
    pack.items.push(duplicate);

    let errors = validate_pack(&pack);
    assert!(errors
        .iter()
        .any(|e| e.item_id.as_deref() == Some("fixture-1") && e.field == "id"));
    assert!(errors
        .iter()
        .any(|e| e.field == "text" && e.message.contains("NFC")));
    assert!(errors.iter().any(|e| e.field == "difficulty"));

    pack.items[1].text = "hello".into();
    assert!(validate_pack(&pack)
        .iter()
        .any(|e| e.field == "text" && e.message.contains("duplicate")));
}

#[test]
fn tests_controls_empty_values_and_consecutive_newlines_fail() {
    let mut pack = fixture_pack();
    pack.id.clear();
    pack.items[0].id.clear();
    pack.items[0].text = "bad\ttext".into();
    pack.source.source_url.clear();
    pack.source.license_url.clear();
    let errors = validate_pack(&pack);
    assert!(errors
        .iter()
        .any(|e| e.field == "id" && e.item_id.is_none()));
    assert!(errors
        .iter()
        .any(|e| e.field == "id" && e.item_id.as_deref() == Some("")));
    assert!(errors
        .iter()
        .any(|e| e.field == "text" && e.message.contains("control")));
    assert!(errors.iter().any(|e| e.field == "source.source_url"));
    assert!(errors.iter().any(|e| e.field == "source.license_url"));
    assert!(validate_pack(&fixture_pack()).is_empty());

    let mut newline = fixture_pack();
    newline.items[0].text = "line one\nline two".into();
    assert!(validate_pack(&newline).is_empty());

    let mut consecutive_newlines = fixture_pack();
    consecutive_newlines.items[0].text = "line one\n\nline two".into();
    assert!(validate_pack(&consecutive_newlines).iter().any(|error| {
        error.field == "text" && error.message.contains("consecutive newlines")
    }));
}

#[test]
fn tests_source_metadata_has_a_bounded_terminal_width() {
    let mut pack = fixture_pack();
    pack.source.author = "x".repeat(400);

    assert!(validate_pack(&pack)
        .iter()
        .any(|error| error.field == "source" && error.message.contains("320")));
}

#[test]
fn tests_zero_width_source_metadata_has_a_bounded_byte_length() {
    let mut pack = fixture_pack();
    pack.source.author = "\u{301}".repeat(600);

    assert!(validate_pack(&pack).iter().any(|error| {
        error.field == "source.author" && error.message.contains("1024 bytes")
    }));
}

#[test]
fn tests_removing_a_pack_reconciles_every_catalog_index() {
    let pack = fixture_pack();
    let mut catalog = ContentCatalog::default();
    catalog.insert(pack.clone());
    assert!(catalog.contains_pack("fixture"));

    catalog.remove_pack("fixture");

    assert!(!catalog.contains_pack("fixture"));
    assert!(catalog.items().iter().all(|item| item.pack_id != "fixture"));
    assert!(catalog.pack_source("fixture").is_none());
    assert!(catalog.validate_candidate(&pack).is_empty());
}

#[test]
fn tests_every_terminal_visible_string_rejects_c0_and_c1_controls() {
    let cases = [
        ("pack.id", "id"),
        ("pack.title", "title"),
        ("item.id", "id"),
        ("item.text", "text"),
        ("item.title", "title"),
        ("item.tags.0", "tags"),
        ("item.tags.1", "tags"),
        ("pack.source.author", "source.author"),
        ("pack.source.source_id", "source.source_id"),
        ("pack.source.source_url", "source.source_url"),
        ("pack.source.license", "source.license"),
        ("pack.source.license_url", "source.license_url"),
        ("pack.source.retrieved_at", "source.retrieved_at"),
        ("item.source.author", "source.author"),
        ("item.source.source_id", "source.source_id"),
        ("item.source.source_url", "source.source_url"),
        ("item.source.license", "source.license"),
        ("item.source.license_url", "source.license_url"),
        ("item.source.retrieved_at", "source.retrieved_at"),
    ];

    for control in ['\u{1b}', '\u{9b}'] {
        for (case, expected_field) in cases {
            let mut pack = fixture_pack();
            pack.items[0].title = Some("Item title".into());
            pack.items[0].tags = vec!["first".into(), "second".into()];
            pack.items[0].source = Some(pack.source.clone());
            let value = format!("safe{control}value");
            match case {
                "pack.id" => pack.id = value,
                "pack.title" => pack.title = value,
                "item.id" => pack.items[0].id = value,
                "item.text" => pack.items[0].text = value,
                "item.title" => pack.items[0].title = Some(value),
                "item.tags.0" => pack.items[0].tags[0] = value,
                "item.tags.1" => pack.items[0].tags[1] = value,
                "pack.source.author" => pack.source.author = value,
                "pack.source.source_id" => pack.source.source_id = value,
                "pack.source.source_url" => pack.source.source_url = value,
                "pack.source.license" => pack.source.license = value,
                "pack.source.license_url" => pack.source.license_url = value,
                "pack.source.retrieved_at" => pack.source.retrieved_at = value,
                "item.source.author" => pack.items[0].source.as_mut().unwrap().author = value,
                "item.source.source_id" => {
                    pack.items[0].source.as_mut().unwrap().source_id = value;
                }
                "item.source.source_url" => {
                    pack.items[0].source.as_mut().unwrap().source_url = value;
                }
                "item.source.license" => {
                    pack.items[0].source.as_mut().unwrap().license = value;
                }
                "item.source.license_url" => {
                    pack.items[0].source.as_mut().unwrap().license_url = value;
                }
                "item.source.retrieved_at" => {
                    pack.items[0].source.as_mut().unwrap().retrieved_at = value;
                }
                _ => unreachable!(),
            }

            let errors = validate_pack(&pack);
            assert!(
                errors.iter().any(|error| {
                    error.field == expected_field && error.message.contains("control")
                }),
                "{case} did not reject U+{:04X}: {errors:?}",
                control as u32
            );
        }
    }

    let mut newline = fixture_pack();
    newline.items[0].text = "line one\nline two".into();
    assert!(validate_pack(&newline).is_empty());
}

#[test]
fn tests_item_source_is_complete_override_and_user_words_resolve_difficulty() {
    let pack = ContentPack {
        schema_version: 1,
        id: "fallback".into(),
        title: "Fallback".into(),
        language: Language::Ko,
        source: SourceMeta {
            author: "Pack Author".into(),
            source_id: "pack-source".into(),
            source_url: "https://example.com/pack".into(),
            license: "CC-BY-4.0".into(),
            license_url: "https://creativecommons.org/licenses/by/4.0/".into(),
            modified: false,
            retrieved_at: "2026-08-07".into(),
        },
        items: vec![ContentItem {
            id: "short".into(),
            kind: ContentKind::Word,
            text: "한글".into(),
            difficulty: None,
            tags: Vec::new(),
            title: None,
            source: Some(SourceMeta {
                author: "Item Author".into(),
                source_id: "item-source".into(),
                source_url: "https://example.com/item".into(),
                license: "KOGL-1.0".into(),
                license_url: "https://www.kogl.or.kr/info/licenseType1.do".into(),
                modified: true,
                retrieved_at: "2026-08-06".into(),
            }),
        }],
    };

    let item = pack.resolve_items().unwrap().remove(0);
    assert_eq!(item.difficulty, Some(1));
    assert_eq!(item.source.author, "Item Author");
    assert_eq!(item.source.source_id, "item-source");
    assert_eq!(item.source.retrieved_at, "2026-08-06");
}

#[test]
fn tests_language_specific_word_thresholds_and_non_words_are_resolved_once() {
    let mut pack = fixture_pack();
    pack.items[0].difficulty = None;
    pack.items[0].text = "ninechars".into();
    let item = pack.resolve_items().unwrap().remove(0);
    assert_eq!(item.difficulty, Some(3));

    pack.items[0].kind = ContentKind::Sentence;
    let item = pack.resolve_items().unwrap().remove(0);
    assert_eq!(item.difficulty, None);
}

#[test]
fn tests_every_word_fallback_boundary_is_grapheme_based() {
    let mut pack = fixture_pack();
    pack.items[0].difficulty = None;
    for (language, text, expected) in [
        (Language::Ko, "한글", 1),
        (Language::Ko, "타자연습", 2),
        (Language::Ko, "정확한타자", 3),
        (Language::En, "type", 1),
        (Language::En, "practice", 2),
        (Language::En, "keystrokes", 3),
    ] {
        pack.language = language;
        pack.items[0].text = text.into();
        assert_eq!(
            pack.resolve_items().unwrap()[0].difficulty,
            Some(expected),
            "{language:?} {text}"
        );
    }
}

#[test]
fn tests_built_in_words_must_declare_difficulty() {
    let mut pack = fixture_pack();
    pack.items[0].difficulty = None;
    let error = validate_builtin_words(&pack).remove(0);
    assert_eq!(error.pack_id, "fixture");
    assert_eq!(error.item_id.as_deref(), Some("fixture-1"));
    assert_eq!(error.field, "difficulty");
}

#[test]
fn tests_built_in_practice_text_requires_direct_keyboard_characters() {
    let mut pack = fixture_pack();
    pack.items[0].text = "plain ASCII".into();
    assert!(validate_builtin_typeability(&pack).is_empty());

    pack.language = Language::Ko;
    pack.items[0].text = "한글과 ASCII 123!?\n다음 줄".into();
    assert!(validate_builtin_typeability(&pack).is_empty());

    for text in [
        "①항목",
        "봄·봄",
        "말줄임표…",
        "긴—대시",
        "곡선 ‘따옴표’",
        "한자 漢",
    ] {
        pack.items[0].text = text.into();
        let error = validate_builtin_typeability(&pack).remove(0);
        assert_eq!(error.item_id.as_deref(), Some("fixture-1"));
        assert_eq!(error.field, "text");
        assert!(error.message.contains("directly typable"));
    }
}

#[test]
fn tests_normalized_text_conflicts_are_scoped_by_language_and_kind() {
    let mut within_pack = fixture_pack();
    let mut cross_kind = within_pack.items[0].clone();
    cross_kind.id = "sentence-item".into();
    cross_kind.kind = ContentKind::Sentence;
    within_pack.items.push(cross_kind);
    assert!(!validate_pack(&within_pack)
        .iter()
        .any(|error| error.field == "text" && error.message.contains("duplicate")));

    let mut same_kind = within_pack.items[0].clone();
    same_kind.id = "word-item".into();
    within_pack.items.push(same_kind);
    assert!(validate_pack(&within_pack)
        .iter()
        .any(|error| error.item_id.as_deref() == Some("word-item")
            && error.field == "text"
            && error.message.contains("duplicate")));

    let base = fixture_pack();
    let mut catalog = ContentCatalog::default();
    catalog.insert(base.clone());

    let candidate =
        |pack_id: &str, item_id: &str, language: Language, kind: ContentKind, text: &str| {
            let mut pack = base.clone();
            pack.id = pack_id.into();
            pack.language = language;
            pack.items[0].id = item_id.into();
            pack.items[0].kind = kind;
            pack.items[0].text = text.into();
            pack
        };

    for allowed in [
        candidate(
            "other-language",
            "other-language-item",
            Language::Ko,
            ContentKind::Word,
            "hello",
        ),
        candidate(
            "other-kind",
            "other-kind-item",
            Language::En,
            ContentKind::Sentence,
            "hello",
        ),
    ] {
        assert!(
            !catalog
                .conflicts(&allowed)
                .iter()
                .any(|error| error.field == "items.text"),
            "{}",
            allowed.id
        );
    }

    let same_scope = candidate(
        "same-scope",
        "same-scope-item",
        Language::En,
        ContentKind::Word,
        "hello",
    );
    assert!(catalog
        .conflicts(&same_scope)
        .iter()
        .any(|error| error.field == "items.text"));

    let duplicate_item = candidate(
        "duplicate-item",
        "fixture-1",
        Language::Ko,
        ContentKind::Quote,
        "unique text",
    );
    assert!(catalog
        .conflicts(&duplicate_item)
        .iter()
        .any(|error| error.field == "items.id"));

    let duplicate_pack = candidate(
        "fixture",
        "unique-item",
        Language::Ko,
        ContentKind::Quote,
        "other unique text",
    );
    assert!(catalog
        .conflicts(&duplicate_pack)
        .iter()
        .any(|error| error.field == "id"));
}

#[test]
fn catalog_counts_and_selects_by_language_kind_and_difficulty() {
    let mut catalog = ContentCatalog::default();
    let mut pack = fixture_pack();
    let mut second = pack.items[0].clone();
    second.id = "fixture-2".into();
    second.text = "cat".into();
    second.difficulty = Some(1);
    pack.items.push(second);
    let mut sentence = pack.items[0].clone();
    sentence.id = "fixture-3".into();
    sentence.kind = ContentKind::Sentence;
    sentence.text = "A sentence.".into();
    pack.items.push(sentence);
    assert!(catalog.validate_candidate(&pack).is_empty());
    catalog.insert(pack);

    assert_eq!(catalog.count(Language::En, ContentKind::Word), 2);
    assert_eq!(catalog.count(Language::Ko, ContentKind::Word), 0);
    assert_eq!(
        catalog.count_any(Language::En, &[ContentKind::Sentence, ContentKind::Quote]),
        1
    );
    let easy = catalog.select(Language::En, ContentKind::Word, Difficulty::Easy);
    assert_eq!(easy.len(), 1);
    assert_eq!(easy[0].id, "fixture-2");
    assert_eq!(
        catalog
            .select(Language::En, ContentKind::Word, Difficulty::Mixed)
            .len(),
        2
    );
}

#[test]
fn a_user_pack_with_a_conflict_is_skipped_whole() {
    let mut catalog = ContentCatalog::default();
    catalog.insert(fixture_pack());
    let mut other = fixture_pack();
    other.id = "other-pack".into();
    other.items[0].text = "different".into();
    let errors = catalog.add_user_pack(other, std::path::PathBuf::from("other.toml"));
    assert!(errors
        .iter()
        .any(|e| e.pack_id == "other-pack" && e.field == "items.id"));
    assert_eq!(catalog.items().len(), 1);
    assert!(!catalog.contains_pack("other-pack"));

    let mut fresh = fixture_pack();
    fresh.id = "fresh-pack".into();
    fresh.items[0].id = "fresh-1".into();
    fresh.items[0].text = "fresh".into();
    let errors = catalog.add_user_pack(fresh, std::path::PathBuf::from("fresh.toml"));
    assert!(errors.is_empty());
    assert_eq!(
        catalog.active_user_path("fresh-pack"),
        Some(&std::path::PathBuf::from("fresh.toml"))
    );
    assert_eq!(catalog.items().len(), 2);
}

#[test]
fn builtin_catalog_stops_at_the_first_invalid_pack() {
    let mut word_without_difficulty = fixture_pack();
    word_without_difficulty.id = "second".into();
    word_without_difficulty.items[0].id = "second-1".into();
    word_without_difficulty.items[0].text = "world".into();
    word_without_difficulty.items[0].difficulty = None;
    let sources = vec![
        ("a.toml".to_string(), fixture_pack()),
        ("b.toml".to_string(), word_without_difficulty),
    ];
    let error = ContentCatalog::load_builtins(&sources).err().unwrap();
    assert_eq!(
        error,
        "invalid built-in pack b.toml: difficulty: built-in words must declare difficulty"
    );

    let catalog = ContentCatalog::load_builtins(&sources[..1].to_vec()).unwrap();
    assert_eq!(catalog.items().len(), 1);
}

#[test]
fn untypable_character_message_names_its_code_point() {
    let mut pack = fixture_pack();
    pack.items[0].text = "a…".into();
    let error = validate_builtin_typeability(&pack).remove(0);
    assert_eq!(
        error.message,
        "contains U+2026 …, which is not directly typable"
    );
    pack.items[0].text = "\u{7f}".into();
    let error = validate_builtin_typeability(&pack).remove(0);
    assert_eq!(
        error.message,
        "contains U+007F \u{7f}, which is not directly typable"
    );
}

#[test]
fn duplicate_text_message_names_the_earlier_item() {
    let mut pack = fixture_pack();
    let mut again = pack.items[0].clone();
    again.id = "fixture-2".into();
    pack.items.push(again);
    let errors = validate_pack(&pack);
    assert_eq!(errors.len(), 1);
    assert_eq!(errors[0].item_id.as_deref(), Some("fixture-2"));
    assert_eq!(
        errors[0].message,
        "duplicate normalized text from item fixture-1"
    );
}

#[test]
fn loading_user_packs_skips_conflicts_and_reports_unreadable_files() {
    let mut builtins = ContentCatalog::default();
    builtins.insert(fixture_pack());

    let mut user = fixture_pack();
    user.id = "user-pack".into();
    user.items[0].id = "user-word".into();
    user.items[0].text = "cat".into();
    user.items[0].difficulty = None;
    let mut conflict = fixture_pack();
    conflict.items.clear();
    let reads = vec![
        PackRead::Parsed { pack: user, path: std::path::PathBuf::from("a-valid.toml") },
        PackRead::Parsed { pack: conflict, path: std::path::PathBuf::from("b-conflict.toml") },
        PackRead::Unreadable {
            fallback_id: "broken".into(),
            message: "invalid content pack TOML".into(),
        },
    ];
    let loaded = ContentCatalog::load(builtins, reads);

    assert_eq!(loaded.catalog.count(Language::En, ContentKind::Word), 2);
    let easy = loaded.catalog.select(Language::En, ContentKind::Word, Difficulty::Easy);
    assert_eq!(easy.len(), 1);
    assert_eq!(easy[0].id, "user-word");
    assert_eq!(
        loaded.catalog.active_user_path("user-pack"),
        Some(&std::path::PathBuf::from("a-valid.toml"))
    );
    assert!(loaded.catalog.active_user_path("fixture").is_none());
    assert_eq!(loaded.warnings.len(), 3);
    assert_eq!(loaded.warnings[0].pack_id, "fixture");
    assert_eq!(loaded.warnings[0].field, "items");
    assert_eq!(loaded.warnings[1].pack_id, "fixture");
    assert_eq!(loaded.warnings[1].field, "id");
    assert_eq!(loaded.warnings[1].message, "duplicate pack ID");
    assert_eq!(loaded.warnings[2].pack_id, "broken");
    assert_eq!(loaded.warnings[2].item_id, None);
    assert_eq!(loaded.warnings[2].field, "file");
    assert_eq!(loaded.warnings[2].message, "invalid content pack TOML");
}

#[test]
fn content_screen_lists_enabled_and_valid_disabled_packs_by_id() {
    let mut catalog = ContentCatalog::default();
    let mut builtin = fixture_pack();
    builtin.id = "zeta".into();
    let mut sentence = builtin.items[0].clone();
    sentence.id = "zeta-2".into();
    sentence.kind = ContentKind::Sentence;
    sentence.text = "A sentence.".into();
    let mut item_source = fixture_source();
    item_source.license = "CC0-1.0".into();
    item_source.license_url = "https://creativecommons.org/publicdomain/zero/1.0/".into();
    sentence.source = Some(item_source.clone());
    builtin.items.push(sentence);
    catalog.insert(builtin);

    let mut user = fixture_pack();
    user.id = "mid".into();
    user.items[0].id = "mid-1".into();
    user.items[0].text = "user".into();
    assert!(catalog
        .add_user_pack(user, std::path::PathBuf::from("mid.toml"))
        .is_empty());

    let mut disabled = fixture_pack();
    disabled.id = "alpha".into();
    disabled.items[0].id = "alpha-1".into();
    let mut invalid = fixture_pack();
    invalid.id = "beta".into();
    invalid.schema_version = 2;
    let mut shadowed = fixture_pack();
    shadowed.id = "mid".into();

    let packs = collect_content_packs(&catalog, vec![disabled, invalid, shadowed]);
    let ids = packs.iter().map(|pack| pack.id.as_str()).collect::<Vec<_>>();
    assert_eq!(ids, ["alpha", "mid", "zeta"]);

    let alpha = &packs[0];
    assert!(!alpha.enabled && !alpha.built_in);
    assert_eq!(alpha.items, 1);
    assert_eq!(alpha.sample_item_id, "alpha-1");
    assert_eq!(alpha.provenance.len(), 2);
    assert_eq!(alpha.provenance[0].item_id.as_deref(), Some("alpha-1"));
    assert_eq!(alpha.provenance[1].item_id, None);

    let mid = &packs[1];
    assert!(mid.enabled && !mid.built_in);
    assert_eq!(mid.items, 1);

    let zeta = &packs[2];
    assert!(zeta.enabled && zeta.built_in);
    assert_eq!(zeta.items, 2);
    assert_eq!(zeta.licenses, ["CC-BY-4.0", "CC0-1.0"]);
    assert_eq!(zeta.kinds, [ContentKind::Word, ContentKind::Sentence]);
    assert_eq!(zeta.provenance.len(), 3);
    assert_eq!(zeta.provenance[0].item_id.as_deref(), Some("fixture-1"));
    assert_eq!(zeta.provenance[1].item_id.as_deref(), Some("zeta-2"));
    assert_eq!(zeta.provenance[1].source, item_source);
    assert_eq!(zeta.provenance[2].item_id, None);
}

#[test]
fn content_list_shows_each_enabled_pack_with_sorted_licenses_and_sources() {
    let mut catalog = ContentCatalog::default();
    let mut pack = fixture_pack();
    pack.id = "words".into();
    let mut second = pack.items[0].clone();
    second.id = "words-2".into();
    second.text = "cat".into();
    let mut other = fixture_source();
    other.license = "CC0-1.0".into();
    other.source_url = "https://a.example/other".into();
    second.source = Some(other);
    pack.items.push(second);
    catalog.insert(pack);
    let mut ko = fixture_pack();
    ko.id = "ko-words".into();
    ko.language = Language::Ko;
    ko.items[0].id = "ko-1".into();
    ko.items[0].text = "가".into();
    catalog.insert(ko);

    let listings = pack_listings(&catalog);
    assert_eq!(listings.len(), 2);
    assert_eq!(
        listing_line(&listings[0]),
        "ko-words\tlanguage=ko\titems=1\tlicense=CC-BY-4.0\tsource=https://example.com/source"
    );
    assert_eq!(
        listing_line(&listings[1]),
        "words\tlanguage=en\titems=2\tlicense=CC-BY-4.0,CC0-1.0\tsource=https://a.example/other,https://example.com/source"
    );
}

#[test]
fn content_disallowed_or_incomplete_licenses_fail() {
    let mut pack = fixture_pack();
    pack.source.license = "CC-BY-NC-4.0".into();
    assert!(validate_pack(&pack)
        .iter()
        .any(|e| e.field == "source.license"));

    pack.source.license = "CC-BY-4.0".into();
    pack.source.author.clear();
    let error = validate_pack(&pack)
        .into_iter()
        .find(|e| e.field == "source.author")
        .unwrap();
    assert_eq!(error.pack_id, "fixture");
    assert_eq!(error.item_id, None);
    assert!(!error.message.is_empty());
}

#[test]
fn content_schema_version_and_exact_license_allowlist_are_enforced() {
    let mut pack = fixture_pack();
    pack.schema_version = 2;
    assert!(validate_pack(&pack)
        .iter()
        .any(|error| error.field == "schema_version"));

    pack.schema_version = 1;
    for license in [
        "CC0-1.0",
        "CC-BY-2.0-FR",
        "CC-BY-4.0",
        "KOGL-0",
        "KOGL-1.0",
        "LicenseRef-Public-Domain",
    ] {
        pack.source.license = license.into();
        assert!(validate_pack(&pack).is_empty(), "{license}");
    }
}

#[test]
fn content_invalid_items_report_stable_fields_and_normalized_duplicates() {
    let mut pack = fixture_pack();
    let mut duplicate = pack.items[0].clone();
    duplicate.id = "fixture-1".into();
    duplicate.text = "he\u{301}llo".into();
    duplicate.difficulty = Some(4);
    pack.items.push(duplicate);

    let errors = validate_pack(&pack);
    assert!(errors
        .iter()
        .any(|e| e.item_id.as_deref() == Some("fixture-1") && e.field == "id"));
    assert!(errors
        .iter()
        .any(|e| e.field == "text" && e.message.contains("NFC")));
    assert!(errors.iter().any(|e| e.field == "difficulty"));

    pack.items[1].text = "hello".into();
    assert!(validate_pack(&pack)
        .iter()
        .any(|e| e.field == "text" && e.message.contains("duplicate")));
}

#[test]
fn content_source_metadata_has_a_bounded_terminal_width() {
    let mut pack = fixture_pack();
    pack.source.author = "x".repeat(400);

    assert!(validate_pack(&pack)
        .iter()
        .any(|error| error.field == "source" && error.message.contains("320")));
}

#[test]
fn content_zero_width_source_metadata_has_a_bounded_byte_length() {
    let mut pack = fixture_pack();
    pack.source.author = "\u{301}".repeat(600);

    assert!(validate_pack(&pack).iter().any(|error| {
        error.field == "source.author" && error.message.contains("1024 bytes")
    }));
}

#[test]
fn content_removing_a_pack_reconciles_every_catalog_index() {
    let pack = fixture_pack();
    let mut catalog = ContentCatalog::default();
    catalog.insert(pack.clone());
    assert!(catalog.contains_pack("fixture"));

    catalog.remove_pack("fixture");

    assert!(!catalog.contains_pack("fixture"));
    assert!(catalog.items().iter().all(|item| item.pack_id != "fixture"));
    assert!(catalog.pack_source("fixture").is_none());
    assert!(catalog.validate_candidate(&pack).is_empty());
}

#[test]
fn content_every_terminal_visible_string_rejects_c0_and_c1_controls() {
    let cases = [
        ("pack.id", "id"),
        ("pack.title", "title"),
        ("item.id", "id"),
        ("item.text", "text"),
        ("item.title", "title"),
        ("item.tags.0", "tags"),
        ("item.tags.1", "tags"),
        ("pack.source.author", "source.author"),
        ("pack.source.source_id", "source.source_id"),
        ("pack.source.source_url", "source.source_url"),
        ("pack.source.license", "source.license"),
        ("pack.source.license_url", "source.license_url"),
        ("pack.source.retrieved_at", "source.retrieved_at"),
        ("item.source.author", "source.author"),
        ("item.source.source_id", "source.source_id"),
        ("item.source.source_url", "source.source_url"),
        ("item.source.license", "source.license"),
        ("item.source.license_url", "source.license_url"),
        ("item.source.retrieved_at", "source.retrieved_at"),
    ];

    for control in ['\u{1b}', '\u{9b}'] {
        for (case, expected_field) in cases {
            let mut pack = fixture_pack();
            pack.items[0].title = Some("Item title".into());
            pack.items[0].tags = vec!["first".into(), "second".into()];
            pack.items[0].source = Some(pack.source.clone());
            let value = format!("safe{control}value");
            match case {
                "pack.id" => pack.id = value,
                "pack.title" => pack.title = value,
                "item.id" => pack.items[0].id = value,
                "item.text" => pack.items[0].text = value,
                "item.title" => pack.items[0].title = Some(value),
                "item.tags.0" => pack.items[0].tags[0] = value,
                "item.tags.1" => pack.items[0].tags[1] = value,
                "pack.source.author" => pack.source.author = value,
                "pack.source.source_id" => pack.source.source_id = value,
                "pack.source.source_url" => pack.source.source_url = value,
                "pack.source.license" => pack.source.license = value,
                "pack.source.license_url" => pack.source.license_url = value,
                "pack.source.retrieved_at" => pack.source.retrieved_at = value,
                "item.source.author" => pack.items[0].source.as_mut().unwrap().author = value,
                "item.source.source_id" => {
                    pack.items[0].source.as_mut().unwrap().source_id = value;
                }
                "item.source.source_url" => {
                    pack.items[0].source.as_mut().unwrap().source_url = value;
                }
                "item.source.license" => {
                    pack.items[0].source.as_mut().unwrap().license = value;
                }
                "item.source.license_url" => {
                    pack.items[0].source.as_mut().unwrap().license_url = value;
                }
                "item.source.retrieved_at" => {
                    pack.items[0].source.as_mut().unwrap().retrieved_at = value;
                }
                _ => unreachable!(),
            }

            let errors = validate_pack(&pack);
            assert!(
                errors.iter().any(|error| {
                    error.field == expected_field && error.message.contains("control")
                }),
                "{case} did not reject U+{:04X}: {errors:?}",
                control as u32
            );
        }
    }

    let mut newline = fixture_pack();
    newline.items[0].text = "line one\nline two".into();
    assert!(validate_pack(&newline).is_empty());
}

#[test]
fn content_item_source_is_complete_override_and_user_words_resolve_difficulty() {
    let pack = ContentPack {
        schema_version: 1,
        id: "fallback".into(),
        title: "Fallback".into(),
        language: Language::Ko,
        source: SourceMeta {
            author: "Pack Author".into(),
            source_id: "pack-source".into(),
            source_url: "https://example.com/pack".into(),
            license: "CC-BY-4.0".into(),
            license_url: "https://creativecommons.org/licenses/by/4.0/".into(),
            modified: false,
            retrieved_at: "2026-08-07".into(),
        },
        items: vec![ContentItem {
            id: "short".into(),
            kind: ContentKind::Word,
            text: "한글".into(),
            difficulty: None,
            tags: Vec::new(),
            title: None,
            source: Some(SourceMeta {
                author: "Item Author".into(),
                source_id: "item-source".into(),
                source_url: "https://example.com/item".into(),
                license: "KOGL-1.0".into(),
                license_url: "https://www.kogl.or.kr/info/licenseType1.do".into(),
                modified: true,
                retrieved_at: "2026-08-06".into(),
            }),
        }],
    };

    let item = pack.resolve_items().unwrap().remove(0);
    assert_eq!(item.difficulty, Some(1));
    assert_eq!(item.source.author, "Item Author");
    assert_eq!(item.source.source_id, "item-source");
    assert_eq!(item.source.retrieved_at, "2026-08-06");
}

#[test]
fn content_language_specific_word_thresholds_and_non_words_are_resolved_once() {
    let mut pack = fixture_pack();
    pack.items[0].difficulty = None;
    pack.items[0].text = "ninechars".into();
    let item = pack.resolve_items().unwrap().remove(0);
    assert_eq!(item.difficulty, Some(3));

    pack.items[0].kind = ContentKind::Sentence;
    let item = pack.resolve_items().unwrap().remove(0);
    assert_eq!(item.difficulty, None);
}

#[test]
fn content_every_word_fallback_boundary_is_grapheme_based() {
    let mut pack = fixture_pack();
    pack.items[0].difficulty = None;
    for (language, text, expected) in [
        (Language::Ko, "한글", 1),
        (Language::Ko, "타자연습", 2),
        (Language::Ko, "정확한타자", 3),
        (Language::En, "type", 1),
        (Language::En, "practice", 2),
        (Language::En, "keystrokes", 3),
    ] {
        pack.language = language;
        pack.items[0].text = text.into();
        assert_eq!(
            pack.resolve_items().unwrap()[0].difficulty,
            Some(expected),
            "{language:?} {text}"
        );
    }
}

#[test]
fn content_built_in_words_must_declare_difficulty() {
    let mut pack = fixture_pack();
    pack.items[0].difficulty = None;
    let error = validate_builtin_words(&pack).remove(0);
    assert_eq!(error.pack_id, "fixture");
    assert_eq!(error.item_id.as_deref(), Some("fixture-1"));
    assert_eq!(error.field, "difficulty");
}

#[test]
fn content_built_in_practice_text_requires_direct_keyboard_characters() {
    let mut pack = fixture_pack();
    pack.items[0].text = "plain ASCII".into();
    assert!(validate_builtin_typeability(&pack).is_empty());

    pack.language = Language::Ko;
    pack.items[0].text = "한글과 ASCII 123!?\n다음 줄".into();
    assert!(validate_builtin_typeability(&pack).is_empty());

    for text in ["①항목", "곡선 ‘따옴표’", "한자 漢"] {
        pack.items[0].text = text.into();
        let error = validate_builtin_typeability(&pack).remove(0);
        assert_eq!(error.item_id.as_deref(), Some("fixture-1"));
        assert_eq!(error.field, "text");
        assert!(error.message.contains("directly typable"));
    }
}

#[test]
fn content_normalized_text_conflicts_are_scoped_by_language_and_kind() {
    let mut within_pack = fixture_pack();
    let mut cross_kind = within_pack.items[0].clone();
    cross_kind.id = "sentence-item".into();
    cross_kind.kind = ContentKind::Sentence;
    within_pack.items.push(cross_kind);
    assert!(!validate_pack(&within_pack)
        .iter()
        .any(|error| error.field == "text" && error.message.contains("duplicate")));

    let mut same_kind = within_pack.items[0].clone();
    same_kind.id = "word-item".into();
    within_pack.items.push(same_kind);
    assert!(validate_pack(&within_pack)
        .iter()
        .any(|error| error.item_id.as_deref() == Some("word-item")
            && error.field == "text"
            && error.message.contains("duplicate")));

    let base = fixture_pack();
    let mut catalog = ContentCatalog::default();
    catalog.insert(base.clone());

    let candidate =
        |pack_id: &str, item_id: &str, language: Language, kind: ContentKind, text: &str| {
            let mut pack = base.clone();
            pack.id = pack_id.into();
            pack.language = language;
            pack.items[0].id = item_id.into();
            pack.items[0].kind = kind;
            pack.items[0].text = text.into();
            pack
        };

    for allowed in [
        candidate(
            "other-language",
            "other-language-item",
            Language::Ko,
            ContentKind::Word,
            "hello",
        ),
        candidate(
            "other-kind",
            "other-kind-item",
            Language::En,
            ContentKind::Sentence,
            "hello",
        ),
    ] {
        assert!(
            !catalog
                .conflicts(&allowed)
                .iter()
                .any(|error| error.field == "items.text"),
            "{}",
            allowed.id
        );
    }

    let same_scope = candidate(
        "same-scope",
        "same-scope-item",
        Language::En,
        ContentKind::Word,
        "hello",
    );
    assert!(catalog
        .conflicts(&same_scope)
        .iter()
        .any(|error| error.field == "items.text"));

    let duplicate_item = candidate(
        "duplicate-item",
        "fixture-1",
        Language::Ko,
        ContentKind::Quote,
        "unique text",
    );
    assert!(catalog
        .conflicts(&duplicate_item)
        .iter()
        .any(|error| error.field == "items.id"));

    let duplicate_pack = candidate(
        "fixture",
        "unique-item",
        Language::Ko,
        ContentKind::Quote,
        "other unique text",
    );
    assert!(catalog
        .conflicts(&duplicate_pack)
        .iter()
        .any(|error| error.field == "id"));
}

#[test]
fn counting_over_kinds_adds_the_counts_of_distinct_kinds() {
    let mut catalog = ContentCatalog::default();
    let mut pack = fixture_pack();
    let mut sentence = pack.items[0].clone();
    sentence.id = "fixture-s".into();
    sentence.kind = ContentKind::Sentence;
    sentence.text = "A sentence.".into();
    pack.items.push(sentence);
    assert!(catalog.validate_candidate(&pack).is_empty());
    let id = pack.id.clone();
    catalog.insert(pack);
    let words = catalog.count(Language::En, ContentKind::Word);
    let sentences = catalog.count(Language::En, ContentKind::Sentence);
    assert_eq!(catalog.count_any(Language::En, &[]), 0);
    assert_eq!(catalog.count_any(Language::En, &[ContentKind::Word]), words);
    assert_eq!(
        catalog.count_any(Language::En, &[ContentKind::Word, ContentKind::Sentence]),
        words + sentences
    );
    assert_eq!(
        catalog.count_any(Language::En, &[ContentKind::Word, ContentKind::Word]),
        words
    );
    assert!(catalog.contains_pack(&id));
    assert!(catalog.items().iter().any(|item| item.pack_id == id));
    catalog.remove_pack(&id);
    assert!(!catalog.contains_pack(&id));
    assert!(!catalog.items().iter().any(|item| item.pack_id == id));
}

#[test]
fn builtin_catalog_refuses_a_repeated_text_across_packs() {
    let mut second = fixture_pack();
    second.id = "second".into();
    second.items[0].id = "second-1".into();
    let sources = vec![("a.toml".to_string(), fixture_pack()), ("b.toml".to_string(), second)];
    let error = ContentCatalog::load_builtins(&sources).err().unwrap();
    assert!(error.starts_with("invalid built-in pack b.toml: "), "{error}");
    assert!(error.contains("duplicate normalized catalog text"), "{error}");

    let mut fresh = fixture_pack();
    fresh.id = "second".into();
    fresh.items[0].id = "second-1".into();
    fresh.items[0].text = "world".into();
    let sources = vec![("a.toml".to_string(), fixture_pack()), ("b.toml".to_string(), fresh)];
    let catalog = ContentCatalog::load_builtins(&sources).unwrap();
    let items = catalog.items();
    assert_eq!(items.len(), 2);
    assert_ne!(items[0].id, items[1].id);
    assert_ne!(items[0].text, items[1].text);
}
