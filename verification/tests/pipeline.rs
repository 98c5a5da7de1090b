use emoji_cheat_sheet::categorize::categorize_github_emoji_ids;
use emoji_cheat_sheet::chart::ChartEvent;
use emoji_cheat_sheet::get_categorized_github_emoji_ids;
use emoji_cheat_sheet::source::get_github_emoji_id_map;
use emoji_cheat_sheet::source::EmojiError;

fn cat_events(cat: &str, sub: &str, glyph: &str) -> Vec<ChartEvent> {
    vec![
        ChartEvent::BeginCategory(cat.to_string()),
        ChartEvent::BeginSubcategory(sub.to_string()),
        ChartEvent::Row(glyph.to_string()),
    ]
}

#[test]
fn unicode_match() {
    let json = r#"{"grinning": "https://github.githubassets.com/images/icons/emoji/unicode/1f600.png"}"#;
    let entries = get_github_emoji_id_map(json).unwrap();
    let events = cat_events("Smileys & Emotion", "Face Smiling", "\u{1F600}");
    let result = categorize_github_emoji_ids(&entries, &events).unwrap();
    assert_eq!(result.cats.len(), 1);
    assert_eq!(result.cats[0].title, "Smileys & Emotion");
    assert_eq!(result.cats[0].subs.len(), 1);
    assert_eq!(result.cats[0].subs[0].title, "Face Smiling");
    assert_eq!(
        result.cats[0].subs[0].groups,
        vec![vec!["grinning".to_string()]]
    );
}

#[test]
fn alias_grouping() {
    let json = r#"{"thumbsup": "https://example.com/unicode/1f44d.png", "+1": "https://example.com/unicode/1f44d.png"}"#;
    let entries = get_github_emoji_id_map(json).unwrap();
    let events = cat_events("People & Body", "Hands", "\u{1F44D}");
    let result = categorize_github_emoji_ids(&entries, &events).unwrap();
    assert_eq!(result.cats.len(), 1);
    assert_eq!(result.cats[0].subs[0].groups.len(), 1);
    // the source map iterates sorted by key, so "+1" comes first
    assert_eq!(
        result.cats[0].subs[0].groups[0],
        vec!["+1".to_string(), "thumbsup".to_string()]
    );
}

#[test]
fn combining_mark_stripping() {
    let json = r#"{"one": "https://example.com/unicode/0031-fe0f-20e3.png"}"#;
    let entries = get_github_emoji_id_map(json).unwrap();
    let events = cat_events("Symbols", "Keycap", "1\u{FE0F}\u{20E3}");
    let result = categorize_github_emoji_ids(&entries, &events).unwrap();
    assert_eq!(result.cats[0].subs[0].groups, vec![vec!["one".to_string()]]);
}

#[test]
fn custom_bucket() {
    let json = r#"{"octocat": "https://github.githubassets.com/images/icons/emoji/octocat.png"}"#;
    let entries = get_github_emoji_id_map(json).unwrap();
    let events: Vec<ChartEvent> = Vec::new();
    let result = categorize_github_emoji_ids(&entries, &events).unwrap();
    assert_eq!(result.cats.len(), 1);
    assert_eq!(result.cats[0].title, "GitHub Custom Emoji");
    assert_eq!(result.cats[0].subs.len(), 1);
    assert_eq!(result.cats[0].subs[0].title, "");
    assert_eq!(
        result.cats[0].subs[0].groups,
        vec![vec!["octocat".to_string()]]
    );
}

#[test]
fn unmatched_unicode_dropped() {
    let json = r#"{"mystery": "https://example.com/unicode/10ffff.png"}"#;
    let entries = get_github_emoji_id_map(json).unwrap();
    let events = cat_events("Symbols", "Other", "\u{1F600}");
    let result = categorize_github_emoji_ids(&entries, &events).unwrap();
    assert_eq!(result.cats.len(), 1);
    assert_eq!(result.cats[0].subs[0].groups.len(), 0);
    for cat in &result.cats {
        for sub in &cat.subs {
            for group in &sub.groups {
                assert!(!group.contains(&"mystery".to_string()));
            }
        }
    }
}

#[test]
fn category_order_and_custom_last() {
    let json = r#"{"a": "https://example.com/unicode/1f600.png", "b": "https://example.com/unicode/1f44d.png", "pet": "https://example.com/pet.png"}"#;
    let entries = get_github_emoji_id_map(json).unwrap();
    let events = vec![
        ChartEvent::BeginCategory("Zeta".to_string()),
        ChartEvent::BeginSubcategory("One".to_string()),
        ChartEvent::Row("\u{1F600}".to_string()),
        ChartEvent::BeginCategory("Alpha".to_string()),
        ChartEvent::BeginSubcategory("Two".to_string()),
        ChartEvent::Row("\u{1F44D}".to_string()),
    ];
    let result = categorize_github_emoji_ids(&entries, &events).unwrap();
    let titles: Vec<&str> = result.cats.iter().map(|c| c.title.as_str()).collect();
    assert_eq!(titles, vec!["Zeta", "Alpha", "GitHub Custom Emoji"]);
}

#[test]
fn repeated_category_is_continuation() {
    let json = r#"{"a": "https://example.com/unicode/1f600.png", "b": "https://example.com/unicode/1f44d.png"}"#;
    let entries = get_github_emoji_id_map(json).unwrap();
    let events = vec![
        ChartEvent::BeginCategory("Faces".to_string()),
        ChartEvent::BeginSubcategory("One".to_string()),
        ChartEvent::Row("\u{1F600}".to_string()),
        ChartEvent::BeginCategory("Other".to_string()),
        ChartEvent::BeginCategory("Faces".to_string()),
        ChartEvent::BeginSubcategory("Two".to_string()),
        ChartEvent::Row("\u{1F44D}".to_string()),
    ];
    let result = categorize_github_emoji_ids(&entries, &events).unwrap();
    let titles: Vec<&str> = result.cats.iter().map(|c| c.title.as_str()).collect();
    assert_eq!(titles, vec!["Faces", "Other"]);
    assert_eq!(result.cats[0].subs.len(), 2);
    assert_eq!(result.cats[0].subs[0].title, "One");
    assert_eq!(result.cats[0].subs[1].title, "Two");
    assert_eq!(result.cats[0].subs[1].groups, vec![vec!["b".to_string()]]);
}

#[test]
fn row_without_headings_is_skipped() {
    let json = r#"{"a": "https://example.com/unicode/1f600.png"}"#;
    let entries = get_github_emoji_id_map(json).unwrap();
    let events = vec![
        ChartEvent::Row("\u{1F600}".to_string()),
        ChartEvent::BeginCategory("Faces".to_string()),
        ChartEvent::Row("\u{1F600}".to_string()),
    ];
    let result = categorize_github_emoji_ids(&entries, &events).unwrap();
    assert_eq!(result.cats.len(), 1);
    assert_eq!(result.cats[0].subs.len(), 0);
}

#[test]
fn subcategory_before_category_is_fatal() {
    let json = r#"{"a": "https://example.com/unicode/1f600.png"}"#;
    let entries = get_github_emoji_id_map(json).unwrap();
    let events = vec![ChartEvent::BeginSubcategory("Loose".to_string())];
    let err = categorize_github_emoji_ids(&entries, &events).unwrap_err();
    assert!(matches!(err, EmojiError::MalformedChart));
}

#[test]
fn non_object_source_is_malformed() {
    let err = get_github_emoji_id_map("[1, 2, 3]").unwrap_err();
    assert!(matches!(err, EmojiError::MalformedSource));
    let err = get_github_emoji_id_map("{\"a\": 5}").unwrap_err();
    assert!(matches!(err, EmojiError::MalformedSource));
    let err = get_github_emoji_id_map("not json").unwrap_err();
    assert!(matches!(err, EmojiError::MalformedSource));
}

#[test]
fn bad_codepoint_names_the_shortcode() {
    let err =
        get_github_emoji_id_map(r#"{"bad": "https://example.com/unicode/zzzz.png"}"#).unwrap_err();
    match err {
        EmojiError::BadImageUrl(id) => assert_eq!(id, "bad"),
        _ => panic!("expected a bad-codepoint error"),
    }
    // a surrogate value is hexadecimal but no Unicode scalar value
    let err =
        get_github_emoji_id_map(r#"{"sur": "https://example.com/unicode/d800.png"}"#).unwrap_err();
    match err {
        EmojiError::BadImageUrl(id) => assert_eq!(id, "sur"),
        _ => panic!("expected a bad-codepoint error"),
    }
}

#[test]
fn end_to_end_html_chart() {
    let json = r#"{"grinning": "https://github.githubassets.com/images/icons/emoji/unicode/1f600.png"}"#;
    let html = "<table>\
        <tr><th class=\"bighead\">Smileys &amp; Emotion</th></tr>\
        <tr><th class=\"mediumhead\">face-smiling</th></tr>\
        <tr><td class=\"rchars\">1</td><td class=\"chars\">\u{1F600}</td></tr>\
        </table>";
    let result = get_categorized_github_emoji_ids(json, html).unwrap();
    assert_eq!(result.cats.len(), 1);
    assert_eq!(result.cats[0].title, "Smileys & Emotion");
    assert_eq!(result.cats[0].subs[0].title, "Face Smiling");
    assert_eq!(
        result.cats[0].subs[0].groups,
        vec![vec!["grinning".to_string()]]
    );
}

#[test]
fn empty_source_gives_empty_tree() {
    let entries = get_github_emoji_id_map("{}").unwrap();
    assert!(entries.is_empty());
    let events = cat_events("Faces", "Smiling", "\u{1F600}");
    let result = categorize_github_emoji_ids(&entries, &events).unwrap();
    assert_eq!(result.cats.len(), 1);
    assert_eq!(result.cats[0].subs[0].groups.len(), 0);
}

#[test]
fn multi_codepoint_sequence_matches() {
    let json = r#"{"ascension_island": "https://example.com/unicode/1f1e6-1f1e8.png"}"#;
    let entries = get_github_emoji_id_map(json).unwrap();
    let events = cat_events("Flags", "Country Flag", "\u{1F1E6}\u{1F1E8}");
    let result = categorize_github_emoji_ids(&entries, &events).unwrap();
    assert_eq!(
        result.cats[0].subs[0].groups,
        vec![vec!["ascension_island".to_string()]]
    );
}

#[test]
fn unicode_segment_must_precede_file_name() {
    // "unicode" deeper in the path does not mark a Unicode URL
    let json = r#"{"deep": "https://example.com/unicode/art/foo.png"}"#;
    let entries = get_github_emoji_id_map(json).unwrap();
    let events: Vec<ChartEvent> = Vec::new();
    let result = categorize_github_emoji_ids(&entries, &events).unwrap();
    assert_eq!(result.cats.len(), 1);
    assert_eq!(result.cats[0].title, "GitHub Custom Emoji");
    assert_eq!(result.cats[0].subs[0].groups, vec![vec!["deep".to_string()]]);
}

#[test]
fn empty_file_stem_is_rejected() {
    let err =
        get_github_emoji_id_map(r#"{"empty": "https://example.com/assets/"}"#).unwrap_err();
    match err {
        EmojiError::BadImageUrl(id) => assert_eq!(id, "empty"),
        _ => panic!("expected a bad-image-url error"),
    }
    let err = get_github_emoji_id_map(r#"{"bare": ".png"}"#).unwrap_err();
    match err {
        EmojiError::BadImageUrl(id) => assert_eq!(id, "bare"),
        _ => panic!("expected a bad-image-url error"),
    }
}

#[test]
fn glyph_must_be_a_table_cell() {
    // a non-cell element with class "chars" does not yield a row
    let json = r#"{"grinning": "https://github.githubassets.com/images/icons/emoji/unicode/1f600.png"}"#;
    let html = "<table>\
        <tr><th class=\"bighead\">Faces</th></tr>\
        <tr><th class=\"mediumhead\">smiling</th></tr>\
        <tr><td class=\"rchars\">1</td><td><span class=\"chars\">\u{1F600}</span></td></tr>\
        </table>";
    let result = get_categorized_github_emoji_ids(json, html).unwrap();
    assert_eq!(result.cats.len(), 1);
    assert_eq!(result.cats[0].subs[0].groups.len(), 0);
}
