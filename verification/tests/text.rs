use emoji_cheat_sheet::categorize::Categorized;
use emoji_cheat_sheet::categorize::Category;
use emoji_cheat_sheet::categorize::Subcategory;
use emoji_cheat_sheet::render::generate_cheat_sheet;
use emoji_cheat_sheet::render::generate_table;
use emoji_cheat_sheet::render::generate_toc;
use emoji_cheat_sheet::render::get_header_id;
use emoji_cheat_sheet::strutil::parse_hex_u32;
use emoji_cheat_sheet::unicode::normalize;
use emoji_cheat_sheet::unicode::to_title_case;

#[test]
fn title_case_of_hyphenated_heading() {
    assert_eq!(to_title_case("face-smiling".to_string()), "Face Smiling");
    assert_eq!(to_title_case("Smileys & Emotion".to_string()), "Smileys & Emotion");
    assert_eq!(to_title_case("  animal---bird ".to_string()), "Animal Bird");
    assert_eq!(to_title_case("".to_string()), "");
}

#[test]
fn normalization_drops_spacing_marks_and_is_idempotent() {
    // U+0903 DEVANAGARI SIGN VISARGA has the spacing-combining category
    assert_eq!(normalize("\u{0903}"), "");
    assert_eq!(normalize("\u{0903}a"), "a");
    assert_eq!(normalize("1\u{FE0F}\u{20E3}"), "1\u{FE0F}\u{20E3}");
    for s in ["", "plain", "\u{0903}", "\u{0903}a\u{0903}", "a\u{0903}b", "\u{1F600}"] {
        let once = normalize(s);
        let twice = normalize(&once);
        assert_eq!(twice, once);
    }
}

#[test]
fn header_ids() {
    assert_eq!(get_header_id("Smileys & Emotion"), "smileys--emotion");
    assert_eq!(get_header_id("Table of Contents"), "table-of-contents");
    assert_eq!(get_header_id("Face Smiling"), "face-smiling");
}

#[test]
fn toc_lines() {
    let headers = vec!["Smileys & Emotion".to_string(), "Flags".to_string()];
    assert_eq!(
        generate_toc(&headers),
        vec![
            "- [Smileys & Emotion](#smileys--emotion)".to_string(),
            "- [Flags](#flags)".to_string(),
        ]
    );
}

#[test]
fn table_single_group() {
    let groups = vec![vec!["grinning".to_string()]];
    let lines = generate_table(&groups, 2, "[top](#faces)", "[top](#toc)");
    assert_eq!(
        lines,
        vec![
            "| | ico | shortcode | |".to_string(),
            "| - | :-: | - | - |".to_string(),
            "| [top](#faces) | :grinning: | `:grinning:` | [top](#toc) |".to_string(),
        ]
    );
}

#[test]
fn table_aliases_and_padding() {
    let groups = vec![
        vec!["+1".to_string(), "thumbsup".to_string()],
        vec!["a".to_string()],
        vec!["b".to_string()],
    ];
    let lines = generate_table(&groups, 2, "L", "R");
    assert_eq!(
        lines,
        vec![
            "| | ico | shortcode | ico | shortcode | |".to_string(),
            "| - | :-: | - | :-: | - | - |".to_string(),
            "| L | :+1: | `:+1:` <br /> `:thumbsup:` | :a: | `:a:` | R |".to_string(),
            "| L | :b: | `:b:` | | | R |".to_string(),
        ]
    );
}

#[test]
fn hex_parsing() {
    assert_eq!(parse_hex_u32(&vec!['1', 'f', '6', '0', '0']), Some(0x1F600));
    assert_eq!(parse_hex_u32(&vec!['0', '0', '3', '1']), Some(0x31));
    assert_eq!(parse_hex_u32(&vec!['F', 'f']), Some(0xFF));
    assert_eq!(parse_hex_u32(&Vec::new()), None);
    assert_eq!(parse_hex_u32(&vec!['x']), None);
    assert_eq!(
        parse_hex_u32(&vec!['f', 'f', 'f', 'f', 'f', 'f', 'f', 'f', 'f']),
        None
    );
    assert_eq!(
        parse_hex_u32(&vec!['0', '0', 'f', 'f', 'f', 'f', 'f', 'f', 'f', 'f']),
        Some(0xFFFFFFFF)
    );
}

#[test]
fn cheat_sheet_document() {
    let categorized = Categorized {
        cats: vec![Category {
            title: "Smileys & Emotion".to_string(),
            subs: vec![Subcategory {
                title: "Face Smiling".to_string(),
                groups: vec![vec!["grinning".to_string()]],
            }],
        }],
    };
    let sheet = generate_cheat_sheet(
        "emoji-cheat-sheet",
        "GitHub Emoji API",
        "Unicode Full Emoji List",
        2,
        "Table of Contents",
        &categorized,
    );
    let lines: Vec<&str> = sheet.split('\n').collect();
    assert_eq!(lines[0], "# emoji-cheat-sheet");
    assert_eq!(lines[1], "");
    assert_eq!(lines[2], "");
    assert_eq!(
        lines[3],
        "This cheat sheet is automatically generated from [GitHub Emoji API](https://api.github.com/emojis) and [Unicode Full Emoji List](https://unicode.org/emoji/charts/full-emoji-list.html)."
    );
    assert_eq!(lines[5], "## Table of Contents");
    assert_eq!(lines[7], "- [Smileys & Emotion](#smileys--emotion)");
    assert_eq!(lines[9], "### Smileys & Emotion");
    assert_eq!(lines[11], "#### Face Smiling");
    assert_eq!(lines[13], "| | ico | shortcode | |");
    assert_eq!(lines[14], "| - | :-: | - | - |");
    assert_eq!(
        lines[15],
        "| [top](#smileys--emotion) | :grinning: | `:grinning:` | [top](#table-of-contents) |"
    );
    assert_eq!(lines[16], "");
    assert_eq!(lines.len(), 17);
}

#[test]
fn table_without_groups() {
    let lines = generate_table(&Vec::new(), 2, "L", "R");
    assert_eq!(
        lines,
        vec!["| | |".to_string(), "| - | - |".to_string()]
    );
}
