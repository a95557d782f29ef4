use std::sync::Arc;

use runome::chunking::MAX_CHUNK_SIZE;
use runome::connection::PackedConnectionMatrix;
use runome::dictionary::{SystemDictionary, UserDictionary};
use runome::lattice::{Node, NodeType, UnknownNode};
use runome::morpheme_index::MorphemeIndex;
use runome::resource::DictionaryResource;
use runome::token::{normalize_inflection, Token, TokenizeResult};
use runome::tokenizer::{is_all_kanji, Tokenizer};
use runome::types::{CharCategory, CharDefinitions, CodeRange, DictEntry, UnknownEntry};

// Left/right ids: 0 marks the sentence ends, 1 nouns, 2 suffixes, 3 particles, 4 symbols.
const ID_NOUN: u16 = 1;
const ID_SUFFIX: u16 = 2;
const ID_PARTICLE: u16 = 3;
const ID_SYMBOL: u16 = 4;

fn entry(surface: &str, id: u16, cost: i16, pos: &str, reading: &str) -> DictEntry {
    DictEntry {
        surface: surface.to_string(),
        left_id: id,
        right_id: id,
        cost,
        part_of_speech: pos.to_string(),
        inflection_type: "*".to_string(),
        inflection_form: "*".to_string(),
        base_form: surface.to_string(),
        reading: reading.to_string(),
        phonetic: reading.to_string(),
        surface_len: surface.chars().count() as u32,
    }
}

fn category(name: &str, invoke: bool, group: bool, length: u8) -> (String, CharCategory) {
    (name.to_string(), CharCategory { invoke, group, length })
}

fn range(from: u32, to: u32, name: &str, compat: &[&str]) -> CodeRange {
    CodeRange {
        from,
        to,
        category: name.to_string(),
        compat_categories: compat.iter().map(|s| s.to_string()).collect(),
    }
}

fn unknown(id: u16, cost: i16, pos: &str) -> UnknownEntry {
    UnknownEntry { left_id: id, right_id: id, cost, part_of_speech: pos.to_string() }
}

fn resource() -> DictionaryResource {
    let entries = vec![
        entry("年", ID_SUFFIX, 100, "名詞,接尾,助数詞,*", "ネン"),
        entry("すもも", ID_NOUN, 300, "名詞,一般,*,*", "スモモ"),
        entry("もも", ID_NOUN, 300, "名詞,一般,*,*", "モモ"),
        entry("も", ID_PARTICLE, 100, "助詞,係助詞,*,*", "モ"),
        entry("の", ID_PARTICLE, 100, "助詞,連体化,*,*", "ノ"),
        entry("うち", ID_NOUN, 300, "名詞,非自立,副詞可能,*", "ウチ"),
        entry("東京", ID_NOUN, 200, "名詞,固有名詞,地域,一般", "トウキョウ"),
        entry("東", ID_NOUN, 500, "名詞,一般,*,*", "ヒガシ"),
        entry("京都", ID_NOUN, 200, "名詞,固有名詞,地域,一般", "キョウト"),
    ];
    // A noun after a noun, or a particle after a particle, costs 1000; all else 0.
    let mut rows: Vec<Vec<i16>> = (0..5).map(|_| vec![0i16; 5]).collect();
    rows[ID_NOUN as usize][ID_NOUN as usize] = 1000;
    rows[ID_PARTICLE as usize][ID_PARTICLE as usize] = 1000;
    let connections = PackedConnectionMatrix::from_rows(&rows).unwrap();
    let char_defs = CharDefinitions {
        categories: vec![
            category("DEFAULT", false, true, 0),
            category("SPACE", false, true, 0),
            category("KANJI", false, false, 2),
            category("SYMBOL", true, true, 0),
            category("NUMERIC", true, true, 0),
            category("ALPHA", true, true, 0),
            category("HIRAGANA", false, true, 2),
            category("KATAKANA", true, true, 2),
            category("KANJINUMERIC", true, true, 0),
        ],
        code_ranges: vec![
            range(0x0020, 0x0020, "SPACE", &[]),
            range(0x0030, 0x0039, "NUMERIC", &[]),
            range(0x0041, 0x005A, "ALPHA", &[]),
            range(0x0061, 0x007A, "ALPHA", &[]),
            range(0x3000, 0x3000, "SPACE", &[]),
            range(0x3001, 0x3002, "SYMBOL", &[]),
            range(0x3041, 0x309F, "HIRAGANA", &[]),
            range(0x30A1, 0x30FF, "KATAKANA", &[]),
            range(0x4E00, 0x9FFF, "KANJI", &[]),
            range(0x4E94, 0x4E94, "KANJINUMERIC", &["KANJI"]),
        ],
    };
    let unknowns = vec![
        ("DEFAULT".to_string(), vec![unknown(ID_SYMBOL, 5000, "記号,一般,*,*")]),
        ("SPACE".to_string(), vec![unknown(ID_SYMBOL, 1000, "記号,空白,*,*")]),
        ("KANJI".to_string(), vec![unknown(ID_NOUN, 3000, "名詞,一般,*,*")]),
        ("SYMBOL".to_string(), vec![unknown(ID_SYMBOL, 2000, "記号,一般,*,*")]),
        ("NUMERIC".to_string(), vec![unknown(ID_NOUN, 500, "名詞,数,*,*")]),
        (
            "ALPHA".to_string(),
            vec![
                unknown(ID_NOUN, 900, "名詞,一般,*,*"),
                unknown(ID_NOUN, 800, "名詞,固有名詞,組織,*"),
            ],
        ),
        ("HIRAGANA".to_string(), vec![unknown(ID_NOUN, 4000, "名詞,一般,*,*")]),
        ("KATAKANA".to_string(), vec![unknown(ID_NOUN, 1500, "名詞,一般,*,*")]),
        ("KANJINUMERIC".to_string(), vec![unknown(ID_NOUN, 1000, "名詞,数,*,*")]),
    ];
    let morpheme_index = MorphemeIndex::from_vectors(Vec::new());
    DictionaryResource::from_parts(entries, connections, char_defs, unknowns, morpheme_index)
        .expect("fixture dictionary is consistent")
}

fn system_dictionary() -> Arc<SystemDictionary> {
    Arc::new(SystemDictionary::new(resource()))
}

fn tokenizer(max_unknown_length: Option<usize>, wakati: Option<bool>) -> Tokenizer {
    Tokenizer::new(system_dictionary(), max_unknown_length, wakati).expect("tokenizer")
}

fn unknown_node() -> UnknownNode {
    UnknownNode::new(
        "テスト",
        100,
        200,
        150,
        "名詞,一般,*,*,*,*",
        "*",
        "*",
        "テスト",
        "*",
        "*",
        NodeType::Unknown,
    )
}

fn surfaces(results: &[TokenizeResult]) -> Vec<String> {
    results.iter().map(|r| r.surface().to_string()).collect()
}

#[test]
fn test_token_creation() {
    let token = Token::from_unknown_node(&unknown_node(), true);
    assert_eq!(token.surface(), "テスト");
    assert_eq!(token.part_of_speech(), "名詞,一般,*,*,*,*");
    assert_eq!(token.base_form(), "テスト");
    assert_eq!(token.node_type(), NodeType::Unknown);
}

#[test]
fn test_token_display() {
    let token = Token::from_unknown_node(&unknown_node(), true);
    let formatted = token.to_string();
    assert_eq!(formatted, "テスト\t名詞,一般,*,*,*,*,*,*,テスト,*,*");
}

#[test]
fn test_tokenize_result_display() {
    let surface_result = TokenizeResult::Surface("テスト".to_string());
    assert_eq!(surface_result.to_string(), "テスト");

    let token = Token::from_unknown_node(&unknown_node(), true);
    let token_result = TokenizeResult::Token(token);
    assert!(token_result.to_string().starts_with("テスト\t"));
}

#[test]
fn test_tokenizer_creation() {
    let tokenizer = Tokenizer::new(system_dictionary(), None, None);
    assert!(tokenizer.is_ok(), "Tokenizer creation should succeed");
    let tokenizer = tokenizer.unwrap();
    assert_eq!(tokenizer.max_unknown_length(), 1024);
    assert!(!tokenizer.wakati());
}

#[test]
fn test_tokenizer_custom_params() {
    let tokenizer = Tokenizer::new(system_dictionary(), Some(2048), Some(true));
    assert!(tokenizer.is_ok(), "Tokenizer creation should succeed");
    let tokenizer = tokenizer.unwrap();
    assert_eq!(tokenizer.max_unknown_length(), 2048);
    assert!(tokenizer.wakati());
}

#[test]
fn test_basic_tokenize_placeholder() {
    let tokenizer = tokenizer(None, None);
    let results = tokenizer.tokenize("テスト", None, None);
    assert!(results.is_ok(), "Tokenization should not fail");
    let tokens = results.unwrap();
    assert!(!tokens.is_empty(), "Should return at least one token");
}

#[test]
fn test_chunking_helpers() {
    let tokenizer = tokenizer(None, None);

    assert!(tokenizer.is_punct('。'));
    assert!(tokenizer.is_punct('、'));
    assert!(tokenizer.is_punct('?'));
    assert!(!tokenizer.is_punct('あ'));

    assert!(tokenizer.is_newline("text\n\n"));
    assert!(tokenizer.is_newline("text\r\n\r\n"));
    assert!(!tokenizer.is_newline("text\n"));

    assert!(tokenizer.is_splittable("これは文です。"));
    assert!(tokenizer.is_splittable("質問？"));
    assert!(!tokenizer.is_splittable("文の途中"));
}

#[test]
fn test_chunk_boundary_preserves_ascii_sequences() {
    let tokenizer = tokenizer(None, None);
    let text = format!("{}text", "long".repeat(256));

    let tokens = tokenizer.tokenize(&text, None, None).expect("Tokenization should succeed");

    assert_eq!(tokens.len(), 2, "Expected two tokens at chunk boundary");

    match &tokens[0] {
        TokenizeResult::Token(token) => {
            assert_eq!(token.surface().chars().count(), 1024);
        }
        TokenizeResult::Surface(surface) => {
            assert_eq!(surface.chars().count(), 1024);
        }
    }

    match &tokens[1] {
        TokenizeResult::Token(token) => {
            assert_eq!(token.surface(), "text");
        }
        TokenizeResult::Surface(surface) => {
            assert_eq!(surface, "text");
        }
    }
}

#[test]
fn test_should_split_logic() {
    let tokenizer = tokenizer(None, None);
    let text = "短いテキスト";

    assert!(!tokenizer.should_split_at_char_pos(text, 5, 2));
    assert!(tokenizer.should_split_at_char_pos(text, text.len(), 6));
    assert!(tokenizer.should_split_at_char_pos(text, 100, MAX_CHUNK_SIZE + 1));
}

#[test]
fn test_character_categories() {
    let tokenizer = tokenizer(None, None);
    let test_cases = vec![
        ('あ', "hiragana"),
        ('ア', "katakana"),
        ('漢', "kanji"),
        ('2', "numeric"),
        ('A', "alpha"),
        ('、', "symbol"),
    ];
    for (ch, expected_type) in test_cases {
        let categories = tokenizer.sys_dic().get_char_categories_result(ch);
        match categories {
            Ok(cats) => {
                assert!(!cats.is_empty(), "Character '{}' should have at least one category", ch);
                println!("Character '{}' has categories: {:?} (expected type: {})", ch, cats, expected_type);
            }
            Err(e) => {
                println!("Warning: Could not get categories for '{}': {:?}", ch, e);
            }
        }
    }
}

#[test]
fn test_unknown_word_grouping() {
    let tokenizer = tokenizer(None, None);
    let test_cases = vec![
        ("2009年", vec![("2009", "名詞,数"), ("年", "名詞,接尾,助数詞")]),
        ("2009", vec![("2009", "名詞,数")]),
        ("ABC", vec![("ABC", "名詞,固有名詞,組織")]),
        ("123", vec![("123", "名詞,数")]),
    ];
    for (text, expected) in test_cases {
        let tokens = match tokenizer.tokenize(text, None, None) {
            Ok(tokens) => tokens,
            Err(e) => panic!("Tokenization failed for '{}': {:?}", text, e),
        };
        assert_eq!(
            tokens.len(),
            expected.len(),
            "Expected {} tokens for '{}', but got {}. Expected: {:?}",
            expected.len(),
            text,
            tokens.len(),
            expected
        );
        for (i, (expected_surface, expected_pos_prefix)) in expected.iter().enumerate() {
            match &tokens[i] {
                TokenizeResult::Token(token) => {
                    assert_eq!(
                        token.surface(),
                        *expected_surface,
                        "Token {} surface mismatch for '{}': expected '{}', got '{}'",
                        i,
                        text,
                        expected_surface,
                        token.surface()
                    );
                    assert!(
                        token.part_of_speech().starts_with(expected_pos_prefix),
                        "Token {} part-of-speech mismatch for '{}': expected to start with '{}', got '{}'",
                        i,
                        text,
                        expected_pos_prefix,
                        token.part_of_speech()
                    );
                }
                TokenizeResult::Surface(surface) => {
                    panic!("Expected Token but got Surface '{}' for test case '{}'", surface, text);
                }
            }
        }
    }
}

#[test]
fn test_unknown_word_grouping_edge_cases() {
    let tokenizer = tokenizer(None, None);
    let edge_cases = vec![("123abc", 2), ("ABC123", 2), ("2", 1), ("A", 1)];
    for (text, expected_count) in edge_cases {
        let tokens = match tokenizer.tokenize(text, None, None) {
            Ok(tokens) => tokens,
            Err(e) => panic!("Edge case tokenization failed for '{}': {:?}", text, e),
        };
        for (i, token) in tokens.iter().enumerate() {
            println!("  Token {}: {}", i, token.to_string());
        }
        assert_eq!(
            tokens.len(),
            expected_count,
            "Edge case '{}' failed: expected {} tokens, got {}",
            text,
            expected_count,
            tokens.len()
        );
    }
}

#[test]
fn test_python_compatibility_basic() {
    let tokenizer = tokenizer(None, None);
    let test_cases = vec!["すもも", "テスト", "2009", "ABC"];
    for text in test_cases {
        match tokenizer.tokenize(text, None, None) {
            Ok(tokens) => {
                println!("Text '{}' tokenized into {} tokens:", text, tokens.len());
                for (i, token) in tokens.iter().enumerate() {
                    println!("  {}: {}", i, token.to_string());
                }
            }
            Err(e) => {
                println!("Failed to tokenize '{}': {:?}", text, e);
            }
        }
    }
}

// Tests of the library's own statements.

#[test]
fn surfaces_make_up_the_trimmed_text() {
    let tokenizer = tokenizer(None, None);
    let text = "  すもももももももものうち。東京2009年ABC  ";
    let tokens = tokenizer.tokenize(text, None, None).unwrap();
    assert_eq!(surfaces(&tokens).concat(), text.trim());
}

#[test]
fn dictionary_words_win_over_unknown_words() {
    let tokenizer = tokenizer(None, None);
    let tokens = tokenizer.tokenize("すもももももももものうち", None, None).unwrap();
    assert_eq!(
        surfaces(&tokens),
        vec!["すもも", "も", "もも", "も", "もも", "の", "うち"]
    );
    match &tokens[0] {
        TokenizeResult::Token(t) => {
            assert_eq!(t.part_of_speech(), "名詞,一般,*,*");
            assert_eq!(t.reading(), "スモモ");
            assert_eq!(t.node_type(), NodeType::SysDict);
        }
        TokenizeResult::Surface(_) => panic!("expected a token"),
    }
}

#[test]
fn cheapest_segmentation_is_chosen() {
    // 東 + 京都 costs 500 + 1000 + 200; 東京 + the unknown 都 costs 200 + 1000 + 3000.
    let tokenizer = tokenizer(None, None);
    let tokens = tokenizer.tokenize("東京都", None, None).unwrap();
    assert_eq!(surfaces(&tokens), vec!["東", "京都"]);
}

#[test]
fn wakati_tokenizer_always_gives_surfaces() {
    let tokenizer = tokenizer(None, Some(true));
    let results = tokenizer.tokenize("すもももも", Some(false), None).unwrap();
    assert!(results.iter().all(|r| matches!(r, TokenizeResult::Surface(_))));
    assert_eq!(surfaces(&results), vec!["すもも", "も", "も"]);
}

#[test]
fn wakati_gives_the_surfaces_of_full_tokens() {
    let tokenizer = tokenizer(None, None);
    for text in ["東京都", "すもももも", "ABC東京", "すもも　の"] {
        let full = tokenizer.tokenize(text, Some(false), None).unwrap();
        let split = tokenizer.tokenize(text, Some(true), None).unwrap();
        assert!(full.iter().all(|r| matches!(r, TokenizeResult::Token(_))));
        assert_eq!(surfaces(&split), surfaces(&full));
    }
}

#[test]
fn wakati_per_call() {
    let tokenizer = tokenizer(None, None);
    let results = tokenizer.tokenize("すもも", Some(true), None).unwrap();
    assert!(matches!(&results[0], TokenizeResult::Surface(s) if s == "すもも"));
    let results = tokenizer.tokenize("すもも", None, None).unwrap();
    assert!(matches!(&results[0], TokenizeResult::Token(_)));
}

#[test]
fn unknown_base_form_follows_flag() {
    let tokenizer = tokenizer(None, None);
    let with = tokenizer.tokenize("ABC", None, None).unwrap();
    match &with[0] {
        TokenizeResult::Token(t) => assert_eq!(t.base_form(), "ABC"),
        _ => panic!("expected a token"),
    }
    let without = tokenizer.tokenize("ABC", None, Some(false)).unwrap();
    match &without[0] {
        TokenizeResult::Token(t) => {
            assert_eq!(t.base_form(), "*");
            assert_eq!(t.infl_type(), "*");
            assert_eq!(t.infl_form(), "*");
        }
        _ => panic!("expected a token"),
    }
}

#[test]
fn empty_and_blank_text_give_no_tokens() {
    let tokenizer = tokenizer(None, None);
    assert!(tokenizer.tokenize("", None, None).unwrap().is_empty());
    assert!(tokenizer.tokenize(" \t\n　", None, None).unwrap().is_empty());
}

#[test]
fn ideographic_space_is_a_blank_symbol() {
    let tokenizer = tokenizer(None, None);
    let tokens = tokenizer.tokenize("もも　もも", None, None).unwrap();
    assert_eq!(surfaces(&tokens), vec!["もも", "　", "もも"]);
    match &tokens[1] {
        TokenizeResult::Token(t) => {
            assert_eq!(t.part_of_speech(), "記号,空白,*,*");
            assert_eq!(t.reading(), "　");
            assert_eq!(t.phonetic(), "");
        }
        _ => panic!("expected a token"),
    }
}

#[test]
fn unknown_word_length_is_limited() {
    let tokenizer = tokenizer(Some(3), None);
    let tokens = tokenizer.tokenize("ABCDEFG", None, None).unwrap();
    assert_eq!(surfaces(&tokens), vec!["ABC", "DEF", "G"]);
}

#[test]
fn kanji_unknown_words_are_at_most_two_characters() {
    let tokenizer = tokenizer(None, None);
    let tokens = tokenizer.tokenize("漢字話", None, Some(true)).unwrap();
    assert_eq!(surfaces(&tokens).concat(), "漢字話");
    assert!(tokens.iter().all(|t| t.surface().chars().count() <= 2));
}

#[test]
fn long_text_is_split_at_punctuation() {
    let tokenizer = tokenizer(None, Some(true));
    let text = format!("{}。{}", "あ".repeat(600), "い".repeat(10));
    let tokens = tokenizer.tokenize(&text, None, None).unwrap();
    assert_eq!(surfaces(&tokens).concat(), text);
}

#[test]
fn user_dictionary_words_come_first() {
    let user = UserDictionary::new(vec![entry("東京都", ID_NOUN, 100, "名詞,固有名詞,地域,一般", "トウキョウト")]);
    let tokenizer =
        Tokenizer::with_user_dict(system_dictionary(), Arc::new(user), None, None).unwrap();
    let tokens = tokenizer.tokenize("東京都", None, None).unwrap();
    assert_eq!(surfaces(&tokens), vec!["東京都"]);
    match &tokens[0] {
        TokenizeResult::Token(t) => {
            assert_eq!(t.node_type(), NodeType::UserDict);
            assert_eq!(t.reading(), "トウキョウト");
        }
        _ => panic!("expected a token"),
    }
}

#[test]
fn stream_hands_out_all_results_then_none() {
    let tokenizer = tokenizer(None, None);
    let mut it = tokenizer.tokenize_stream(" すもも2009 ", false, true);
    let mut got = Vec::new();
    while let Some(r) = it.next() {
        got.push(r.unwrap().surface().to_string());
    }
    assert_eq!(got, vec!["すもも", "2009"]);
    assert!(it.next().is_none());
}

#[test]
fn stream_and_tokenize_agree() {
    let tokenizer = tokenizer(None, None);
    for text in ["  東京都のすもも ", "ABC東京", "すもももももももものうち"] {
        let all = tokenizer.tokenize(text, Some(false), Some(true)).unwrap();
        let mut it = tokenizer.tokenize_stream(text, false, true);
        let mut streamed = Vec::new();
        while let Some(r) = it.next() {
            streamed.push(r.unwrap().to_string());
        }
        let whole: Vec<String> = all.iter().map(|r| r.to_string()).collect();
        assert_eq!(streamed, whole);
    }
}

#[test]
fn lazy_token_matches_eager_token() {
    let sys = system_dictionary();
    for i in 0..9usize {
        let entry = sys.get_entry(i).unwrap();
        let node = Node::new(entry, Some(i as u32), NodeType::SysDict);
        let lazy = Token::from_node_lazy(&node, &sys, None);
        let eager = Token::from_dict_node(&node);
        assert_eq!(lazy.surface(), eager.surface());
        assert_eq!(lazy.part_of_speech(), eager.part_of_speech());
        assert_eq!(lazy.infl_type(), eager.infl_type());
        assert_eq!(lazy.infl_form(), eager.infl_form());
        assert_eq!(lazy.base_form(), eager.base_form());
        assert_eq!(lazy.reading(), eager.reading());
        assert_eq!(lazy.phonetic(), eager.phonetic());
        assert_eq!(lazy.to_string(), eager.to_string());
    }
}

#[test]
fn lazy_token_without_index_holds_its_fields() {
    let sys = system_dictionary();
    let entry = sys.get_entry(1).unwrap();
    let plain = Node::new(entry, None, NodeType::SysDict);
    let fallback = Token::from_node_lazy(&plain, &sys, None);
    assert!(fallback.eq(&Token::from_dict_node(&plain)));
    let user_word = Node::new(entry, Some(1), NodeType::UserDict);
    let no_user = Token::from_node_lazy(&user_word, &sys, None);
    assert!(no_user.eq(&Token::from_dict_node(&user_word)));
    let indexed = Node::new(entry, Some(1), NodeType::SysDict);
    let lazy = Token::from_node_lazy(&indexed, &sys, None);
    assert!(!lazy.eq(&Token::from_dict_node(&indexed)));
    assert!(lazy.eq(&Token::from_node_lazy(&indexed, &sys, None)));
}

#[test]
fn finished_stream_stays_finished() {
    let tokenizer = tokenizer(None, None);
    let mut it = tokenizer.tokenize_stream("東京", false, true);
    while let Some(r) = it.next() {
        r.unwrap();
    }
    for _ in 0..3 {
        assert!(it.next().is_none());
    }
}

#[test]
fn every_result_has_a_surface() {
    let tokenizer = tokenizer(None, None);
    for text in ["東京都のすもも", "ABC　――東京", " 2009年 "] {
        for wakati in [false, true] {
            let results = tokenizer.tokenize(text, Some(wakati), None).unwrap();
            assert!(!results.is_empty());
            assert!(results.iter().all(|r| !r.surface().is_empty()));
        }
    }
}

#[test]
fn normalize_inflection_replaces_fullwidth_hyphen() {
    assert_eq!(normalize_inflection("五段\u{FF0D}カ行"), "五段\u{2212}カ行");
    assert_eq!(normalize_inflection("一段"), "一段");
    let t = Token::new(
        "x".to_string(),
        "名詞".to_string(),
        "a\u{FF0D}b".to_string(),
        "\u{FF0D}".to_string(),
        "x".to_string(),
        "*".to_string(),
        "*".to_string(),
        NodeType::SysDict,
    );
    assert_eq!(t.infl_type(), "a\u{2212}b");
    assert_eq!(t.infl_form(), "\u{2212}");
}

#[test]
fn is_all_kanji_ranges() {
    assert!(is_all_kanji("漢字"));
    assert!(is_all_kanji("\u{3400}\u{9FFF}\u{F900}\u{FAFF}"));
    assert!(!is_all_kanji("漢a"));
    assert!(!is_all_kanji("\u{33FF}"));
    assert!(is_all_kanji(""));
}

#[test]
fn surface_len_with_limit_cases() {
    assert_eq!(Tokenizer::surface_len_with_limit("abc", 3), Some(3));
    assert_eq!(Tokenizer::surface_len_with_limit("abcd", 3), None);
    assert_eq!(Tokenizer::surface_len_with_limit("", 3), None);
    assert_eq!(Tokenizer::surface_len_with_limit("abc", 0), None);
}
