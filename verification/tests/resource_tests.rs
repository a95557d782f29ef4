use runome::category::{CategoryId, CategoryIndex};
use runome::connection::PackedConnectionMatrix;
use runome::error::{RunomeError, ValidationIssue};
use runome::loader::{fst_file_path, validate_file_exists, validate_sysdic_directory, PathFacts};
use runome::morpheme_index::{parse_morpheme_index_header, MorphemeIndex, MorphemePackHeader};
use runome::resource::DictionaryResource;
use runome::types::{CharCategory, CharDefinitions, CodeRange, DictEntry, UnknownEntry};

// Left/right ids: 0 marks the sentence ends, 1 nouns, 2 suffixes, 3 particles, 4 symbols.
const ID_NOUN: u16 = 1;
const ID_SUFFIX: u16 = 2;
const ID_PARTICLE: u16 = 3;
const ID_SYMBOL: u16 = 4;

fn entry(surface: &str, id: u16, cost: i16, pos: &str, reading: &str) -> DictEntry {
    DictEntry {
        surface: surface.to_string(),
        left_id: id,
        right_id: id,
        cost,
        part_of_speech: pos.to_string(),
        inflection_type: "*".to_string(),
        inflection_form: "*".to_string(),
        base_form: surface.to_string(),
        reading: reading.to_string(),
        phonetic: reading.to_string(),
        surface_len: surface.chars().count() as u32,
    }
}

fn category(name: &str, invoke: bool, group: bool, length: u8) -> (String, CharCategory) {
    (name.to_string(), CharCategory { invoke, group, length })
}

fn range(from: u32, to: u32, name: &str, compat: &[&str]) -> CodeRange {
    CodeRange {
        from,
        to,
        category: name.to_string(),
        compat_categories: compat.iter().map(|s| s.to_string()).collect(),
    }
}

fn unknown(id: u16, cost: i16, pos: &str) -> UnknownEntry {
    UnknownEntry { left_id: id, right_id: id, cost, part_of_speech: pos.to_string() }
}

fn resource() -> DictionaryResource {
    let entries = vec![
        entry("年", ID_SUFFIX, 100, "名詞,接尾,助数詞,*", "ネン"),
        entry("すもも", ID_NOUN, 300, "名詞,一般,*,*", "スモモ"),
        entry("もも", ID_NOUN, 300, "名詞,一般,*,*", "モモ"),
        entry("も", ID_PARTICLE, 100, "助詞,係助詞,*,*", "モ"),
        entry("の", ID_PARTICLE, 100, "助詞,連体化,*,*", "ノ"),
        entry("うち", ID_NOUN, 300, "名詞,非自立,副詞可能,*", "ウチ"),
        entry("東京", ID_NOUN, 200, "名詞,固有名詞,地域,一般", "トウキョウ"),
        entry("東", ID_NOUN, 500, "名詞,一般,*,*", "ヒガシ"),
        entry("京都", ID_NOUN, 200, "名詞,固有名詞,地域,一般", "キョウト"),
    ];
    // A noun after a noun, or a particle after a particle, costs 1000; all else 0.
    let mut rows: Vec<Vec<i16>> = (0..5).map(|_| vec![0i16; 5]).collect();
    rows[ID_NOUN as usize][ID_NOUN as usize] = 1000;
    rows[ID_PARTICLE as usize][ID_PARTICLE as usize] = 1000;
    let connections = PackedConnectionMatrix::from_rows(&rows).unwrap();
    let char_defs = CharDefinitions {
        categories: vec![
            category("DEFAULT", false, true, 0),
            category("SPACE", false, true, 0),
            category("KANJI", false, false, 2),
            category("SYMBOL", true, true, 0),
            category("NUMERIC", true, true, 0),
            category("ALPHA", true, true, 0),
            category("HIRAGANA", false, true, 2),
            category("KATAKANA", true, true, 2),
            category("KANJINUMERIC", true, true, 0),
        ],
        code_ranges: vec![
            range(0x0020, 0x0020, "SPACE", &[]),
            range(0x0030, 0x0039, "NUMERIC", &[]),
            range(0x0041, 0x005A, "ALPHA", &[]),
            range(0x0061, 0x007A, "ALPHA", &[]),
            range(0x3000, 0x3000, "SPACE", &[]),
            range(0x3001, 0x3002, "SYMBOL", &[]),
            range(0x3041, 0x309F, "HIRAGANA", &[]),
            range(0x30A1, 0x30FF, "KATAKANA", &[]),
            range(0x4E00, 0x9FFF, "KANJI", &[]),
            range(0x4E94, 0x4E94, "KANJINUMERIC", &["KANJI"]),
        ],
    };
    let unknowns = vec![
        ("DEFAULT".to_string(), vec![unknown(ID_SYMBOL, 5000, "記号,一般,*,*")]),
        ("SPACE".to_string(), vec![unknown(ID_SYMBOL, 1000, "記号,空白,*,*")]),
        ("KANJI".to_string(), vec![unknown(ID_NOUN, 3000, "名詞,一般,*,*")]),
        ("SYMBOL".to_string(), vec![unknown(ID_SYMBOL, 2000, "記号,一般,*,*")]),
        ("NUMERIC".to_string(), vec![unknown(ID_NOUN, 500, "名詞,数,*,*")]),
        (
            "ALPHA".to_string(),
            vec![
                unknown(ID_NOUN, 900, "名詞,一般,*,*"),
                unknown(ID_NOUN, 800, "名詞,固有名詞,組織,*"),
            ],
        ),
        ("HIRAGANA".to_string(), vec![unknown(ID_NOUN, 4000, "名詞,一般,*,*")]),
        ("KATAKANA".to_string(), vec![unknown(ID_NOUN, 1500, "名詞,一般,*,*")]),
        ("KANJINUMERIC".to_string(), vec![unknown(ID_NOUN, 1000, "名詞,数,*,*")]),
    ];
    let morpheme_index = MorphemeIndex::from_vectors(Vec::new());
    DictionaryResource::from_parts(entries, connections, char_defs, unknowns, morpheme_index)
        .expect("fixture dictionary is consistent")
}


fn compat<'a>(cats: &'a [(String, Vec<String>)], name: &str) -> Option<&'a Vec<String>> {
    cats.iter().find(|(n, _)| n == name).map(|(_, c)| c)
}

fn facts(display: &str, exists: bool, is_dir: bool, is_file: bool) -> PathFacts {
    PathFacts { display: display.to_string(), exists, is_dir, is_file }
}

#[test]
fn test_validate_data() {
    let dict = resource();
    let result = dict.validate();
    assert!(result.is_ok(), "Dictionary validation failed: {:?}", result.err());
}

#[test]
fn test_get_entries() {
    let dict = resource();
    let entries = dict.get_entries();
    assert!(!entries.is_empty(), "Should have dictionary entries");
    for entry in entries.iter().take(5) {
        assert!(!entry.part_of_speech.is_empty(), "Entry should have part of speech");
        assert!(!entry.reading.is_empty(), "Entry should have reading");
    }
}

#[test]
fn test_connection_costs() {
    let dict = resource();
    let cost_result = dict.get_connection_cost(0, 0);
    assert!(cost_result.is_ok(), "Should be able to get connection cost for valid indices");
    let cost = cost_result.unwrap();
    assert!((-10000..=10000).contains(&cost), "Connection cost should be reasonable: {}", cost);

    let max_id = (dict.connections.rows() - 1) as u16;
    let boundary_cost = dict.get_connection_cost(max_id, max_id);
    assert!(boundary_cost.is_ok(), "Should be able to get connection cost for boundary indices");

    let invalid_cost = dict.get_connection_cost(max_id + 1, 0);
    assert!(invalid_cost.is_err(), "Should fail for invalid indices");
}

#[test]
fn test_char_categories() {
    let dict = resource();
    let test_chars = ['あ', 'ア', '漢', 'A', '1'];
    for ch in test_chars {
        let category = dict.get_char_category(ch);
        assert!(category.is_some(), "Character '{}' should have a category", ch);
        let cat = category.unwrap();
        assert!(cat.length <= 10, "Character '{}' category length should be reasonable: {}", ch, cat.length);
    }
}

#[test]
fn test_char_category_mask_matches_ids() {
    let dict = resource();
    let sample_chars = ['は', '漢', 'A', '0', '🙂'];
    for ch in sample_chars {
        let ids_from_api = dict.get_char_category_ids(ch);
        let mut ids_from_mask: Vec<CategoryId> = dict.get_char_category_mask(ch).iter();
        ids_from_mask.sort_unstable();
        let mut ids_api_sorted = ids_from_api.clone();
        ids_api_sorted.sort_unstable();
        assert_eq!(ids_from_mask, ids_api_sorted, "Category mask mismatch for character '{}'", ch);
    }
}

#[test]
fn test_get_char_categories_multiple() {
    let dict = resource();

    let categories_ha = dict.get_char_categories('は');
    assert!(compat(&categories_ha, "HIRAGANA").is_some(), "Character 'は' should have HIRAGANA category");
    assert_eq!(
        compat(&categories_ha, "HIRAGANA").unwrap(),
        &Vec::<String>::new(),
        "HIRAGANA category should have empty compatible categories"
    );

    let categories_ka = dict.get_char_categories('ハ');
    assert!(compat(&categories_ka, "KATAKANA").is_some(), "Character 'ハ' should have KATAKANA category");

    let categories_go = dict.get_char_categories('五');
    assert!(compat(&categories_go, "KANJI").is_some(), "Character '五' should have KANJI category");
    assert!(compat(&categories_go, "KANJINUMERIC").is_some(), "Character '五' should have KANJINUMERIC category");
    let kanjinumeric_compat = compat(&categories_go, "KANJINUMERIC").unwrap();
    assert!(
        kanjinumeric_compat.contains(&"KANJI".to_string()),
        "KANJINUMERIC should have KANJI as compatible category"
    );

    let categories_unknown = dict.get_char_categories('𠮷');
    if categories_unknown.len() == 1 && compat(&categories_unknown, "DEFAULT").is_some() {
        assert_eq!(
            compat(&categories_unknown, "DEFAULT").unwrap(),
            &Vec::<String>::new(),
            "DEFAULT category should have empty compatible categories"
        );
    }
}

#[test]
fn test_unknown_word_properties() {
    let dict = resource();
    assert!(!dict.unknown_invoked_always("HIRAGANA"));
    assert!(dict.unknown_grouping("HIRAGANA"));
    assert_eq!(dict.unknown_length("HIRAGANA"), 2);

    assert!(dict.unknown_invoked_always("KATAKANA"));
    assert!(dict.unknown_grouping("KATAKANA"));
    assert_eq!(dict.unknown_length("KATAKANA"), 2);

    assert!(!dict.unknown_invoked_always("KANJI"));
    assert!(!dict.unknown_grouping("KANJI"));
    assert_eq!(dict.unknown_length("KANJI"), 2);

    assert!(dict.unknown_invoked_always("ALPHA"));
    assert!(dict.unknown_grouping("ALPHA"));
    assert_eq!(dict.unknown_length("ALPHA"), 0);

    assert!(dict.unknown_invoked_always("NUMERIC"));
    assert!(dict.unknown_grouping("NUMERIC"));
    assert_eq!(dict.unknown_length("NUMERIC"), 0);

    assert!(!dict.unknown_invoked_always("NONEXISTENT"));
    assert!(!dict.unknown_grouping("NONEXISTENT"));
    assert_eq!(dict.unknown_length("NONEXISTENT"), -1);
}

#[test]
fn test_unknown_entries() {
    let dict = resource();
    assert!(!dict.unknowns.is_empty(), "Should have unknown entry categories");
    for (category, _) in dict.unknowns.iter() {
        let entries = dict.get_unknown_entries(category).unwrap();
        assert!(!entries.is_empty(), "Category '{}' should have entries", category);
        for entry in entries {
            assert!(!entry.part_of_speech.is_empty(), "Unknown entry should have part of speech");
        }
    }
    let nonexistent = dict.get_unknown_entries("NONEXISTENT_CATEGORY");
    assert!(nonexistent.is_none(), "Should return None for non-existent category");
}

#[test]
fn test_load_missing_directory() {
    let result = validate_sysdic_directory(&facts("/definitely/nonexistent/directory", false, false, false));
    assert!(result.is_err(), "Should fail when loading non-existent directory");
    if let Err(error) = result {
        match error {
            RunomeError::DictDirectoryNotFound { .. } => {}
            _ => panic!("Expected DictDirectoryNotFound error, got: {:?}", error),
        }
    }
}

#[test]
fn test_data_consistency() {
    let dict = resource();
    let matrix_view = dict.connection_matrix_view();
    for row_index in 0..matrix_view.rows() {
        let row = matrix_view.row(row_index).expect("Connection matrix row missing");
        assert_eq!(row.len(), matrix_view.cols(), "Connection matrix row {} has inconsistent length", row_index);
    }
    let max_id = if matrix_view.rows() > 0 { (matrix_view.rows() - 1) as u16 } else { 0 };
    for (i, entry) in dict.entries.iter().enumerate() {
        assert!(entry.left_id <= max_id, "Entry {} has left_id {} exceeding matrix bounds (max: {})", i, entry.left_id, max_id);
        assert!(entry.right_id <= max_id, "Entry {} has right_id {} exceeding matrix bounds (max: {})", i, entry.right_id, max_id);
    }
    for range in &dict.char_defs.code_ranges {
        assert!(
            dict.char_defs.categories.iter().any(|(n, _)| n == &range.category),
            "Code range references non-existent category: {}",
            range.category
        );
    }
}

// Checks of a dictionary directory and its files.

#[test]
fn directory_that_is_a_file_is_rejected() {
    let result = validate_sysdic_directory(&facts("dic", true, false, true));
    match result {
        Err(RunomeError::DictValidationError { reason: ValidationIssue::NotADirectory { path } }) => {
            assert_eq!(path, "dic")
        }
        other => panic!("unexpected {:?}", other),
    }
    assert!(validate_sysdic_directory(&facts("dic", true, true, false)).is_ok());
}

#[test]
fn file_checks_come_after_directory_checks() {
    let dir = facts("sysdic", true, true, false);
    let missing = facts("sysdic/entries.bin", false, false, false);
    match validate_file_exists(&dir, "entries.bin", &missing) {
        Err(RunomeError::DictFileMissing { filename }) => assert_eq!(filename, "entries.bin"),
        other => panic!("unexpected {:?}", other),
    }
    let is_dir = facts("sysdic/entries.bin", true, true, false);
    match validate_file_exists(&dir, "entries.bin", &is_dir) {
        Err(RunomeError::DictValidationError { reason: ValidationIssue::NotAFile { path } }) => {
            assert_eq!(path, "sysdic/entries.bin")
        }
        other => panic!("unexpected {:?}", other),
    }
    let file = facts("sysdic/entries.bin", true, false, true);
    assert_eq!(validate_file_exists(&dir, "entries.bin", &file).unwrap(), "sysdic/entries.bin");
    let no_dir = facts("sysdic", false, false, false);
    assert!(matches!(
        validate_file_exists(&no_dir, "entries.bin", &file),
        Err(RunomeError::DictDirectoryNotFound { .. })
    ));
}

#[test]
fn fst_file_is_dic_fst() {
    let dir = facts("sysdic", true, true, false);
    let missing = facts("sysdic/dic.fst", false, false, false);
    match fst_file_path(&dir, &missing) {
        Err(RunomeError::DictFileMissing { filename }) => assert_eq!(filename, "dic.fst"),
        other => panic!("unexpected {:?}", other),
    }
    let file = facts("sysdic/dic.fst", true, false, true);
    assert_eq!(fst_file_path(&dir, &file).unwrap(), "sysdic/dic.fst");
}

#[test]
fn a_far_range_still_gives_its_category() {
    let mut code_ranges = vec![range(0, 1000, "WIDE", &[])];
    for _ in 0..40 {
        code_ranges.push(range(1, 1, "NARROW", &[]));
    }
    let defs = CharDefinitions {
        categories: vec![
            category("DEFAULT", false, true, 0),
            category("WIDE", false, true, 0),
            category("NARROW", false, true, 0),
        ],
        code_ranges,
    };
    let index = CategoryIndex::new(&defs).unwrap();
    let wide = index.category_id("WIDE").unwrap();
    let narrow = index.category_id("NARROW").unwrap();
    let default = index.category_id("DEFAULT").unwrap();
    let m5 = index.category_mask_for_char('\u{5}');
    assert!(m5.contains(wide));
    assert!(!m5.contains(narrow));
    let m1 = index.category_mask_for_char('\u{1}');
    assert!(m1.contains(wide));
    assert!(m1.contains(narrow));
    let far = index.category_mask_for_char('\u{2000}');
    assert!(far.contains(default));
    assert!(!far.contains(wide));
}

fn morpheme_pack(lists: &[&[u32]]) -> Vec<u8> {
    let mut bytes = b"RNMI".to_vec();
    bytes.extend_from_slice(&1u16.to_le_bytes());
    let values: Vec<u32> = lists.iter().flat_map(|l| l.iter().copied()).collect();
    bytes.extend_from_slice(&(lists.len() as u32).to_le_bytes());
    bytes.extend_from_slice(&(values.len() as u32).to_le_bytes());
    let mut at = 0u32;
    bytes.extend_from_slice(&at.to_le_bytes());
    for l in lists {
        at += l.len() as u32;
        bytes.extend_from_slice(&at.to_le_bytes());
    }
    for v in values {
        bytes.extend_from_slice(&v.to_le_bytes());
    }
    bytes
}

#[test]
fn well_formed_morpheme_pack_gives_its_header() {
    let bytes = morpheme_pack(&[&[7, 8], &[], &[9]]);
    let h = parse_morpheme_index_header(&bytes).unwrap();
    assert_eq!(h.entry_count, 3);
    assert_eq!(h.value_count, 3);
    assert_eq!(h.offsets_offset, 14);
    assert_eq!(h.values_offset, 18 + 4 * 3);
    // The offset table at byte 14 cannot be read in place.
    match MorphemeIndex::from_pack_header(&bytes, h) {
        Err(RunomeError::DictValidationError { reason: ValidationIssue::MisalignedMorphemeIndex }) => {}
        other => panic!("expected a misalignment error, got {:?}", other),
    }
}

#[test]
fn morpheme_pack_of_wrong_size_is_refused() {
    let mut bytes = morpheme_pack(&[&[1]]);
    bytes.push(0);
    assert!(matches!(
        parse_morpheme_index_header(&bytes),
        Err(RunomeError::DictValidationError { reason: ValidationIssue::PackSizeMismatch { .. } })
    ));
    assert!(matches!(
        parse_morpheme_index_header(b"XXXX\x01\x00\x00\x00\x00\x00\x00\x00\x00\x00"),
        Err(RunomeError::DictValidationError { reason: ValidationIssue::InvalidMagic { .. } })
    ));
}

#[test]
fn aligned_morpheme_pack_reads_its_lists() {
    // Offsets at 16 and values at 32: two lists, [5] and [6, 7].
    let mut bytes = vec![0u8; 16];
    for o in [0u32, 1, 3, 0] {
        bytes.extend_from_slice(&o.to_le_bytes());
    }
    for v in [5u32, 6, 7] {
        bytes.extend_from_slice(&v.to_le_bytes());
    }
    let h = MorphemePackHeader { entry_count: 2, value_count: 3, offsets_offset: 16, values_offset: 32 };
    let index = MorphemeIndex::from_pack_header(&bytes, h).unwrap();
    assert_eq!(index.len(), 2);
    assert_eq!(index.get(0), &[5]);
    assert_eq!(index.get(1), &[6, 7]);
}

#[test]
fn category_ids_and_names_round_trip() {
    let r = resource();
    let index = &r.category_index;
    for i in 0..index.len() {
        let id = i as CategoryId;
        let name = index.category_name(id).to_string();
        assert_eq!(index.category_id(&name), Some(id));
    }
    assert_eq!(index.category_id("NO_SUCH_CATEGORY"), None);
}
