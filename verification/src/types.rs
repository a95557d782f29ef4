use vstd::prelude::*;

verus! {

/// One entry of a morphological dictionary.
#[derive(Debug, Clone)]
pub struct DictEntry {
    pub surface: String,
    pub left_id: u16,
    pub right_id: u16,
    pub cost: i16,
    pub part_of_speech: String,
    pub inflection_type: String,
    pub inflection_form: String,
    pub base_form: String,
    pub reading: String,
    pub phonetic: String,
    /// Length of `surface` in characters.
    pub surface_len: u32,
}

/// How unknown words of a character category are built.
#[derive(Debug, Clone, Copy, PartialEq, Eq)]
pub struct CharCategory {
    /// Build unknown words even where a dictionary word matches.
    pub invoke: bool,
    /// Group consecutive characters of the category into one word.
    pub group: bool,
    /// Longest unknown word (in characters) when not grouping.
    pub length: u8,
}

/// A range of code points and the category it belongs to.
#[derive(Debug, Clone)]
pub struct CodeRange {
    pub from: u32,
    pub to: u32,
    pub category: String,
    pub compat_categories: Vec<String>,
}

/// Character definitions: named categories and code point ranges.
#[derive(Debug, Clone)]
pub struct CharDefinitions {
    /// Categories by name; no name occurs twice.
    pub categories: Vec<(String, CharCategory)>,
    pub code_ranges: Vec<CodeRange>,
}

/// A template for unknown words of one category.
#[derive(Debug, Clone)]
pub struct UnknownEntry {
    pub left_id: u16,
    pub right_id: u16,
    pub cost: i16,
    pub part_of_speech: String,
}

/// Unknown word templates by category name; no name occurs twice.
pub type UnknownEntries = Vec<(String, Vec<UnknownEntry>)>;

impl CharDefinitions {
    /// The category names, in their stored order.
    pub open spec fn names(&self) -> Seq<Seq<char>> {
        self.categories@.map_values(|c: (String, CharCategory)| c.0@)
    }

    /// No category name occurs twice.
    pub open spec fn wf(&self) -> bool {
        forall|i: int, j: int|
            0 <= i < j < self.categories.len() ==> #[trigger] self.categories@[i].0@
                != #[trigger] self.categories@[j].0@
    }
}

} // verus!
