use vstd::prelude::*;

use std::sync::Arc;

use crate::dictionary::{SystemDictionary, UserDictionary};
use crate::lattice::{asterisk, asterisk_string, LatticeNode, Node, NodeType};
use crate::types::DictEntry;

verus! {

/// Appends `c` to `s`.
#[verifier::external_body]
pub(crate) fn push_char(s: &mut String, c: char)
    ensures
        final(s)@ == old(s)@.push(c),
{
    s.push(c);
}

/// A second handle on the value behind `a`.
#[verifier::external_body]
pub(crate) fn share<T>(a: &Arc<T>) -> (b: Arc<T>)
    ensures
        *b == **a,
{
    Arc::clone(a)
}

/// Whether `a` and `b` point to the same allocation (`Arc::ptr_eq`); if they do, they
/// hold the same value.
#[verifier::external_body]
fn same_arc<T>(a: &Arc<T>, b: &Arc<T>) -> (r: bool)
    ensures
        r ==> **a == **b,
{
    Arc::ptr_eq(a, b)
}

/// The string of the characters `chars`.
pub fn string_from_chars(chars: &[char]) -> (s: String)
    ensures
        s@ == chars@,
{
    let mut s = String::new();
    let mut i: usize = 0;
    while i < chars.len()
        invariant
            i <= chars.len(),
            s@ == chars@.take(i as int),
        decreases chars.len() - i,
    {
        push_char(&mut s, chars[i]);
        i = i + 1;
        proof {
            assert(s@ =~= chars@.take(i as int));
        }
    }
    proof {
        assert(chars@.take(chars.len() as int) =~= chars@);
    }
    s
}

/// `c` with the full-width hyphen-minus replaced by the minus sign.
pub open spec fn normalized_char(c: char) -> char {
    if c == '\u{FF0D}' {
        '\u{2212}'
    } else {
        c
    }
}

/// `s` with every full-width hyphen-minus (U+FF0D) replaced by the minus sign (U+2212).
pub open spec fn normalized(s: Seq<char>) -> Seq<char> {
    s.map_values(|c: char| normalized_char(c))
}

/// `value` with every full-width hyphen-minus replaced by the minus sign, as
/// inflection fields are shown.
pub fn normalize_inflection(value: &str) -> (s: String)
    ensures
        s@ == normalized(value@),
{
    let chars = crate::text::str_chars(value);
    let mut s = String::new();
    let mut i: usize = 0;
    while i < chars.len()
        invariant
            i <= chars.len(),
            chars@ == value@,
            s@ == normalized(chars@.take(i as int)),
        decreases chars.len() - i,
    {
        let c = chars[i];
        let d = if c == '\u{FF0D}' {
            '\u{2212}'
        } else {
            c
        };
        push_char(&mut s, d);
        i = i + 1;
        proof {
            assert(normalized(chars@.take(i as int)) =~= normalized(chars@.take(i - 1)).push(d));
        }
    }
    proof {
        assert(chars@.take(chars.len() as int) =~= chars@);
    }
    s
}

/// What a token says: its surface, its morphological fields and where it comes from.
pub struct TokenView {
    pub surface: Seq<char>,
    pub part_of_speech: Seq<char>,
    pub infl_type: Seq<char>,
    pub infl_form: Seq<char>,
    pub base_form: Seq<char>,
    pub reading: Seq<char>,
    pub phonetic: Seq<char>,
    pub node_type: NodeType,
}

/// The fields of a dictionary entry, as a token with surface `surface` shows them.
pub open spec fn entry_token(surface: Seq<char>, e: DictEntry, node_type: NodeType) -> TokenView {
    TokenView {
        surface,
        part_of_speech: e.part_of_speech@,
        infl_type: normalized(e.inflection_type@),
        infl_form: normalized(e.inflection_form@),
        base_form: e.base_form@,
        reading: e.reading@,
        phonetic: e.phonetic@,
        node_type,
    }
}

/// A token with surface `surface` whose entry is missing: all its fields are `*`.
pub open spec fn missing_entry_token(surface: Seq<char>, node_type: NodeType) -> TokenView {
    TokenView {
        surface,
        part_of_speech: asterisk(),
        infl_type: asterisk(),
        infl_form: asterisk(),
        base_form: asterisk(),
        reading: asterisk(),
        phonetic: asterisk(),
        node_type,
    }
}

/// The token that a node gives with all its fields copied.
pub open spec fn dict_node_token<N: LatticeNode>(node: N) -> TokenView {
    TokenView {
        surface: node.surface_view(),
        part_of_speech: node.part_of_speech_view(),
        infl_type: normalized(node.inflection_type_view()),
        infl_form: normalized(node.inflection_form_view()),
        base_form: node.base_form_view(),
        reading: node.reading_view(),
        phonetic: node.phonetic_view(),
        node_type: node.node_type_view(),
    }
}

/// The token that an unknown word gives: no inflection, and a base form that is the
/// surface or `*`.
pub open spec fn unknown_node_token<N: LatticeNode>(node: N, baseform_unk: bool) -> TokenView {
    TokenView {
        surface: node.surface_view(),
        part_of_speech: node.part_of_speech_view(),
        infl_type: asterisk(),
        infl_form: asterisk(),
        base_form: if baseform_unk {
            node.surface_view()
        } else {
            asterisk()
        },
        reading: node.reading_view(),
        phonetic: node.phonetic_view(),
        node_type: node.node_type_view(),
    }
}

/// The token read from entry `index` of `entries`, or all `*` when there is none.
pub open spec fn indexed_token(
    surface: Seq<char>,
    entries: Seq<DictEntry>,
    index: u32,
    node_type: NodeType,
) -> TokenView {
    if (index as int) < entries.len() {
        entry_token(surface, entries[index as int], node_type)
    } else {
        missing_entry_token(surface, node_type)
    }
}

/// The token that a node gives when its fields are read from the dictionaries: a
/// dictionary word with an index reads its entry, any other node is copied.
pub open spec fn lazy_node_token<N: LatticeNode>(
    node: N,
    sys: SystemDictionary,
    user: Option<UserDictionary>,
) -> TokenView {
    match node.entry_index_view() {
        Some(i) => match node.node_type_view() {
            NodeType::SysDict => indexed_token(
                node.surface_view(),
                sys.resource.entries@,
                i,
                NodeType::SysDict,
            ),
            NodeType::UserDict => match user {
                Some(u) => indexed_token(node.surface_view(), u.entries@, i, NodeType::UserDict),
                None => dict_node_token(node),
            },
            NodeType::Unknown => dict_node_token(node),
        },
        None => dict_node_token(node),
    }
}

/// The dictionary word `node` holds the entry that its index names in the dictionary
/// of its kind.
pub open spec fn entry_at_index(node: Node, sys: SystemDictionary, user: Option<UserDictionary>) -> bool {
    match node.entry_index {
        Some(i) => match node.node_type {
            NodeType::SysDict => (i as int) < sys.resource.entries.len() && sys.resource.entries@[i as int]
                == *node.entry,
            NodeType::UserDict => match user {
                Some(u) => (i as int) < u.entries.len() && u.entries@[i as int] == *node.entry,
                None => true,
            },
            NodeType::Unknown => true,
        },
        None => true,
    }
}

/// A token that reads a dictionary word's fields from the dictionary when they are
/// asked for has the fields that copying them from the word gives.
pub proof fn lemma_lazy_token_is_eager(node: Node, sys: SystemDictionary, user: Option<UserDictionary>)
    requires
        entry_at_index(node, sys, user),
    ensures
        lazy_node_token(node, sys, user) == dict_node_token(node),
{
}

/// Where a token's fields are kept.
#[derive(Debug, Clone)]
pub enum TokenData {
    /// The token holds its fields.
    Owned {
        part_of_speech: String,
        infl_type: String,
        infl_form: String,
        base_form: String,
        reading: String,
        phonetic: String,
    },
    /// The fields are those of an entry of the system dictionary.
    LazySys { dic: Arc<SystemDictionary>, index: u32 },
    /// The fields are those of an entry of a user dictionary.
    LazyUser { dic: Arc<UserDictionary>, index: u32 },
}

/// A morpheme: its surface and its morphological information.
#[derive(Debug, Clone)]
pub struct Token {
    surface: String,
    node_type: NodeType,
    data: TokenData,
}

impl View for Token {
    type V = TokenView;

    closed spec fn view(&self) -> TokenView {
        match self.data {
            TokenData::Owned {
                part_of_speech,
                infl_type,
                infl_form,
                base_form,
                reading,
                phonetic,
            } => TokenView {
                surface: self.surface@,
                part_of_speech: part_of_speech@,
                infl_type: infl_type@,
                infl_form: infl_form@,
                base_form: base_form@,
                reading: reading@,
                phonetic: phonetic@,
                node_type: self.node_type,
            },
            TokenData::LazySys { dic, index } => indexed_token(
                self.surface@,
                dic.resource.entries@,
                index,
                self.node_type,
            ),
            TokenData::LazyUser { dic, index } => indexed_token(
                self.surface@,
                dic.entries@,
                index,
                self.node_type,
            ),
        }
    }
}

impl Token {
    /// A token that holds all the fields of `node`, inflections normalized.
    pub fn from_dict_node<N: LatticeNode>(node: &N) -> (t: Self)
        ensures
            t@ == dict_node_token(*node),
            t.is_owned(),
    {
        Token {
            surface: String::from_str(node.surface()),
            node_type: node.node_type(),
            data: TokenData::Owned {
                part_of_speech: String::from_str(node.part_of_speech()),
                infl_type: normalize_inflection(node.inflection_type()),
                infl_form: normalize_inflection(node.inflection_form()),
                base_form: String::from_str(node.base_form()),
                reading: String::from_str(node.reading()),
                phonetic: String::from_str(node.phonetic()),
            },
        }
    }

    /// A token that reads its fields from the dictionary the node's entry belongs to,
    /// when the node is a dictionary word with an index (and, for a user word, a user
    /// dictionary is given); else one that holds all the fields of `node`.
    pub fn from_node_lazy<N: LatticeNode>(
        node: &N,
        sys_dic: &Arc<SystemDictionary>,
        user_dic: Option<&Arc<UserDictionary>>,
    ) -> (t: Self)
        ensures
            t@ == lazy_node_token(
                *node,
                **sys_dic,
                match user_dic {
                    Some(u) => Some(**u),
                    None => None,
                },
            ),
            t.is_owned() <==> !(node.entry_index_view() is Some && (node.node_type_view() == NodeType::SysDict
                || (node.node_type_view() == NodeType::UserDict && user_dic is Some))),
            !t.is_owned() ==> t.entry_read() == node.entry_index_view() && t.reads_user() == (
            node.node_type_view() == NodeType::UserDict),
    {
        if let Some(index) = node.entry_index() {
            match node.node_type() {
                NodeType::SysDict => {
                    return Token {
                        surface: String::from_str(node.surface()),
                        node_type: NodeType::SysDict,
                        data: TokenData::LazySys { dic: share(sys_dic), index },
                    };
                },
                NodeType::UserDict => {
                    if let Some(udic) = user_dic {
                        return Token {
                            surface: String::from_str(node.surface()),
                            node_type: NodeType::UserDict,
                            data: TokenData::LazyUser { dic: share(udic), index },
                        };
                    }
                },
                _ => {},
            }
        }
        Self::from_dict_node(node)
    }

    /// A token for an unknown word: no inflection, and the surface as base form when
    /// `baseform_unk`, else `*`.
    pub fn from_unknown_node<N: LatticeNode>(node: &N, baseform_unk: bool) -> (t: Self)
        ensures
            t@ == unknown_node_token(*node, baseform_unk),
    {
        let base_form = if baseform_unk {
            String::from_str(node.surface())
        } else {
            asterisk_string()
        };
        Token {
            surface: String::from_str(node.surface()),
            node_type: node.node_type(),
            data: TokenData::Owned {
                part_of_speech: String::from_str(node.part_of_speech()),
                infl_type: asterisk_string(),
                infl_form: asterisk_string(),
                base_form,
                reading: String::from_str(node.reading()),
                phonetic: String::from_str(node.phonetic()),
            },
        }
    }

    /// A token with the given fields, inflections normalized.
    pub fn new(
        surface: String,
        part_of_speech: String,
        infl_type: String,
        infl_form: String,
        base_form: String,
        reading: String,
        phonetic: String,
        node_type: NodeType,
    ) -> (t: Self)
        ensures
            t@ == (TokenView {
                surface: surface@,
                part_of_speech: part_of_speech@,
                infl_type: normalized(infl_type@),
                infl_form: normalized(infl_form@),
                base_form: base_form@,
                reading: reading@,
                phonetic: phonetic@,
                node_type,
            }),
    {
        Token {
            surface,
            node_type,
            data: TokenData::Owned {
                part_of_speech,
                infl_type: normalize_inflection(infl_type.as_str()),
                infl_form: normalize_inflection(infl_form.as_str()),
                base_form,
                reading,
                phonetic,
            },
        }
    }

    /// The token holds its fields itself.
    pub closed spec fn is_owned(&self) -> bool {
        self.data is Owned
    }

    /// The index of the entry that the token reads its fields from, if it reads them.
    pub closed spec fn entry_read(&self) -> Option<u32> {
        match self.data {
            TokenData::LazySys { index, .. } => Some(index),
            TokenData::LazyUser { index, .. } => Some(index),
            TokenData::Owned { .. } => None,
        }
    }

    /// The token reads its fields from a user dictionary.
    pub closed spec fn reads_user(&self) -> bool {
        self.data is LazyUser
    }

    /// Whether two tokens are equal: same surface, node type and fields when both hold
    /// their fields; same surface, node type, dictionary handle and entry index when
    /// both read an entry.
    pub fn eq(&self, other: &Token) -> (r: bool)
        ensures
            r ==> self@ == other@,
            self.is_owned() && other.is_owned() ==> (r <==> self@ == other@),
            self.is_owned() != other.is_owned() ==> !r,
    {
        if !crate::text::str_eq(self.surface.as_str(), other.surface.as_str()) {
            return false;
        }
        if self.node_type != other.node_type {
            return false;
        }
        match (&self.data, &other.data) {
            (
                TokenData::Owned {
                    part_of_speech: p1,
                    infl_type: i1,
                    infl_form: f1,
                    base_form: b1,
                    reading: r1,
                    phonetic: ph1,
                },
                TokenData::Owned {
                    part_of_speech: p2,
                    infl_type: i2,
                    infl_form: f2,
                    base_form: b2,
                    reading: r2,
                    phonetic: ph2,
                },
            ) => *p1 == *p2 && *i1 == *i2 && *f1 == *f2 && *b1 == *b2 && *r1 == *r2 && *ph1 == *ph2,
            (TokenData::LazySys { dic: d1, index: i1 }, TokenData::LazySys { dic: d2, index: i2 }) => {
                same_arc(d1, d2) && *i1 == *i2
            },
            (TokenData::LazyUser { dic: d1, index: i1 }, TokenData::LazyUser { dic: d2, index: i2 }) => {
                same_arc(d1, d2) && *i1 == *i2
            },
            _ => false,
        }
    }

    pub fn surface(&self) -> (s: &str)
        ensures
            s@ == self@.surface,
    {
        self.surface.as_str()
    }

    fn field(&self, which: u8) -> (s: String)
        requires
            which < 6,
        ensures
            which == 0 ==> s@ == self@.part_of_speech,
            which == 1 ==> s@ == self@.infl_type,
            which == 2 ==> s@ == self@.infl_form,
            which == 3 ==> s@ == self@.base_form,
            which == 4 ==> s@ == self@.reading,
            which == 5 ==> s@ == self@.phonetic,
    {
        match &self.data {
            TokenData::Owned {
                part_of_speech,
                infl_type,
                infl_form,
                base_form,
                reading,
                phonetic,
            } => {
                if which == 0 {
                    part_of_speech.clone()
                } else if which == 1 {
                    infl_type.clone()
                } else if which == 2 {
                    infl_form.clone()
                } else if which == 3 {
                    base_form.clone()
                } else if which == 4 {
                    reading.clone()
                } else {
                    phonetic.clone()
                }
            },
            TokenData::LazySys { dic, index } => match dic.get_entry(*index as usize) {
                Some(e) => entry_field(e, which),
                None => asterisk_string(),
            },
            TokenData::LazyUser { dic, index } => match dic.get_entry(*index as usize) {
                Some(e) => entry_field(e, which),
                None => asterisk_string(),
            },
        }
    }

    pub fn part_of_speech(&self) -> (s: String)
        ensures
            s@ == self@.part_of_speech,
    {
        self.field(0)
    }

    pub fn infl_type(&self) -> (s: String)
        ensures
            s@ == self@.infl_type,
    {
        self.field(1)
    }

    pub fn infl_form(&self) -> (s: String)
        ensures
            s@ == self@.infl_form,
    {
        self.field(2)
    }

    pub fn base_form(&self) -> (s: String)
        ensures
            s@ == self@.base_form,
    {
        self.field(3)
    }

    pub fn reading(&self) -> (s: String)
        ensures
            s@ == self@.reading,
    {
        self.field(4)
    }

    pub fn phonetic(&self) -> (s: String)
        ensures
            s@ == self@.phonetic,
    {
        self.field(5)
    }

    pub fn node_type(&self) -> (t: NodeType)
        ensures
            t == self@.node_type,
    {
        self.node_type
    }

    /// The token as a line of output:
    /// `surface\tpart_of_speech,infl_type,infl_form,base_form,reading,phonetic`.
    pub fn to_string(&self) -> (s: String)
        ensures
            s@ == token_line(self@),
    {
        let mut s = String::from_str(self.surface.as_str());
        push_char(&mut s, '\t');
        s.append(self.part_of_speech().as_str());
        push_char(&mut s, ',');
        s.append(self.infl_type().as_str());
        push_char(&mut s, ',');
        s.append(self.infl_form().as_str());
        push_char(&mut s, ',');
        s.append(self.base_form().as_str());
        push_char(&mut s, ',');
        s.append(self.reading().as_str());
        push_char(&mut s, ',');
        s.append(self.phonetic().as_str());
        s
    }
}

/// Field `which` of entry `e` as a token shows it.
fn entry_field(e: &DictEntry, which: u8) -> (s: String)
    requires
        which < 6,
    ensures
        which == 0 ==> s@ == e.part_of_speech@,
        which == 1 ==> s@ == normalized(e.inflection_type@),
        which == 2 ==> s@ == normalized(e.inflection_form@),
        which == 3 ==> s@ == e.base_form@,
        which == 4 ==> s@ == e.reading@,
        which == 5 ==> s@ == e.phonetic@,
{
    if which == 0 {
        e.part_of_speech.clone()
    } else if which == 1 {
        normalize_inflection(e.inflection_type.as_str())
    } else if which == 2 {
        normalize_inflection(e.inflection_form.as_str())
    } else if which == 3 {
        e.base_form.clone()
    } else if which == 4 {
        e.reading.clone()
    } else {
        e.phonetic.clone()
    }
}

/// The output line of a token: its surface, a tab, then its six fields separated
/// by commas.
pub open spec fn token_line(t: TokenView) -> Seq<char> {
    t.surface + seq!['\t'] + t.part_of_speech + seq![','] + t.infl_type + seq![','] + t.infl_form
        + seq![','] + t.base_form + seq![','] + t.reading + seq![','] + t.phonetic
}

/// What a tokenization result says.
pub enum ResultView {
    Token(TokenView),
    Surface(Seq<char>),
}

/// A result of tokenization: a token, or only a surface when splitting into words.
#[derive(Debug, Clone)]
pub enum TokenizeResult {
    Token(Token),
    Surface(String),
}

impl View for TokenizeResult {
    type V = ResultView;

    open spec fn view(&self) -> ResultView {
        match self {
            TokenizeResult::Token(t) => ResultView::Token(t@),
            TokenizeResult::Surface(s) => ResultView::Surface(s@),
        }
    }
}

/// The surface of a result.
pub open spec fn result_surface(r: ResultView) -> Seq<char> {
    match r {
        ResultView::Token(t) => t.surface,
        ResultView::Surface(s) => s,
    }
}

/// The output line of a result: a token's line, or the surface.
pub open spec fn result_line(r: ResultView) -> Seq<char> {
    match r {
        ResultView::Token(t) => token_line(t),
        ResultView::Surface(s) => s,
    }
}

impl TokenizeResult {
    /// The result as a line of output: a token's line, or the surface.
    pub fn to_string(&self) -> (s: String)
        ensures
            s@ == result_line(self@),
    {
        match self {
            TokenizeResult::Token(t) => t.to_string(),
            TokenizeResult::Surface(s) => s.clone(),
        }
    }

    /// The surface of the result.
    pub fn surface(&self) -> (s: &str)
        ensures
            s@ == result_surface(self@),
    {
        match self {
            TokenizeResult::Token(t) => t.surface(),
            TokenizeResult::Surface(s) => s.as_str(),
        }
    }
}

} // verus!
