use vstd::prelude::*;

use std::sync::Arc;

use crate::category::{CategoryId, CategoryMask};
use crate::chunking::{
    chunk_len, chunk_len_at, is_punct_char, is_trim_of, punct, splittable, splittable_at,
    ends_with_blank_line, blank_line_at, trimmed_chars, CHUNK_SIZE, MAX_CHUNK_SIZE,
};
use crate::dictionary::{lookup_result, lookup_seq, surface_matches, SystemDictionary, UserDictionary};
use crate::error::RunomeError;
use crate::lattice::{
    lemma_back_path_cost, asterisk, asterisk_string, Lattice, LatticeNode, Node, NodeType, StartNode, UnknownNode,
    MAX_LATTICE_SIZE,
};
use crate::text::str_eq;
use crate::token::{
    lazy_node_token, normalized, result_surface, unknown_node_token, ResultView, Token,
    TokenView, TokenizeResult,
};
use crate::connection::PackedConnectionMatrix;
use crate::types::{DictEntry, UnknownEntry};

verus! {

/// Dictionary words are looked up up to this many characters long.
pub const MAX_WORD_LEN: usize = 15;

/// Whether `c` is a CJK ideograph (U+3400..U+9FFF or U+F900..U+FAFF).
pub open spec fn is_kanji(c: char) -> bool {
    (0x3400 <= c as u32 <= 0x9FFF) || (0xF900 <= c as u32 <= 0xFAFF)
}

/// Every character of `s` is a CJK ideograph.
pub open spec fn all_kanji(s: Seq<char>) -> bool {
    forall|i: int| 0 <= i < s.len() ==> is_kanji(#[trigger] s[i])
}

/// Whether every character of `text` is a CJK ideograph (U+3400..U+9FFF or
/// U+F900..U+FAFF); `true` for the empty text.
pub fn is_all_kanji(text: &str) -> (b: bool)
    ensures
        b == all_kanji(text@),
{
    let chars = crate::text::str_chars(text);
    let mut i: usize = 0;
    while i < chars.len()
        invariant
            i <= chars.len(),
            chars@ == text@,
            forall|k: int| 0 <= k < i ==> is_kanji(#[trigger] chars@[k]),
        decreases chars.len() - i,
    {
        let u = chars[i] as u32;
        if !((0x3400 <= u && u <= 0x9FFF) || (0xF900 <= u && u <= 0xFAFF)) {
            return false;
        }
        i = i + 1;
    }
    true
}

/// The surfaces of `nodes`, one after the other.
pub open spec fn concat_surfaces<'b, 'a>(nodes: Seq<&'b StartNode<'a>>) -> Seq<char>
    decreases nodes.len(),
{
    if nodes.len() == 0 {
        Seq::empty()
    } else {
        nodes[0].surface_view() + concat_surfaces(nodes.skip(1))
    }
}

/// The surfaces of `rs`, one after the other.
pub open spec fn concat_results(rs: Seq<ResultView>) -> Seq<char>
    decreases rs.len(),
{
    if rs.len() == 0 {
        Seq::empty()
    } else {
        result_surface(rs[0]) + concat_results(rs.skip(1))
    }
}

/// Surfaces of two lists of results, one after the other.
pub proof fn lemma_concat_results_append(a: Seq<ResultView>, b: Seq<ResultView>)
    ensures
        concat_results(a + b) == concat_results(a) + concat_results(b),
    decreases a.len(),
{
    if a.len() == 0 {
        assert(a + b =~= b);
    } else {
        assert((a + b).skip(1) =~= a.skip(1) + b);
        lemma_concat_results_append(a.skip(1), b);
    }
}

/// Surfaces of two lists of nodes, one after the other.
pub proof fn lemma_concat_surfaces_append<'b, 'a>(a: Seq<&'b StartNode<'a>>, b: Seq<&'b StartNode<'a>>)
    ensures
        concat_surfaces(a + b) == concat_surfaces(a) + concat_surfaces(b),
    decreases a.len(),
{
    if a.len() == 0 {
        assert(a + b =~= b);
    } else {
        assert((a + b).skip(1) =~= a.skip(1) + b);
        lemma_concat_surfaces_append(a.skip(1), b);
    }
}

/// The token of a special case that joins two nodes into one noun.
pub open spec fn joined_noun(surface: Seq<char>, wakati: bool) -> ResultView {
    if wakati {
        ResultView::Surface(surface)
    } else {
        ResultView::Token(
            TokenView {
                surface,
                part_of_speech: "名詞,一般,*,*"@,
                infl_type: normalized(asterisk()),
                infl_form: normalized(asterisk()),
                base_form: surface,
                reading: asterisk(),
                phonetic: asterisk(),
                node_type: NodeType::Unknown,
            },
        )
    }
}

/// The token of an ideographic space.
pub open spec fn space_result(wakati: bool) -> ResultView {
    if wakati {
        ResultView::Surface("　"@)
    } else {
        ResultView::Token(
            TokenView {
                surface: "　"@,
                part_of_speech: "記号,空白,*,*"@,
                infl_type: normalized(asterisk()),
                infl_form: normalized(asterisk()),
                base_form: "　"@,
                reading: "　"@,
                phonetic: Seq::empty(),
                node_type: NodeType::Unknown,
            },
        )
    }
}

/// The token of a double dash.
pub open spec fn dash_result(wakati: bool) -> ResultView {
    if wakati {
        ResultView::Surface("――"@)
    } else {
        ResultView::Token(
            TokenView {
                surface: "――"@,
                part_of_speech: "記号,一般,*,*"@,
                infl_type: normalized(asterisk()),
                infl_form: normalized(asterisk()),
                base_form: "――"@,
                reading: "――"@,
                phonetic: "――"@,
                node_type: NodeType::Unknown,
            },
        )
    }
}

/// The token of the adnominal `ある` before `朝`.
pub open spec fn aru_result() -> ResultView {
    ResultView::Token(
        TokenView {
            surface: "ある"@,
            part_of_speech: "連体詞,*,*,*"@,
            infl_type: normalized(asterisk()),
            infl_form: normalized(asterisk()),
            base_form: "ある"@,
            reading: "アル"@,
            phonetic: "アル"@,
            node_type: NodeType::SysDict,
        },
    )
}

/// The results that a special case gives for the first nodes of `nodes`, and how
/// many nodes it takes; `None` when no special case applies.
pub open spec fn special_case<'b, 'a>(nodes: Seq<&'b StartNode<'a>>, wakati: bool) -> Option<
    (Seq<ResultView>, int),
> {
    if nodes.len() == 0 {
        None
    } else {
        let s0 = nodes[0].surface_view();
        if nodes.len() >= 2 && s0 == "浮模"@ && nodes[0].node_type_view() == NodeType::Unknown
            && nodes[1].surface_view() == "様"@ {
            Some((seq![joined_noun(s0 + nodes[1].surface_view(), wakati)], 2))
        } else if s0 == "　"@ {
            Some((seq![space_result(wakati)], 1))
        } else if s0 == "　――"@ {
            Some((seq![space_result(wakati), dash_result(wakati)], 1))
        } else if s0 == "ある"@ && !wakati && nodes.len() >= 2 && nodes[1].surface_view() == "朝"@ {
            Some((seq![aru_result()], 1))
        } else if nodes.len() >= 2 && nodes[0].node_type_view() == NodeType::Unknown && all_kanji(s0)
            && nodes[1].surface_view() == "之"@ {
            Some((seq![joined_noun(s0 + nodes[1].surface_view(), wakati)], 2))
        } else {
            None
        }
    }
}

/// The result of one node: its surface when splitting into words, else its token.
pub open spec fn node_result<'a>(
    node: StartNode<'a>,
    wakati: bool,
    baseform_unk: bool,
    sys: SystemDictionary,
    user: Option<UserDictionary>,
) -> ResultView {
    if wakati {
        ResultView::Surface(node.surface_view())
    } else if node.node_type_view() == NodeType::Unknown {
        ResultView::Token(unknown_node_token(node, baseform_unk))
    } else {
        ResultView::Token(lazy_node_token(node, sys, user))
    }
}

/// The results of the nodes of a path: special cases first, else one result per node.
pub open spec fn path_results<'b, 'a>(
    nodes: Seq<&'b StartNode<'a>>,
    wakati: bool,
    baseform_unk: bool,
    sys: SystemDictionary,
    user: Option<UserDictionary>,
) -> Seq<ResultView>
    decreases nodes.len(),
{
    if nodes.len() == 0 {
        Seq::empty()
    } else {
        match special_case(nodes, wakati) {
            Some((rs, n)) => if 1 <= n <= nodes.len() {
                rs + path_results(nodes.skip(n), wakati, baseform_unk, sys, user)
            } else {
                Seq::empty()
            },
            None => seq![node_result(*nodes[0], wakati, baseform_unk, sys, user)] + path_results(
                nodes.skip(1),
                wakati,
                baseform_unk,
                sys,
                user,
            ),
        }
    }
}

/// A result has the form that the mode asks for: a surface when splitting into
/// words, else a token, whose base form is its surface when it is an unknown word
/// and `baseform_unk` holds.
pub open spec fn result_in_mode(r: ResultView, wakati: bool, baseform_unk: bool) -> bool {
    if wakati {
        r is Surface
    } else {
        &&& r is Token
        &&& (baseform_unk && r->Token_0.node_type == NodeType::Unknown) ==> r->Token_0.base_form
            == r->Token_0.surface
    }
}

/// Every result has the form the mode asks for.
pub open spec fn results_in_mode(rs: Seq<ResultView>, wakati: bool, baseform_unk: bool) -> bool {
    forall|i: int| 0 <= i < rs.len() ==> result_in_mode(#[trigger] rs[i], wakati, baseform_unk)
}

/// The views of `v`.
pub open spec fn views(v: Seq<TokenizeResult>) -> Seq<ResultView> {
    v.map_values(|r: TokenizeResult| r@)
}

/// The results of the special cases keep the surfaces of the nodes they take, and
/// have the form the mode asks for.
pub proof fn lemma_special_case_surfaces<'b, 'a>(
    nodes: Seq<&'b StartNode<'a>>,
    wakati: bool,
    baseform_unk: bool,
)
    requires
        special_case(nodes, wakati) is Some,
    ensures
        ({
            let (rs, n) = special_case(nodes, wakati)->0;
            &&& 1 <= n <= 2
            &&& n <= nodes.len()
            &&& concat_results(rs) == concat_surfaces(nodes.take(n))
            &&& results_in_mode(rs, wakati, baseform_unk)
        }),
{
    reveal_strlit("　");
    reveal_strlit("――");
    reveal_strlit("　――");
    let (rs, n) = special_case(nodes, wakati)->0;
    let e = Seq::<ResultView>::empty();
    let en = Seq::<&'b StartNode<'a>>::empty();
    assert(concat_results(e) == Seq::<char>::empty());
    assert(concat_surfaces(en) == Seq::<char>::empty());
    let s0 = nodes[0].surface_view();
    if n == 1 {
        let t = nodes.take(1);
        assert(t.skip(1) =~= en);
        assert(t[0] == nodes[0]);
        assert(concat_surfaces(t) == s0 + concat_surfaces(t.skip(1)));
        assert(concat_surfaces(t) =~= s0);
    } else {
        let t = nodes.take(2);
        assert(t.skip(1).skip(1) =~= en);
        assert(t.skip(1)[0] == nodes[1]);
        assert(t[0] == nodes[0]);
        let t1 = t.skip(1);
        assert(concat_surfaces(t1) == nodes[1].surface_view() + concat_surfaces(t1.skip(1)));
        assert(concat_surfaces(t) == s0 + concat_surfaces(t1));
        assert(concat_surfaces(t) =~= s0 + nodes[1].surface_view());
    }
    if rs.len() == 2 {
        assert(rs.skip(1).skip(1) =~= e);
        let r1 = rs.skip(1);
        assert(r1[0] == rs[1]);
        assert(concat_results(r1) == result_surface(r1[0]) + concat_results(r1.skip(1)));
        assert(concat_results(rs) == result_surface(rs[0]) + concat_results(r1));
        assert(result_surface(rs[0]) == "　"@);
        assert(result_surface(rs[1]) == "――"@);
        assert("　"@ + "――"@ =~= "　――"@);
        assert(concat_results(rs) =~= "　――"@);
    } else {
        assert(rs.skip(1) =~= e);
        assert(concat_results(rs) == result_surface(rs[0]) + concat_results(rs.skip(1)));
        assert(concat_results(rs) =~= result_surface(rs[0]));
    }
}

/// The results of a path keep the surfaces of its nodes, and have the form the mode
/// asks for.
pub proof fn lemma_path_results_surfaces<'b, 'a>(
    nodes: Seq<&'b StartNode<'a>>,
    wakati: bool,
    baseform_unk: bool,
    sys: SystemDictionary,
    user: Option<UserDictionary>,
)
    ensures
        concat_results(path_results(nodes, wakati, baseform_unk, sys, user)) == concat_surfaces(
            nodes,
        ),
        results_in_mode(path_results(nodes, wakati, baseform_unk, sys, user), wakati, baseform_unk),
    decreases nodes.len(),
{
    if nodes.len() > 0 {
        match special_case(nodes, wakati) {
            Some((rs, n)) => {
                lemma_special_case_surfaces(nodes, wakati, baseform_unk);
                let rest = path_results(nodes.skip(n), wakati, baseform_unk, sys, user);
                lemma_path_results_surfaces(nodes.skip(n), wakati, baseform_unk, sys, user);
                lemma_concat_results_append(rs, rest);
                assert(nodes =~= nodes.take(n) + nodes.skip(n));
                lemma_concat_surfaces_append(nodes.take(n), nodes.skip(n));
                assert(path_results(nodes, wakati, baseform_unk, sys, user) == rs + rest);
                assert forall|i: int| 0 <= i < (rs + rest).len() implies result_in_mode(
                    #[trigger] (rs + rest)[i],
                    wakati,
                    baseform_unk,
                ) by {
                    if i < rs.len() {
                        assert((rs + rest)[i] == rs[i]);
                    } else {
                        assert((rs + rest)[i] == rest[i - rs.len()]);
                    }
                }
            },
            None => {
                let r = node_result(*nodes[0], wakati, baseform_unk, sys, user);
                let rest = path_results(nodes.skip(1), wakati, baseform_unk, sys, user);
                lemma_path_results_surfaces(nodes.skip(1), wakati, baseform_unk, sys, user);
                lemma_concat_results_append(seq![r], rest);
                assert(seq![r].skip(1) =~= Seq::<ResultView>::empty());
                assert(concat_results(Seq::<ResultView>::empty()) == Seq::<char>::empty());
                assert(concat_results(seq![r]) == result_surface(r) + concat_results(seq![r].skip(1)));
                assert(concat_results(seq![r]) =~= result_surface(r));
                assert(path_results(nodes, wakati, baseform_unk, sys, user) == seq![r] + rest);
                assert(concat_surfaces(nodes) == nodes[0].surface_view() + concat_surfaces(nodes.skip(1)));
                assert(result_surface(r) == nodes[0].surface_view()) by {
                    if !wakati && nodes[0].node_type_view() != NodeType::Unknown {
                        let t = lazy_node_token(*nodes[0], sys, user);
                        assert(t.surface == nodes[0].surface_view());
                    }
                }
                assert forall|i: int| 0 <= i < (seq![r] + rest).len() implies result_in_mode(
                    #[trigger] (seq![r] + rest)[i],
                    wakati,
                    baseform_unk,
                ) by {
                    if i == 0 {
                        assert((seq![r] + rest)[i] == r);
                    } else {
                        assert((seq![r] + rest)[i] == rest[i - 1]);
                    }
                }
            },
        }
    }
}


/// Outside word splitting, a path whose first two nodes are `ある` and `朝` gives first
/// the adnominal `ある`: part of speech `連体詞,*,*,*`, base form `ある`, reading and
/// pronunciation `アル`, no inflection.
pub proof fn lemma_aru_before_asa<'b, 'a>(
    nodes: Seq<&'b StartNode<'a>>,
    baseform_unk: bool,
    sys: SystemDictionary,
    user: Option<UserDictionary>,
)
    requires
        nodes.len() >= 2,
        nodes[0].surface_view() == "ある"@,
        nodes[1].surface_view() == "朝"@,
    ensures
        path_results(nodes, false, baseform_unk, sys, user).len() >= 1,
        path_results(nodes, false, baseform_unk, sys, user)[0] matches ResultView::Token(t) && {
            &&& t.surface == "ある"@
            &&& t.part_of_speech == "連体詞,*,*,*"@
            &&& t.infl_type == seq!['*']
            &&& t.infl_form == seq!['*']
            &&& t.base_form == "ある"@
            &&& t.reading == "アル"@
            &&& t.phonetic == "アル"@
        },
{
    reveal_strlit("ある");
    reveal_strlit("朝");
    reveal_strlit("浮模");
    reveal_strlit("　");
    reveal_strlit("　――");
    let s0 = nodes[0].surface_view();
    assert(s0 != "浮模"@) by {
        assert(s0[0] != "浮模"@[0]);
    }
    assert(s0.len() != "　"@.len());
    assert(s0 != "　――"@) by {
        assert(s0[0] != "　――"@[0]);
    }
    assert(special_case(nodes, false) == Some((seq![aru_result()], 1int)));
    let rest = path_results(nodes.skip(1), false, baseform_unk, sys, user);
    assert(path_results(nodes, false, baseform_unk, sys, user) == seq![aru_result()] + rest);
    assert(normalized(asterisk()) =~= seq!['*']);
}

/// The surfaces of results, one per result.
pub open spec fn result_surfaces(rs: Seq<ResultView>) -> Seq<Seq<char>> {
    rs.map_values(|r: ResultView| result_surface(r))
}

/// The result of a node has the node's surface.
pub proof fn lemma_node_result_surface<'a>(
    node: StartNode<'a>,
    wakati: bool,
    baseform_unk: bool,
    sys: SystemDictionary,
    user: Option<UserDictionary>,
)
    ensures
        result_surface(node_result(node, wakati, baseform_unk, sys, user)) == node.surface_view(),
{
    if !wakati && node.node_type_view() != NodeType::Unknown {
        let t = lazy_node_token(node, sys, user);
        assert(t.surface == node.surface_view());
    }
}

/// Splitting into words gives, for a path, the surfaces of the tokens that full
/// tokenizing gives for it, one for one.
pub proof fn lemma_wakati_surfaces<'b, 'a>(
    nodes: Seq<&'b StartNode<'a>>,
    baseform_unk: bool,
    sys: SystemDictionary,
    user: Option<UserDictionary>,
)
    ensures
        result_surfaces(path_results(nodes, true, baseform_unk, sys, user)) == result_surfaces(
            path_results(nodes, false, baseform_unk, sys, user),
        ),
    decreases nodes.len(),
{
    if nodes.len() > 0 {
        reveal_strlit("ある");
        reveal_strlit("浮模");
        reveal_strlit("　");
        reveal_strlit("　――");
        let s0 = nodes[0].surface_view();
        let pt = path_results(nodes, true, baseform_unk, sys, user);
        let pf = path_results(nodes, false, baseform_unk, sys, user);
        let aru = s0 == "ある"@ && nodes.len() >= 2 && nodes[1].surface_view() == "朝"@;
        if aru && special_case(nodes, false) == Some((seq![aru_result()], 1int)) {
            assert(!is_kanji(s0[0]));
            assert(!all_kanji(s0));
            assert(special_case(nodes, true) is None);
            let r = node_result(*nodes[0], true, baseform_unk, sys, user);
            let rt = path_results(nodes.skip(1), true, baseform_unk, sys, user);
            let rf = path_results(nodes.skip(1), false, baseform_unk, sys, user);
            lemma_wakati_surfaces(nodes.skip(1), baseform_unk, sys, user);
            assert(pt == seq![r] + rt);
            assert(pf == seq![aru_result()] + rf);
            assert(result_surfaces(pt) =~= seq![result_surface(r)] + result_surfaces(rt));
            assert(result_surfaces(pf) =~= seq![result_surface(aru_result())] + result_surfaces(rf));
        } else {
            match special_case(nodes, false) {
                Some((rf0, n)) => {
                    let (rt0, nt) = special_case(nodes, true)->0;
                    assert(special_case(nodes, true) is Some);
                    assert(nt == n);
                    assert(result_surfaces(rt0) =~= result_surfaces(rf0));
                    lemma_special_case_surfaces(nodes, false, baseform_unk);
                    let rt = path_results(nodes.skip(n), true, baseform_unk, sys, user);
                    let rf = path_results(nodes.skip(n), false, baseform_unk, sys, user);
                    lemma_wakati_surfaces(nodes.skip(n), baseform_unk, sys, user);
                    assert(pt == rt0 + rt);
                    assert(pf == rf0 + rf);
                    assert(result_surfaces(pt) =~= result_surfaces(rt0) + result_surfaces(rt));
                    assert(result_surfaces(pf) =~= result_surfaces(rf0) + result_surfaces(rf));
                },
                None => {
                    assert(special_case(nodes, true) is None);
                    let a = node_result(*nodes[0], true, baseform_unk, sys, user);
                    let b = node_result(*nodes[0], false, baseform_unk, sys, user);
                    lemma_node_result_surface(*nodes[0], true, baseform_unk, sys, user);
                    lemma_node_result_surface(*nodes[0], false, baseform_unk, sys, user);
                    let rt = path_results(nodes.skip(1), true, baseform_unk, sys, user);
                    let rf = path_results(nodes.skip(1), false, baseform_unk, sys, user);
                    lemma_wakati_surfaces(nodes.skip(1), baseform_unk, sys, user);
                    assert(pt == seq![a] + rt);
                    assert(pf == seq![b] + rf);
                    assert(result_surfaces(pt) =~= seq![result_surface(a)] + result_surfaces(rt));
                    assert(result_surfaces(pf) =~= seq![result_surface(b)] + result_surfaces(rf));
                },
            }
        }
    }
}

} // verus!

verus! {

/// The characters of a chunk of text.
#[derive(Debug)]
pub struct ChunkCharView {
    pub chars: Vec<char>,
}

impl ChunkCharView {
    /// A view over a copy of `text`.
    pub fn new(text: &[char]) -> (v: Self)
        ensures
            v.chars@ == text@,
    {
        let mut chars: Vec<char> = Vec::new();
        let mut i: usize = 0;
        while i < text.len()
            invariant
                i <= text.len(),
                chars@ == text@.take(i as int),
            decreases text.len() - i,
        {
            chars.push(text[i]);
            i = i + 1;
            proof {
                assert(chars@ =~= text@.take(i as int));
            }
        }
        proof {
            assert(text@.take(text.len() as int) =~= text@);
        }
        ChunkCharView { chars }
    }

    /// Number of characters.
    pub fn len_chars(&self) -> (n: usize)
        ensures
            n == self.chars.len(),
    {
        self.chars.len()
    }

    /// Characters `start..end`.
    pub fn slice(&self, start: usize, end: usize) -> (s: String)
        requires
            start <= end <= self.chars.len(),
        ensures
            s@ == self.chars@.subrange(start as int, end as int),
    {
        crate::token::string_from_chars(&self.chars.as_slice()[start..end])
    }

    /// Character `index`.
    pub fn char_at(&self, index: usize) -> (c: char)
        requires
            index < self.chars.len(),
        ensures
            c == self.chars@[index as int],
    {
        self.chars[index]
    }
}

/// A tokenizer over a system dictionary and, optionally, a user dictionary.
#[derive(Clone)]
pub struct Tokenizer {
    sys_dic: Arc<SystemDictionary>,
    user_dic: Option<Arc<UserDictionary>>,
    max_unknown_length: usize,
    wakati: bool,
}

impl Tokenizer {
    /// The system dictionary.
    pub closed spec fn sys(&self) -> SystemDictionary {
        *self.sys_dic
    }

    /// The user dictionary, if any.
    pub closed spec fn user(&self) -> Option<UserDictionary> {
        match self.user_dic {
            Some(u) => Some(*u),
            None => None,
        }
    }

    /// Longest unknown word, in characters.
    pub closed spec fn max_unknown_length_view(&self) -> usize {
        self.max_unknown_length
    }

    /// Whether the tokenizer only splits text into words.
    pub closed spec fn wakati_view(&self) -> bool {
        self.wakati
    }

    /// The dictionaries are well formed.
    pub open spec fn wf(&self) -> bool {
        &&& self.sys().wf()
        &&& match self.user() {
            Some(u) => u.wf(),
            None => true,
        }
    }

    /// A tokenizer over `sys_dic`; unknown words are at most `max_unknown_length`
    /// characters long (1024 by default), and `wakati` (false by default) makes it
    /// only split text into words. Never fails.
    pub fn new(
        sys_dic: Arc<SystemDictionary>,
        max_unknown_length: Option<usize>,
        wakati: Option<bool>,
    ) -> (r: Result<Self, RunomeError>)
        requires
            sys_dic.wf(),
        ensures
            r matches Ok(t) && {
                &&& t.wf()
                &&& t.sys() == *sys_dic
                &&& t.user() is None
                &&& t.max_unknown_length_view() == match max_unknown_length {
                    Some(n) => n,
                    None => 1024,
                }
                &&& t.wakati_view() == match wakati {
                    Some(w) => w,
                    None => false,
                }
            },
    {
        Ok(
            Tokenizer {
                sys_dic,
                user_dic: None,
                max_unknown_length: match max_unknown_length {
                    Some(n) => n,
                    None => 1024,
                },
                wakati: match wakati {
                    Some(w) => w,
                    None => false,
                },
            },
        )
    }

    /// A tokenizer over `sys_dic` and the user dictionary `user_dic`, whose words come
    /// before those of the system dictionary; otherwise as [`Tokenizer::new`].
    pub fn with_user_dict(
        sys_dic: Arc<SystemDictionary>,
        user_dic: Arc<UserDictionary>,
        max_unknown_length: Option<usize>,
        wakati: Option<bool>,
    ) -> (r: Result<Self, RunomeError>)
        requires
            sys_dic.wf(),
            user_dic.wf(),
        ensures
            r matches Ok(t) && {
                &&& t.wf()
                &&& t.sys() == *sys_dic
                &&& t.user() == Some(*user_dic)
                &&& t.max_unknown_length_view() == match max_unknown_length {
                    Some(n) => n,
                    None => 1024,
                }
                &&& t.wakati_view() == match wakati {
                    Some(w) => w,
                    None => false,
                }
            },
    {
        Ok(
            Tokenizer {
                sys_dic,
                user_dic: Some(user_dic),
                max_unknown_length: match max_unknown_length {
                    Some(n) => n,
                    None => 1024,
                },
                wakati: match wakati {
                    Some(w) => w,
                    None => false,
                },
            },
        )
    }

    /// Whether the tokenizer only splits text into words.
    pub fn wakati(&self) -> (b: bool)
        ensures
            b == self.wakati_view(),
    {
        self.wakati
    }

    /// Longest unknown word, in characters.
    pub fn max_unknown_length(&self) -> (n: usize)
        ensures
            n == self.max_unknown_length_view(),
    {
        self.max_unknown_length
    }

    /// The system dictionary.
    pub fn sys_dic(&self) -> (d: &SystemDictionary)
        ensures
            *d == self.sys(),
    {
        &self.sys_dic
    }

    /// Number of characters of `surface` when between one and `limit`, else `None`.
    pub fn surface_len_with_limit(surface: &str, limit: usize) -> (r: Option<usize>)
        ensures
            r == if limit == 0 || surface@.len() == 0 || surface@.len() > limit {
                None::<usize>
            } else {
                Some(surface@.len() as usize)
            },
    {
        if limit == 0 {
            return None;
        }
        let chars = crate::text::str_chars(surface);
        let mut len: usize = 0;
        while len < chars.len()
            invariant
                len <= chars.len(),
                chars@ == surface@,
                len <= limit,
            decreases chars.len() - len,
        {
            len = len + 1;
            if len > limit {
                return None;
            }
        }
        if len == 0 {
            None
        } else {
            Some(len)
        }
    }

    /// Whether `c` is punctuation after which a chunk may end.
    pub fn is_punct(&self, c: char) -> (b: bool)
        ensures
            b == is_punct_char(c),
    {
        punct(c)
    }

    /// Whether `text` ends with an empty line (`\n\n` or `\r\n\r\n`).
    pub fn is_newline(&self, text: &str) -> (b: bool)
        ensures
            b == ends_with_blank_line(text@),
    {
        let chars = crate::text::str_chars(text);
        proof {
            assert(chars@.subrange(0, chars.len() as int) =~= chars@);
        }
        blank_line_at(chars.as_slice(), 0, chars.len())
    }

    /// Whether a chunk may end after `text`: it ends with punctuation or an empty line.
    pub fn is_splittable(&self, text: &str) -> (b: bool)
        ensures
            b == splittable(text@),
    {
        let chars = crate::text::str_chars(text);
        proof {
            assert(chars@.subrange(0, chars.len() as int) =~= chars@);
        }
        splittable_at(chars.as_slice(), 0, chars.len())
    }

    /// Whether a chunk of `text` ends after `char_pos` characters, `char_count` of them
    /// counted: at the end of the text, at `MAX_CHUNK_SIZE` characters, or at a split
    /// point from `CHUNK_SIZE` characters on.
    pub fn should_split_at_char_pos(&self, text: &str, char_pos: usize, char_count: usize) -> (b: bool)
        ensures
            b == (char_pos >= text@.len() || char_count >= MAX_CHUNK_SIZE || (char_count >= CHUNK_SIZE
                && splittable(text@.take(char_pos as int)))),
    {
        let chars = crate::text::str_chars(text);
        if char_pos >= chars.len() || char_count >= MAX_CHUNK_SIZE {
            return true;
        }
        if char_count >= CHUNK_SIZE {
            proof {
                assert(chars@.subrange(0, char_pos as int) =~= text@.take(char_pos as int));
            }
            splittable_at(chars.as_slice(), 0, char_pos)
        } else {
            false
        }
    }
}

/// A noun made of `surface`, or only the surface when splitting into words.
fn joined(surface: String, wakati: bool) -> (r: TokenizeResult)
    ensures
        r@ == joined_noun(surface@, wakati),
{
    if wakati {
        TokenizeResult::Surface(surface)
    } else {
        let pos = String::from_str("名詞,一般,*,*");
        TokenizeResult::Token(
            Token::new(
                surface.clone(),
                pos,
                asterisk_string(),
                asterisk_string(),
                surface,
                asterisk_string(),
                asterisk_string(),
                NodeType::Unknown,
            ),
        )
    }
}

/// An ideographic space, as a token or a surface.
fn space(wakati: bool) -> (r: TokenizeResult)
    ensures
        r@ == space_result(wakati),
{
    if wakati {
        TokenizeResult::Surface(String::from_str("　"))
    } else {
        TokenizeResult::Token(
            Token::new(
                String::from_str("　"),
                String::from_str("記号,空白,*,*"),
                asterisk_string(),
                asterisk_string(),
                String::from_str("　"),
                String::from_str("　"),
                String::new(),
                NodeType::Unknown,
            ),
        )
    }
}

/// A double dash, as a token or a surface.
fn dash(wakati: bool) -> (r: TokenizeResult)
    ensures
        r@ == dash_result(wakati),
{
    if wakati {
        TokenizeResult::Surface(String::from_str("――"))
    } else {
        TokenizeResult::Token(
            Token::new(
                String::from_str("――"),
                String::from_str("記号,一般,*,*"),
                asterisk_string(),
                asterisk_string(),
                String::from_str("――"),
                String::from_str("――"),
                String::from_str("――"),
                NodeType::Unknown,
            ),
        )
    }
}

/// One result as a list.
fn single(r: TokenizeResult) -> (v: Vec<TokenizeResult>)
    ensures
        views(v@) == seq![r@],
{
    let ghost rv = r@;
    let mut v: Vec<TokenizeResult> = Vec::new();
    v.push(r);
    proof {
        assert(views(v@) =~= seq![rv]);
    }
    v
}

impl Tokenizer {
    /// The results of the special case that applies to the first nodes of `nodes`,
    /// with the number of nodes it takes; `None` when none applies.
    pub fn handle_special_cases(
        &self,
        nodes: &[&StartNode<'_>],
        wakati: bool,
        baseform_unk: bool,
    ) -> (r: Option<(Vec<TokenizeResult>, usize)>)
        ensures
            match special_case(nodes@, wakati) {
                Some((rs, n)) => r matches Some((v, m)) && views(v@) == rs && m == n,
                None => r is None,
            },
    {
        if nodes.len() == 0 {
            return None;
        }
        let surface = nodes[0].surface();
        if nodes.len() >= 2 && str_eq(surface, "浮模") && nodes[0].node_type() == NodeType::Unknown
            && str_eq(nodes[1].surface(), "様") {
            let mut combined = String::from_str(surface);
            combined.append(nodes[1].surface());
            return Some((single(joined(combined, wakati)), 2));
        }
        if str_eq(surface, "　") {
            return Some((single(space(wakati)), 1));
        }
        if str_eq(surface, "　――") {
            let mut v: Vec<TokenizeResult> = Vec::new();
            let a = space(wakati);
            let b = dash(wakati);
            let ghost av = a@;
            let ghost bv = b@;
            v.push(a);
            v.push(b);
            proof {
                assert(views(v@) =~= seq![av, bv]);
            }
            return Some((v, 1));
        }
        if str_eq(surface, "ある") && !wakati && nodes.len() >= 2 && str_eq(nodes[1].surface(), "朝") {
            let token = Token::new(
                String::from_str("ある"),
                String::from_str("連体詞,*,*,*"),
                asterisk_string(),
                asterisk_string(),
                String::from_str("ある"),
                String::from_str("アル"),
                String::from_str("アル"),
                NodeType::SysDict,
            );
            return Some((single(TokenizeResult::Token(token)), 1));
        }
        if nodes.len() >= 2 && nodes[0].node_type() == NodeType::Unknown && is_all_kanji(surface)
            && str_eq(nodes[1].surface(), "之") {
            let mut combined = String::from_str(surface);
            combined.append(nodes[1].surface());
            return Some((single(joined(combined, wakati)), 2));
        }
        None
    }

    /// The results of the nodes of a path: special cases first, else one result per
    /// node. Never fails.
    pub fn path_to_tokens(&self, path: &[&StartNode<'_>], wakati: bool, baseform_unk: bool) -> (r:
        Result<Vec<TokenizeResult>, RunomeError>)
        ensures
            r matches Ok(v) && views(v@) == path_results(
                path@,
                wakati,
                baseform_unk,
                self.sys(),
                self.user(),
            ),
    {
        let ghost all = path_results(path@, wakati, baseform_unk, self.sys(), self.user());
        let mut tokens: Vec<TokenizeResult> = Vec::new();
        let mut index: usize = 0;
        proof {
            assert(path@.skip(0) =~= path@);
            assert(views(tokens@) =~= Seq::<ResultView>::empty());
        }
        while index < path.len()
            invariant
                index <= path.len(),
                all == path_results(path@, wakati, baseform_unk, self.sys(), self.user()),
                views(tokens@) + path_results(
                    path@.skip(index as int),
                    wakati,
                    baseform_unk,
                    self.sys(),
                    self.user(),
                ) == all,
            decreases path.len() - index,
        {
            let rest = &path[index..path.len()];
            proof {
                assert(rest@ =~= path@.skip(index as int));
            }
            match self.handle_special_cases(rest, wakati, baseform_unk) {
                Some((results, consumed)) => {
                    let ghost before = views(tokens@);
                    let mut results = results;
                    tokens.append(&mut results);
                    proof {
                        let (srs, sn) = special_case(rest@, wakati)->0;
                        assert(views(tokens@) =~= before + srs);
                        assert(path@.skip(index as int).skip(consumed as int) =~= path@.skip(
                            index + consumed,
                        ));
                    }
                    index = index + consumed;
                    continue ;
                },
                None => {},
            }
            let node = path[index];
            let ghost before = views(tokens@);
            let result = if wakati {
                TokenizeResult::Surface(String::from_str(node.surface()))
            } else {
                let token = match node.node_type() {
                    NodeType::Unknown => Token::from_unknown_node(node, baseform_unk),
                    _ => Token::from_node_lazy(node, &self.sys_dic, self.user_dic.as_ref()),
                };
                TokenizeResult::Token(token)
            };
            let ghost rv = result@;
            tokens.push(result);
            proof {
                assert(rv == node_result(*path@[index as int], wakati, baseform_unk, self.sys(), self.user()));
                assert(views(tokens@) =~= before.push(rv));
                assert(path@.skip(index as int).skip(1) =~= path@.skip(index + 1));
                assert(path@.skip(index as int)[0] == path@[index as int]);
            }
            index = index + 1;
        }
        proof {
            assert(path@.skip(index as int) =~= Seq::<&StartNode<'_>>::empty());
        }
        Ok(tokens)
    }
}

} // verus!

verus! {

/// An error that the lattice gives: no node to connect to, or a connection cost
/// missing from the matrix.
pub open spec fn lattice_error(e: RunomeError) -> bool {
    e is LatticeDisconnected || e is InvalidConnectionId
}

/// Slot `k` spans the characters of `text` that are its surface.
pub open spec fn slot_covers<'a>(lat: Lattice<'a>, text: Seq<char>, k: int) -> bool {
    let s = lat.slots@[k];
    &&& s.end <= text.len() + 1
    &&& s.node.surface_view() == text.subrange(s.pos - 1, s.end - 1)
}

/// Every node but the markers spans the characters of `text` that are its surface.
pub open spec fn covers<'a>(lat: Lattice<'a>, text: Seq<char>) -> bool {
    forall|k: int|
        1 <= k < lat.slots.len() && !(lat.slots@[k].node is Eos) ==> #[trigger] slot_covers(lat, text, k)
}

/// Adding a node whose surface is the text at the current position keeps the cover.
proof fn lemma_added_covers<'a>(
    old: Lattice<'a>,
    new: Lattice<'a>,
    node: StartNode<'a>,
    b: usize,
    text: Seq<char>,
)
    requires
        old.inv(),
        covers(old, text),
        Lattice::added(old, new, node, b),
        old.p - 1 + node.span() <= text.len(),
        old.p + node.span() <= old.size + 1,
        node.surface_view() == text.subrange(old.p - 1, old.p - 1 + node.span()),
    ensures
        covers(new, text),
{
    assert forall|k: int|
        1 <= k < new.slots.len() && !(new.slots@[k].node is Eos) implies #[trigger] slot_covers(
        new,
        text,
        k,
    ) by {
        if k < old.slots.len() {
            assert(new.slots@[k] == old.slots@[k]);
            assert(slot_covers(old, text, k));
        } else {
            assert(new.slots@[k] == old.placed(node, b));
            assert(new.slots@[k].end == old.p + node.span());
            assert(new.slots@[k].pos == old.p);
        }
    }
}

/// The nodes `nodes` of the path `c` after its first slot span the text from its
/// start to where the last of them ends.
proof fn lemma_chain_text<'b, 'a>(
    lat: Lattice<'a>,
    text: Seq<char>,
    c: Seq<usize>,
    nodes: Seq<&'b StartNode<'a>>,
)
    requires
        lat.inv(),
        covers(lat, text),
        lat.is_chain(c),
        nodes.len() == c.len() - 1,
        forall|i: int| 0 <= i < nodes.len() ==> *nodes[i] == lat.slots@[#[trigger] c[i + 1] as int].node,
        forall|i: int| 1 <= i < c.len() ==> !(lat.slots@[#[trigger] c[i] as int].node is Eos),
    ensures
        lat.slots@[c.last() as int].end <= text.len() + 1,
        concat_surfaces(nodes) == text.subrange(0, lat.slots@[c.last() as int].end - 1),
    decreases c.len(),
{
    if c.len() == 1 {
        assert(nodes =~= Seq::<&'b StartNode<'a>>::empty());
    } else {
        let d = c.drop_last();
        let m = nodes.drop_last();
        assert forall|i: int| 0 <= i < d.len() - 1 implies #[trigger] lat.linked(d, i) by {
            assert(lat.linked(c, i));
        }
        assert forall|i: int| 0 <= i < d.len() implies (#[trigger] d[i] as int) < lat.slots.len() by {
            assert(d[i] == c[i]);
        }
        assert forall|i: int| 0 <= i < m.len() implies *m[i] == lat.slots@[#[trigger] d[i + 1] as int].node by {
            assert(m[i] == nodes[i]);
            assert(d[i + 1] == c[i + 1]);
        }
        assert forall|i: int| 1 <= i < d.len() implies !(lat.slots@[#[trigger] d[i] as int].node is Eos) by {
            assert(d[i] == c[i]);
        }
        lemma_chain_text(lat, text, d, m);
        let a = c[c.len() - 2] as int;
        let k = c[c.len() - 1] as int;
        assert(lat.linked(c, c.len() - 2));
        assert(k >= 1) by {
            if a >= 1 {
                assert(lat.slot_ok(a));
            }
        }
        assert(lat.slot_ok(k));
        assert(!(lat.slots@[k].node is Eos));
        assert(slot_covers(lat, text, k));
        let x = nodes[nodes.len() - 1];
        assert(nodes =~= m + seq![x]);
        lemma_concat_surfaces_append(m, seq![x]);
        assert(seq![x].skip(1) =~= Seq::<&'b StartNode<'a>>::empty());
        assert(concat_surfaces(seq![x]) == x.surface_view() + concat_surfaces(seq![x].skip(1)));
        assert(concat_surfaces(Seq::<&'b StartNode<'a>>::empty()) == Seq::<char>::empty());
        assert(*x == lat.slots@[k].node);
        let pa = lat.slots@[a].end - 1;
        assert(text.subrange(0, pa) + text.subrange(pa, lat.slots@[k].end - 1) =~= text.subrange(
            0,
            lat.slots@[k].end - 1,
        ));
    }
}

/// `m` holds exactly the categories of `c` in the dictionary's category index.
pub open spec fn char_mask(sys: SystemDictionary, c: char, m: CategoryMask) -> bool {
    &&& forall|j: int| m.has(j) <==> sys.resource.category_index.mask_has(c as u32, j)
    &&& forall|j: int| m.has(j) ==> 0 <= j < sys.resource.category_index.names.len()
}

/// Character `idx` of `text` joins a group of category `cat` that starts at `start`:
/// it is of category `cat` or shares a category with the start.
pub open spec fn joins_group(sys: SystemDictionary, text: Seq<char>, start: int, idx: int, cat: int) -> bool {
    let ci = sys.resource.category_index;
    ci.mask_has(text[idx] as u32, cat) || exists|i: int|
        ci.mask_has(text[start] as u32, i) && #[trigger] ci.mask_has(text[idx] as u32, i)
}

/// Where a group of category `cat` that starts at `start` ends, having reached `idx`:
/// at the end of the text, at `max_length` characters, or before the first character
/// that does not join it.
pub open spec fn group_end(
    sys: SystemDictionary,
    text: Seq<char>,
    cat: int,
    start: int,
    idx: int,
    max_length: int,
) -> int
    decreases text.len() - idx,
{
    if idx >= text.len() || idx - start >= max_length || !joins_group(sys, text, start, idx, cat) {
        idx
    } else {
        group_end(sys, text, cat, start, idx + 1, max_length)
    }
}

/// A group ends after it starts and no later than the text.
pub proof fn lemma_group_end_bounds(
    sys: SystemDictionary,
    text: Seq<char>,
    cat: int,
    start: int,
    idx: int,
    max_length: int,
)
    requires
        0 <= start < idx <= text.len(),
    ensures
        idx <= group_end(sys, text, cat, start, idx, max_length) <= text.len(),
    decreases text.len() - idx,
{
    if !(idx >= text.len() || idx - start >= max_length || !joins_group(sys, text, start, idx, cat)) {
        lemma_group_end_bounds(sys, text, cat, start, idx + 1, max_length);
    }
}

/// Longest unknown word of category `cat`: the tokenizer's limit when the category
/// groups, else the smaller of the category's length and that limit.
pub open spec fn unknown_max_length(sys: SystemDictionary, cat: int, max_unknown: usize) -> int {
    let flags = sys.resource.category_index.flags@[cat];
    if flags.group {
        max_unknown as int
    } else if (flags.length as i32) < 0 {
        max_unknown as int
    } else {
        if (flags.length as int) < max_unknown {
            flags.length as int
        } else {
            max_unknown as int
        }
    }
}

/// Whether character `idx` joins a group of category `cat` that starts at `start`,
/// `masks` holding the categories of the characters of `text`.
fn joins_at(
    masks: &[CategoryMask],
    start: usize,
    idx: usize,
    cat: CategoryId,
    Ghost(sys): Ghost<SystemDictionary>,
    Ghost(text): Ghost<Seq<char>>,
) -> (b: bool)
    requires
        start < masks.len(),
        idx < masks.len(),
        masks.len() == text.len(),
        (cat as usize) < 128,
        forall|i: int| 0 <= i < text.len() ==> char_mask(sys, text[i], #[trigger] masks@[i]),
    ensures
        b == joins_group(sys, text, start as int, idx as int, cat as int),
{
    let c_mask = masks[idx];
    let base = masks[start];
    proof {
        assert(char_mask(sys, text[idx as int], masks@[idx as int]));
        assert(char_mask(sys, text[start as int], masks@[start as int]));
        let ci = sys.resource.category_index;
        if exists|i: int| ci.mask_has(text[start as int] as u32, i) && #[trigger] ci.mask_has(text[idx as int] as u32, i) {
            let i = choose|i: int| ci.mask_has(text[start as int] as u32, i) && #[trigger] ci.mask_has(text[idx as int] as u32, i);
            assert(base.has(i) && c_mask.has(i));
        }
    }
    c_mask.contains(cat) || base.intersects(c_mask)
}

impl Tokenizer {
    /// The categories of each character of `chunk`, as masks. Never fails.
    pub fn precompute_char_categories(&self, chunk: &ChunkCharView) -> (r: Result<
        Vec<CategoryMask>,
        RunomeError,
    >)
        requires
            self.wf(),
        ensures
            r matches Ok(v) && v.len() == chunk.chars.len() && forall|i: int|
                0 <= i < v.len() ==> char_mask(self.sys(), chunk.chars@[i], #[trigger] v@[i]),
    {
        let total = chunk.len_chars();
        let mut cache: Vec<CategoryMask> = Vec::new();
        let mut idx: usize = 0;
        while idx < total
            invariant
                self.wf(),
                total == chunk.chars.len(),
                idx <= total,
                cache.len() == idx,
                forall|i: int| 0 <= i < idx ==> char_mask(self.sys(), chunk.chars@[i], #[trigger] cache@[i]),
            decreases total - idx,
        {
            let ch = chunk.char_at(idx);
            cache.push(self.sys_dic.resource.get_char_category_mask(ch));
            idx = idx + 1;
        }
        Ok(cache)
    }

    /// The unknown word of category `category_id` that starts at `start_char_index`:
    /// the characters from there that join its group, up to the category's longest
    /// unknown word; empty when the start is past the chunk. Never fails.
    pub fn build_grouped_surface_python_style(
        &self,
        chunk: &ChunkCharView,
        start_char_index: usize,
        category_id: CategoryId,
        char_categories_cache: &[CategoryMask],
    ) -> (r: Result<String, RunomeError>)
        requires
            self.wf(),
            char_categories_cache.len() == chunk.chars.len(),
            forall|i: int|
                0 <= i < chunk.chars.len() ==> char_mask(self.sys(), chunk.chars@[i], #[trigger] char_categories_cache@[i]),
            start_char_index < chunk.chars.len() ==> (category_id as int)
                < self.sys().resource.category_index.names.len(),
        ensures
            r matches Ok(s) && if start_char_index >= chunk.chars.len() {
                s@.len() == 0
            } else {
                s@ == chunk.chars@.subrange(
                    start_char_index as int,
                    group_end(
                        self.sys(),
                        chunk.chars@,
                        category_id as int,
                        start_char_index as int,
                        start_char_index + 1,
                        unknown_max_length(self.sys(), category_id as int, self.max_unknown_length_view()),
                    ),
                )
            },
    {
        let total = chunk.len_chars();
        if start_char_index >= total {
            return Ok(String::new());
        }
        let category_max_length = self.sys_dic.resource.unknown_length_by_id(category_id);
        let max_length = if self.sys_dic.resource.unknown_grouping_by_id(category_id) {
            self.max_unknown_length
        } else if category_max_length < 0 {
            self.max_unknown_length
        } else if (category_max_length as usize) < self.max_unknown_length {
            category_max_length as usize
        } else {
            self.max_unknown_length
        };
        let ghost text = chunk.chars@;
        let ghost sys = self.sys();
        let ghost cat = category_id as int;
        let ghost start = start_char_index as int;
        let mut current_len: usize = 1;
        let mut idx: usize = start_char_index + 1;
        proof {
            assert(max_length == unknown_max_length(self.sys(), cat, self.max_unknown_length_view()));
        }
        let mut more = idx < total && current_len < max_length && joins_at(
            char_categories_cache,
            start_char_index,
            idx,
            category_id,
            Ghost(sys),
            Ghost(text),
        );
        while more
            invariant
                total == text.len(),
                text == chunk.chars@,
                sys == self.sys(),
                char_categories_cache.len() == total,
                forall|i: int|
                    0 <= i < text.len() ==> char_mask(sys, text[i], #[trigger] char_categories_cache@[i]),
                cat == category_id as int,
                start == start_char_index as int,
                start < idx <= total,
                current_len == idx - start,
                group_end(sys, text, cat, start, start + 1, max_length as int) == group_end(
                    sys,
                    text,
                    cat,
                    start,
                    idx as int,
                    max_length as int,
                ),
                (category_id as usize) < 128,
                more == (idx < total && current_len < max_length && joins_group(
                    sys,
                    text,
                    start,
                    idx as int,
                    cat,
                )),
            decreases total - idx,
        {
            proof {
                assert(group_end(sys, text, cat, start, idx as int, max_length as int) == group_end(
                    sys,
                    text,
                    cat,
                    start,
                    idx + 1,
                    max_length as int,
                ));
            }
            current_len = current_len + 1;
            idx = idx + 1;
            more = idx < total && current_len < max_length && joins_at(
                char_categories_cache,
                start_char_index,
                idx,
                category_id,
                Ghost(sys),
                Ghost(text),
            );
        }
        proof {
            lemma_group_end_bounds(sys, text, cat, start, idx as int, max_length as int);
        }
        Ok(chunk.slice(start_char_index, idx))
    }
}

} // verus!

verus! {

/// The ids of entry `e` are inside the matrix `m`.
pub open spec fn entry_ids_ok(m: PackedConnectionMatrix, e: DictEntry) -> bool {
    (e.left_id as int) < m.cols && (e.right_id as int) < m.rows
}

/// The ids of the unknown-word template `e` are inside the matrix `m`.
pub open spec fn unknown_ids_ok(m: PackedConnectionMatrix, e: UnknownEntry) -> bool {
    (e.left_id as int) < m.cols && (e.right_id as int) < m.rows
}

/// Every dictionary word and unknown-word template has its ids inside the system
/// dictionary's connection matrix, which has a row and a column.
pub open spec fn ids_in_matrix(sys: SystemDictionary, user: Option<UserDictionary>) -> bool {
    let m = sys.resource.connections;
    &&& m.rows >= 1
    &&& m.cols >= 1
    &&& forall|i: int|
        0 <= i < sys.resource.entries.len() ==> entry_ids_ok(m, #[trigger] sys.resource.entries@[i])
    &&& forall|c: int, j: int|
        0 <= c < sys.resource.unknown_entries_by_id.len() && 0 <= j
            < sys.resource.unknown_entries_by_id@[c].len() ==> unknown_ids_ok(
            m,
            #[trigger] sys.resource.unknown_entries_by_id@[c]@[j],
        )
    &&& match user {
        Some(u) => forall|i: int| 0 <= i < u.entries.len() ==> entry_ids_ok(m, #[trigger] u.entries@[i]),
        None => true,
    }
}

/// Category `c` has unknown-word templates.
pub open spec fn has_templates(sys: SystemDictionary, c: int) -> bool {
    0 <= c < sys.resource.unknown_entries_by_id.len() && sys.resource.unknown_entries_by_id@[c].len() > 0
}

/// Character `ch` has a category with unknown-word templates.
pub open spec fn char_covered(sys: SystemDictionary, ch: char) -> bool {
    exists|c: int| sys.resource.category_index.mask_has(ch as u32, c) && has_templates(sys, c)
}

/// Every character of `text` has a category with unknown-word templates.
pub open spec fn chars_covered(sys: SystemDictionary, text: Seq<char>) -> bool {
    forall|i: int| 0 <= i < text.len() ==> char_covered(sys, #[trigger] text[i])
}

/// The lattice can go on: every node's right id is inside the matrix, and some node
/// ends at the current position.
pub open spec fn healthy<'a>(lat: Lattice<'a>) -> bool {
    &&& forall|k: int|
        0 <= k < lat.slots.len() ==> (#[trigger] lat.slots@[k].node.right_id_view() as int)
            < lat.matrix.rows
    &&& lat.enodes@[lat.p as int].len() > 0
}

/// `new` is `old` with nodes added at its current position.
pub open spec fn grown<'a>(old: Lattice<'a>, new: Lattice<'a>) -> bool {
    &&& new.slots.len() >= old.slots.len()
    &&& forall|k: int| 0 <= k < old.slots.len() ==> new.slots@[k] == old.slots@[k]
    &&& forall|k: int| old.slots.len() <= k < new.slots.len() ==> new.slots@[k].pos == old.p
}

/// A node of the lattice as the tokenizer describes it: a dictionary entry with its
/// index, or an unknown word made from a template.
pub enum NodeSpec {
    Dict { entry: DictEntry, index: u32, node_type: NodeType },
    Unknown { surface: Seq<char>, template: UnknownEntry, base_form: Seq<char> },
}

/// Node `n` is the node that `s` describes.
pub open spec fn node_is<'a>(n: StartNode<'a>, s: NodeSpec) -> bool {
    match s {
        NodeSpec::Dict { entry, index, node_type } => {
            &&& n is Dict
            &&& *n->Dict_0.entry == entry
            &&& n->Dict_0.entry_index == Some(index)
            &&& n->Dict_0.node_type == node_type
        },
        NodeSpec::Unknown { surface, template, base_form } => {
            &&& n is Unknown
            &&& n->Unknown_0.surface@ == surface
            &&& n->Unknown_0.left_id == template.left_id
            &&& n->Unknown_0.right_id == template.right_id
            &&& n->Unknown_0.cost == template.cost
            &&& n->Unknown_0.part_of_speech@ == template.part_of_speech@
            &&& n->Unknown_0.inflection_type@ == asterisk()
            &&& n->Unknown_0.inflection_form@ == asterisk()
            &&& n->Unknown_0.base_form@ == base_form
            &&& n->Unknown_0.reading@ == asterisk()
            &&& n->Unknown_0.phonetic@ == asterisk()
            &&& n->Unknown_0.node_type == NodeType::Unknown
        },
    }
}

/// The ids of `ids` whose entry has a recorded length of at most `max_len`.
pub open spec fn kept_ids(entries: Seq<DictEntry>, ids: Seq<u32>, max_len: int) -> Seq<u32>
    decreases ids.len(),
{
    if ids.len() == 0 {
        Seq::empty()
    } else {
        let r = kept_ids(entries, ids.drop_last(), max_len);
        if entries[ids.last() as int].surface_len as int <= max_len {
            r.push(ids.last())
        } else {
            r
        }
    }
}

/// The dictionary words `ids` of `entries`.
pub open spec fn dict_specs(entries: Seq<DictEntry>, ids: Seq<u32>, node_type: NodeType) -> Seq<NodeSpec> {
    ids.map_values(|i: u32| NodeSpec::Dict { entry: entries[i as int], index: i, node_type })
}

/// The unknown words with surface `surface` made from `templates`.
pub open spec fn template_specs(
    templates: Seq<UnknownEntry>,
    surface: Seq<char>,
    baseform_unk: bool,
) -> Seq<NodeSpec> {
    templates.map_values(
        |t: UnknownEntry|
            NodeSpec::Unknown {
                surface,
                template: t,
                base_form: if baseform_unk {
                    surface
                } else {
                    asterisk()
                },
            },
    )
}

/// The unknown words of category `cat` at character `c`: none when a dictionary word
/// matched and the category is not always invoked, else one per template, over the
/// category's group.
pub open spec fn category_specs(
    tok: Tokenizer,
    baseform_unk: bool,
    text: Seq<char>,
    c: int,
    cat: int,
    matched: bool,
) -> Seq<NodeSpec> {
    let sys = tok.sys();
    if (!matched || sys.resource.category_index.flags@[cat].invoke) && has_templates(sys, cat) {
        template_specs(
            sys.resource.unknown_entries_by_id@[cat]@,
            text.subrange(
                c,
                group_end(
                    sys,
                    text,
                    cat,
                    c,
                    c + 1,
                    unknown_max_length(sys, cat, tok.max_unknown_length_view()),
                ),
            ),
            baseform_unk,
        )
    } else {
        Seq::empty()
    }
}

/// The unknown words of the categories `cats`, in order, at character `c`.
pub open spec fn unknown_specs(
    tok: Tokenizer,
    baseform_unk: bool,
    text: Seq<char>,
    c: int,
    cats: Seq<CategoryId>,
    matched: bool,
) -> Seq<NodeSpec>
    decreases cats.len(),
{
    if cats.len() == 0 {
        Seq::empty()
    } else {
        unknown_specs(tok, baseform_unk, text, c, cats.drop_last(), matched) + category_specs(
            tok,
            baseform_unk,
            text,
            c,
            cats.last() as int,
            matched,
        )
    }
}

/// The ids below `k`, ascending, of the categories of `ch`.
pub open spec fn cat_ids_upto(sys: SystemDictionary, ch: char, k: int) -> Seq<CategoryId>
    decreases k,
{
    if k <= 0 {
        Seq::empty()
    } else {
        let r = cat_ids_upto(sys, ch, k - 1);
        if sys.resource.category_index.mask_has(ch as u32, k - 1) {
            r.push((k - 1) as CategoryId)
        } else {
            r
        }
    }
}

/// The ids of the categories of `ch`, ascending.
pub open spec fn cat_ids(sys: SystemDictionary, ch: char) -> Seq<CategoryId> {
    cat_ids_upto(sys, ch, 128)
}

/// How many characters a dictionary word may have at character `c` of `text`.
pub open spec fn word_limit(text: Seq<char>, c: int) -> int {
    if text.len() - c < MAX_WORD_LEN {
        text.len() - c
    } else {
        MAX_WORD_LEN as int
    }
}

/// The user dictionary's words at character `c`.
pub open spec fn user_specs(tok: Tokenizer, text: Seq<char>, c: int) -> Seq<NodeSpec> {
    match tok.user() {
        Some(u) => dict_specs(
            u.entries@,
            kept_ids(u.entries@, lookup_seq(u.entries@, text, c, word_limit(text, c)), word_limit(text, c)),
            NodeType::UserDict,
        ),
        None => Seq::empty(),
    }
}

/// The system dictionary's words at character `c`.
pub open spec fn sys_specs(tok: Tokenizer, text: Seq<char>, c: int) -> Seq<NodeSpec> {
    let e = tok.sys().resource.entries@;
    dict_specs(e, kept_ids(e, lookup_seq(e, text, c, word_limit(text, c)), word_limit(text, c)), NodeType::SysDict)
}

/// The nodes that tokenizing `text` adds at character `c`: the user dictionary's
/// words, the system dictionary's words, then the unknown words of the character's
/// categories by ascending id.
pub open spec fn expected_at(tok: Tokenizer, baseform_unk: bool, text: Seq<char>, c: int) -> Seq<NodeSpec> {
    let matched = user_specs(tok, text, c).len() > 0 || sys_specs(tok, text, c).len() > 0;
    user_specs(tok, text, c) + sys_specs(tok, text, c) + unknown_specs(
        tok,
        baseform_unk,
        text,
        c,
        cat_ids(tok.sys(), text[c]),
        matched,
    )
}

/// Position `q` is reached while building the lattice: it is the first, or a node
/// ends there.
pub open spec fn reached<'a>(lat: Lattice<'a>, q: int) -> bool {
    q == 1 || exists|k: int| 0 <= k < lat.slots.len() && #[trigger] lat.slots@[k].end == q
}

/// The nodes that start at position `q` are those that `specs` describe, in order.
pub open spec fn nodes_at_are<'a>(lat: Lattice<'a>, q: int, specs: Seq<NodeSpec>) -> bool {
    &&& lat.snodes@[q].len() == specs.len()
    &&& forall|i: int|
        0 <= i < specs.len() ==> node_is(lat.slots@[#[trigger] lat.snodes@[q]@[i] as int].node, specs[i])
}

/// At every position before `upto` that is reached, the nodes are those that
/// tokenizing `text` adds there; no node starts at a position that is not reached.
pub open spec fn built_from<'a>(
    lat: Lattice<'a>,
    tok: Tokenizer,
    baseform_unk: bool,
    text: Seq<char>,
    upto: int,
) -> bool {
    forall|q: int|
        1 <= q < upto ==> if reached(lat, q) {
            nodes_at_are(lat, q, expected_at(tok, baseform_unk, text, q - 1))
        } else {
            #[trigger] lat.snodes@[q].len() == 0
        }
}

/// `new` is `old` with the nodes that `specs` describe added at its current position.
pub open spec fn added_here<'a>(old: Lattice<'a>, new: Lattice<'a>, specs: Seq<NodeSpec>) -> bool {
    &&& grown(old, new)
    &&& new.slots.len() == old.slots.len() + specs.len()
    &&& forall|i: int| 0 <= i < specs.len() ==> node_is(new.slots@[old.slots.len() + i].node, #[trigger] specs[i])
    &&& new.snodes.len() == old.snodes.len()
    &&& new.snodes@[old.p as int]@ == old.snodes@[old.p as int]@ + Seq::new(
        specs.len(),
        |i: int| (old.slots.len() + i) as usize,
    )
    &&& forall|q: int| 0 <= q < new.snodes.len() && q != old.p ==> #[trigger] new.snodes@[q] == old.snodes@[q]
}

/// Adding nodes at the current position keeps the slots in order.
proof fn lemma_added_here_in_order<'a>(old: Lattice<'a>, new: Lattice<'a>, specs: Seq<NodeSpec>)
    requires
        old.inv(),
        old.in_order(),
        added_here(old, new, specs),
    ensures
        new.in_order(),
{
    let k = old.slots.len() as int;
    assert forall|k1: int, k2: int| 0 <= k1 < k2 < new.slots.len() implies #[trigger] new.slots@[k1].pos
        <= #[trigger] new.slots@[k2].pos by {
        if k1 < k {
            assert(new.slots@[k1] == old.slots@[k1]);
            if k2 < k {
                assert(new.slots@[k2] == old.slots@[k2]);
            } else if k1 >= 1 {
                assert(old.slot_ok(k1));
            }
        }
    }
    assert forall|q: int, i: int, l: int|
        0 <= q < new.snodes.len() && 0 <= i < l < new.snodes@[q].len()
            implies #[trigger] new.snodes@[q]@[i] < #[trigger] new.snodes@[q]@[l] by {
        if q == old.p {
            let o = old.snodes@[q]@;
            let ext = Seq::new(specs.len(), |j: int| (k + j) as usize);
            assert(new.snodes@[q]@ == o + ext);
            if l < o.len() {
                assert(new.snodes@[q]@[i] == o[i]);
                assert(new.snodes@[q]@[l] == o[l]);
            } else if i >= o.len() {
                assert(new.snodes@[q]@[i] == ext[i - o.len()]);
                assert(new.snodes@[q]@[l] == ext[l - o.len()]);
            } else {
                assert(new.snodes@[q]@[i] == o[i]);
                assert(o[i] < old.slots.len());
                assert(new.snodes@[q]@[l] == ext[l - o.len()]);
            }
        } else {
            assert(new.snodes@[q] == old.snodes@[q]);
        }
    }
}

/// Adding nodes in two steps at one position adds them all.
proof fn lemma_added_here_trans<'a>(
    a: Lattice<'a>,
    b: Lattice<'a>,
    c: Lattice<'a>,
    s1: Seq<NodeSpec>,
    s2: Seq<NodeSpec>,
)
    requires
        added_here(a, b, s1),
        added_here(b, c, s2),
        b.p == a.p,
    ensures
        added_here(a, c, s1 + s2),
{
    lemma_grown_trans(a, b, c);
    let s = s1 + s2;
    assert forall|i: int| 0 <= i < s.len() implies node_is(c.slots@[a.slots.len() + i].node, #[trigger] s[i]) by {
        if i < s1.len() {
            assert(s[i] == s1[i]);
            assert(c.slots@[a.slots.len() + i] == b.slots@[a.slots.len() + i]);
        } else {
            assert(s[i] == s2[i - s1.len()]);
            assert(node_is(c.slots@[b.slots.len() + (i - s1.len())].node, s2[i - s1.len()]));
        }
    }
    assert(c.snodes@[a.p as int]@ =~= a.snodes@[a.p as int]@ + Seq::new(
        s.len(),
        |i: int| (a.slots.len() + i) as usize,
    ));
    assert forall|q: int| 0 <= q < c.snodes.len() && q != a.p implies #[trigger] c.snodes@[q] == a.snodes@[q] by {
        assert(c.snodes@[q] == b.snodes@[q]);
    }
}

/// Adding one node described by `spec` adds what `spec` describes.
proof fn lemma_added_one<'a>(old: Lattice<'a>, new: Lattice<'a>, node: StartNode<'a>, b: usize, spec: NodeSpec)
    requires
        old.inv(),
        Lattice::added(old, new, node, b),
        node.span() >= 1,
        old.p + node.span() <= old.size + 1,
        node_is(node, spec),
    ensures
        added_here(old, new, seq![spec]),
{
    let k = old.slots.len() as int;
    let end = old.p + node.span();
    assert(new.slots@[k] == old.placed(node, b));
    assert forall|m: int| old.slots.len() <= m < new.slots.len() implies new.slots@[m].pos == old.p by {
        assert(m == k);
    }
    assert(node_is(new.slots@[k + 0].node, seq![spec][0]));
    assert(new.snodes@[old.p as int]@ =~= old.snodes@[old.p as int]@ + Seq::new(
        1,
        |i: int| (old.slots.len() + i) as usize,
    ));
    assert forall|q: int| 0 <= q < new.snodes.len() && q != old.p implies #[trigger] new.snodes@[q] == old.snodes@[q] by {
        assert(new.snodes@ == old.snodes@.update(old.p as int, new.snodes@[old.p as int]));
    }
}

/// Adding nothing.
proof fn lemma_added_none<'a>(lat: Lattice<'a>)
    requires
        0 <= lat.p < lat.snodes.len(),
    ensures
        added_here(lat, lat, Seq::<NodeSpec>::empty()),
{
    assert(lat.snodes@[lat.p as int]@ =~= lat.snodes@[lat.p as int]@ + Seq::new(
        0,
        |i: int| (lat.slots.len() + i) as usize,
    ));
}

proof fn lemma_cat_ids_upto(sys: SystemDictionary, ch: char, k: int)
    requires
        0 <= k <= 128,
    ensures
        forall|x: CategoryId|
            cat_ids_upto(sys, ch, k).contains(x) <==> (x < k && sys.resource.category_index.mask_has(
                ch as u32,
                x as int,
            )),
        forall|i: int, j: int|
            0 <= i < j < cat_ids_upto(sys, ch, k).len() ==> #[trigger] cat_ids_upto(sys, ch, k)[i]
                < #[trigger] cat_ids_upto(sys, ch, k)[j],
        forall|i: int| 0 <= i < cat_ids_upto(sys, ch, k).len() ==> #[trigger] cat_ids_upto(sys, ch, k)[i] < k,
    decreases k,
{
    if k > 0 {
        lemma_cat_ids_upto(sys, ch, k - 1);
        let r = cat_ids_upto(sys, ch, k - 1);
        let s = cat_ids_upto(sys, ch, k);
        assert forall|x: CategoryId|
            s.contains(x) <==> (x < k && sys.resource.category_index.mask_has(ch as u32, x as int)) by {
            if s.contains(x) && !r.contains(x) {
                let w = choose|w: int| 0 <= w < s.len() && s[w] == x;
                assert(w == r.len());
            }
            if r.contains(x) {
                let w = choose|w: int| 0 <= w < r.len() && r[w] == x;
                assert(s[w] == x);
            }
            if x == k - 1 && sys.resource.category_index.mask_has(ch as u32, x as int) {
                assert(s[s.len() - 1] == x);
            }
        }
    }
}

/// The ids that a category mask of `ch` lists are the ids of the categories of `ch`.
proof fn lemma_iter_is_cat_ids(sys: SystemDictionary, ch: char, m: CategoryMask, ids: Seq<CategoryId>)
    requires
        sys.wf(),
        char_mask(sys, ch, m),
        forall|k: int, l: int| 0 <= k < l < ids.len() ==> ids[k] < ids[l],
        forall|k: int| 0 <= k < ids.len() ==> m.has(#[trigger] ids[k] as int),
        forall|i: int| m.has(i) ==> ids.contains(i as CategoryId),
    ensures
        ids == cat_ids(sys, ch),
{
    let c = cat_ids(sys, ch);
    lemma_cat_ids_upto(sys, ch, 128);
    assert(sys.resource.category_index.wf());
    let lt = |a: CategoryId, b: CategoryId| a < b;
    assert forall|x: CategoryId| ids.contains(x) <==> c.contains(x) by {
        if ids.contains(x) {
            let k = choose|k: int| 0 <= k < ids.len() && ids[k] == x;
            assert(m.has(ids[k] as int));
            assert(x < 128);
        }
        if c.contains(x) {
            assert(m.has(x as int));
        }
    }
    assert forall|i: int, j: int| 0 <= i < j < ids.len() implies lt(#[trigger] ids[i], #[trigger] ids[j]) by {}
    assert forall|i: int, j: int| 0 <= i < j < c.len() implies lt(#[trigger] c[i], #[trigger] c[j]) by {}
    assert forall|a: CategoryId, b: CategoryId, d: CategoryId| #[trigger] lt(a, b) && #[trigger] lt(b, d) implies lt(a, d) by {}
    crate::dictionary::lemma_sorted_unique(ids, c, lt);
}

/// Adding nodes at the current position keeps what was built before it, and leaves
/// the positions after it empty.
proof fn lemma_built_from_kept<'a>(
    old: Lattice<'a>,
    new: Lattice<'a>,
    tok: Tokenizer,
    baseform_unk: bool,
    text: Seq<char>,
    specs: Seq<NodeSpec>,
)
    requires
        old.inv(),
        new.inv(),
        built_from(old, tok, baseform_unk, text, old.p as int),
        forall|q: int| old.p <= q < old.snodes.len() ==> (#[trigger] old.snodes@[q]).len() == 0,
        added_here(old, new, specs),
        new.p == old.p,
    ensures
        built_from(new, tok, baseform_unk, text, old.p as int),
        forall|q: int| old.p < q < new.snodes.len() ==> (#[trigger] new.snodes@[q]).len() == 0,
        new.snodes@[old.p as int]@ == Seq::new(specs.len(), |i: int| (old.slots.len() + i) as usize),
        forall|i: int| 0 <= i < specs.len() ==> node_is(new.slots@[old.slots.len() + i].node, #[trigger] specs[i]),
{
    assert(old.snodes@[old.p as int]@ =~= Seq::<usize>::empty());
    assert(new.snodes@[old.p as int]@ =~= Seq::new(specs.len(), |i: int| (old.slots.len() + i) as usize));
    assert forall|q: int| 1 <= q < old.p implies if reached(new, q) {
        nodes_at_are(new, q, expected_at(tok, baseform_unk, text, q - 1))
    } else {
        #[trigger] new.snodes@[q].len() == 0
    } by {
        assert(new.snodes@[q] == old.snodes@[q]);
        if reached(new, q) && q != 1 {
            let k = choose|k: int| 0 <= k < new.slots.len() && #[trigger] new.slots@[k].end == q;
            if k >= old.slots.len() {
                assert(new.slot_ok(k));
            } else {
                assert(new.slots@[k] == old.slots@[k]);
            }
            assert(reached(old, q));
        }
        if reached(old, q) && q != 1 {
            let k = choose|k: int| 0 <= k < old.slots.len() && #[trigger] old.slots@[k].end == q;
            assert(new.slots@[k] == old.slots@[k]);
            assert(reached(new, q));
        }
        if reached(old, q) {
            let e = expected_at(tok, baseform_unk, text, q - 1);
            assert(old.snodes@[q].len() >= 0);
            assert(nodes_at_are(old, q, e));
            assert forall|i: int| 0 <= i < e.len() implies node_is(
                new.slots@[#[trigger] new.snodes@[q]@[i] as int].node,
                e[i],
            ) by {
                assert(node_is(old.slots@[old.snodes@[q]@[i] as int].node, e[i]));
                assert(old.snodes@[q]@[i] < old.slots.len());
            }
        }
    }
    assert forall|q: int| old.p < q < new.snodes.len() implies (#[trigger] new.snodes@[q]).len() == 0 by {
        assert(new.snodes@[q] == old.snodes@[q]);
    }
}

/// Moving forward past positions where no node ends keeps what was built, and the
/// position reached next is reached.
proof fn lemma_built_from_forward<'a>(
    before: Lattice<'a>,
    after: Lattice<'a>,
    tok: Tokenizer,
    baseform_unk: bool,
    text: Seq<char>,
)
    requires
        before.inv(),
        after.inv(),
        before.eos is None,
        built_from(before, tok, baseform_unk, text, before.p + 1),
        forall|q: int| before.p < q < before.snodes.len() ==> (#[trigger] before.snodes@[q]).len() == 0,
        after.slots@ == before.slots@,
        after.snodes@ == before.snodes@,
        after.enodes@ == before.enodes@,
        before.p < after.p <= before.size,
        after.p == before.size || before.enodes@[after.p as int].len() > 0,
        forall|q: int| before.p < q < after.p ==> (#[trigger] before.enodes@[q]).len() == 0,
    ensures
        built_from(after, tok, baseform_unk, text, after.p as int),
        forall|q: int| after.p <= q < after.snodes.len() ==> (#[trigger] after.snodes@[q]).len() == 0,
        after.p < after.size ==> reached(after, after.p as int),
{
    assert forall|q: int| 1 <= q < after.p implies if reached(after, q) {
        nodes_at_are(after, q, expected_at(tok, baseform_unk, text, q - 1))
    } else {
        #[trigger] after.snodes@[q].len() == 0
    } by {
        if q <= before.p {
            if reached(after, q) && q != 1 {
                let k = choose|k: int| 0 <= k < after.slots.len() && #[trigger] after.slots@[k].end == q;
                assert(before.slots@[k].end == q);
                assert(reached(before, q));
            }
            if reached(before, q) && q != 1 {
                let k = choose|k: int| 0 <= k < before.slots.len() && #[trigger] before.slots@[k].end == q;
                assert(after.slots@[k].end == q);
            }
            if reached(before, q) {
                let e = expected_at(tok, baseform_unk, text, q - 1);
                assert(before.snodes@[q].len() >= 0);
                assert(nodes_at_are(before, q, e));
                assert forall|i: int| 0 <= i < e.len() implies node_is(
                    after.slots@[#[trigger] after.snodes@[q]@[i] as int].node,
                    e[i],
                ) by {
                    assert(node_is(before.slots@[before.snodes@[q]@[i] as int].node, e[i]));
                }
            }
        } else {
            assert(before.enodes@[q].len() == 0);
            if reached(after, q) {
                let k = choose|k: int| 0 <= k < after.slots.len() && #[trigger] after.slots@[k].end == q;
                assert(before.enodes@[before.slots@[k].end as int]@.contains(k as usize));
            }
            assert(before.snodes@[q].len() == 0);
        }
    }
    if after.p < after.size {
        let q = after.p as int;
        assert(before.enodes@[q].len() > 0);
        let k = before.enodes@[q]@[0] as int;
        assert(before.slots@[k].end == q);
        assert(after.slots@[k].end == q);
    }
}

/// In a healthy lattice a node whose left id is inside the matrix can be added.
proof fn lemma_healthy_add_ok<'a>(lat: Lattice<'a>, node: StartNode<'a>)
    requires
        lat.inv(),
        healthy(lat),
        (node.left_id_view() as int) < lat.matrix.cols,
    ensures
        lat.add_error(node) is None,
{
    assert forall|i: int| 0 <= i < lat.here().len() implies lat.link_ok_into(lat.here()[i] as int, node) by {
        assert(lat.enodes@[lat.p as int]@[i] < lat.slots.len());
        assert((lat.slots@[lat.here()[i] as int].node.right_id_view() as int) < lat.matrix.rows);
    }
    assert(!exists|i: int| lat.first_bad_link(node, i));
}

/// Adding a node whose right id is inside the matrix keeps the lattice healthy.
proof fn lemma_added_healthy<'a>(old: Lattice<'a>, new: Lattice<'a>, node: StartNode<'a>, b: usize)
    requires
        old.inv(),
        healthy(old),
        Lattice::added(old, new, node, b),
        node.span() >= 1,
        old.p + node.span() <= old.size + 1,
        (node.right_id_view() as int) < old.matrix.rows,
    ensures
        healthy(new),
        grown(old, new),
{
    let end = old.p + node.span();
    assert(0 <= end < old.enodes.len());
    assert(new.enodes@[old.p as int] == old.enodes@[old.p as int]);
    assert forall|k: int| 0 <= k < new.slots.len() implies (#[trigger] new.slots@[k].node.right_id_view() as int)
        < new.matrix.rows by {
        if k < old.slots.len() {
            assert(new.slots@[k] == old.slots@[k]);
        } else {
            assert(new.slots@[k] == old.placed(node, b));
        }
    }
    assert forall|k: int| old.slots.len() <= k < new.slots.len() implies new.slots@[k].pos == old.p by {
        assert(new.slots@[k] == old.placed(node, b));
    }
}

/// Growing twice at one position is growing.
proof fn lemma_grown_trans<'a>(a: Lattice<'a>, b: Lattice<'a>, c: Lattice<'a>)
    requires
        grown(a, b),
        grown(b, c),
        b.p == a.p,
    ensures
        grown(a, c),
{
}

/// `e` is what adding some node to some lattice with the connection costs `matrix`
/// fails with.
pub open spec fn add_error_of(e: RunomeError, matrix: PackedConnectionMatrix) -> bool {
    exists|l: Lattice<'static>, n: StartNode<'static>|
        #![trigger l.add_error(n)]
        l.inv() && *l.matrix == matrix && l.add_error(n) == Some(e)
}

/// Adding the dictionary words `indices` of `entries` stopped at word `i` with the
/// error `e`: the words before it that fit were added, and adding word `i`, which
/// fits, gave `e`.
pub open spec fn dict_add_failed<'a>(
    old: Lattice<'a>,
    new: Lattice<'a>,
    entries: Seq<DictEntry>,
    indices: Seq<u32>,
    max_len: int,
    node_type: NodeType,
    e: RunomeError,
) -> bool {
    exists|i: int, n: StartNode<'a>|
        #![trigger indices[i], new.add_error(n)]
        {
            &&& 0 <= i < indices.len()
            &&& entries[indices[i] as int].surface_len as int <= max_len
            &&& added_here(old, new, dict_specs(entries, kept_ids(entries, indices.take(i), max_len), node_type))
            &&& node_is(n, NodeSpec::Dict { entry: entries[indices[i] as int], index: indices[i], node_type })
            &&& new.add_error(n) == Some(e)
        }
}

/// Adding, in order, the nodes that `specs` describe stopped with the error `e`: the
/// nodes before some `j` were added, and adding node `j` gave `e`.
pub open spec fn stopped_in<'a>(old: Lattice<'a>, new: Lattice<'a>, specs: Seq<NodeSpec>, e: RunomeError) -> bool {
    exists|j: int, n: StartNode<'a>|
        #![trigger specs[j], new.add_error(n)]
        {
            &&& 0 <= j < specs.len()
            &&& added_here(old, new, specs.take(j))
            &&& node_is(n, specs[j])
            &&& new.add_error(n) == Some(e)
        }
}

/// A stop in the first nodes of a list is a stop in the whole list.
proof fn lemma_stopped_extend<'a>(o: Lattice<'a>, n: Lattice<'a>, a: Seq<NodeSpec>, b: Seq<NodeSpec>, e: RunomeError)
    requires
        stopped_in(o, n, a, e),
        a.len() <= b.len(),
        b.take(a.len() as int) == a,
    ensures
        stopped_in(o, n, b, e),
{
    let (j, nd) = choose|j: int, nd: StartNode<'a>|
        #![trigger a[j], n.add_error(nd)]
        {
            &&& 0 <= j < a.len()
            &&& added_here(o, n, a.take(j))
            &&& node_is(nd, a[j])
            &&& n.add_error(nd) == Some(e)
        };
    assert(b.take(j) =~= a.take(j)) by {
        assert forall|k: int| 0 <= k < j implies b.take(j)[k] == a.take(j)[k] by {
            assert(b.take(a.len() as int)[k] == b[k]);
        }
    }
    assert(b.take(a.len() as int)[j] == b[j]);
    assert(b[j] == a[j]);
}

/// Nodes added first, then a stop in a second list, make a stop in both lists.
proof fn lemma_stopped_after<'a>(
    o: Lattice<'a>,
    m: Lattice<'a>,
    n: Lattice<'a>,
    a: Seq<NodeSpec>,
    b: Seq<NodeSpec>,
    e: RunomeError,
)
    requires
        added_here(o, m, a),
        stopped_in(m, n, b, e),
        m.p == o.p,
    ensures
        stopped_in(o, n, a + b, e),
{
    let (j, nd) = choose|j: int, nd: StartNode<'a>|
        #![trigger b[j], n.add_error(nd)]
        {
            &&& 0 <= j < b.len()
            &&& added_here(m, n, b.take(j))
            &&& node_is(nd, b[j])
            &&& n.add_error(nd) == Some(e)
        };
    lemma_added_here_trans(o, m, n, a, b.take(j));
    assert((a + b).take(a.len() + j) =~= a + b.take(j));
    assert((a + b)[a.len() + j] == b[j]);
}

/// The unknown words of the first categories are the first unknown words.
proof fn lemma_unknown_specs_prefix(
    tok: Tokenizer,
    baseform_unk: bool,
    text: Seq<char>,
    c: int,
    cats: Seq<CategoryId>,
    m: int,
    matched: bool,
)
    requires
        0 <= m <= cats.len(),
    ensures
        unknown_specs(tok, baseform_unk, text, c, cats.take(m), matched).len() <= unknown_specs(
            tok,
            baseform_unk,
            text,
            c,
            cats,
            matched,
        ).len(),
        unknown_specs(tok, baseform_unk, text, c, cats, matched).take(
            unknown_specs(tok, baseform_unk, text, c, cats.take(m), matched).len() as int,
        ) == unknown_specs(tok, baseform_unk, text, c, cats.take(m), matched),
    decreases cats.len() - m,
{
    let full = unknown_specs(tok, baseform_unk, text, c, cats, matched);
    if m == cats.len() {
        assert(cats.take(m) =~= cats);
        assert(full.take(full.len() as int) =~= full);
    } else {
        lemma_unknown_specs_prefix(tok, baseform_unk, text, c, cats, m + 1, matched);
        assert(cats.take(m + 1).drop_last() =~= cats.take(m));
        let a = unknown_specs(tok, baseform_unk, text, c, cats.take(m), matched);
        let b = unknown_specs(tok, baseform_unk, text, c, cats.take(m + 1), matched);
        assert(b.take(a.len() as int) =~= a);
        assert(full.take(a.len() as int) =~= full.take(b.len() as int).take(a.len() as int));
    }
}

/// The kept words of a prefix of `s` are a prefix of the kept words of `s`.
proof fn lemma_kept_prefix(entries: Seq<DictEntry>, s: Seq<u32>, m: int, max_len: int)
    requires
        0 <= m <= s.len(),
    ensures
        kept_ids(entries, s.take(m), max_len).len() <= kept_ids(entries, s, max_len).len(),
        kept_ids(entries, s, max_len).take(kept_ids(entries, s.take(m), max_len).len() as int)
            == kept_ids(entries, s.take(m), max_len),
    decreases s.len() - m,
{
    if m == s.len() {
        assert(s.take(m) =~= s);
        let c = kept_ids(entries, s, max_len);
        assert(c.take(c.len() as int) =~= c);
    } else {
        lemma_kept_prefix(entries, s, m + 1, max_len);
        assert(s.take(m + 1).drop_last() =~= s.take(m));
        let a = kept_ids(entries, s.take(m), max_len);
        let b = kept_ids(entries, s.take(m + 1), max_len);
        let c = kept_ids(entries, s, max_len);
        assert(b.take(a.len() as int) =~= a);
        assert(c.take(a.len() as int) =~= c.take(b.len() as int).take(a.len() as int));
    }
}

/// A failure while adding dictionary words stops in the list of their nodes.
proof fn lemma_dict_failed_stops<'a>(
    old: Lattice<'a>,
    new: Lattice<'a>,
    entries: Seq<DictEntry>,
    indices: Seq<u32>,
    max_len: int,
    node_type: NodeType,
    e: RunomeError,
)
    requires
        dict_add_failed(old, new, entries, indices, max_len, node_type, e),
    ensures
        stopped_in(old, new, dict_specs(entries, kept_ids(entries, indices, max_len), node_type), e),
{
    let (i, n) = choose|i: int, n: StartNode<'a>|
        #![trigger indices[i], new.add_error(n)]
        {
            &&& 0 <= i < indices.len()
            &&& entries[indices[i] as int].surface_len as int <= max_len
            &&& added_here(old, new, dict_specs(entries, kept_ids(entries, indices.take(i), max_len), node_type))
            &&& node_is(n, NodeSpec::Dict { entry: entries[indices[i] as int], index: indices[i], node_type })
            &&& new.add_error(n) == Some(e)
        };
    let id = indices[i];
    let a = kept_ids(entries, indices.take(i), max_len);
    let j = a.len() as int;
    lemma_kept_prefix(entries, indices, i + 1, max_len);
    assert(indices.take(i + 1).drop_last() =~= indices.take(i));
    assert(indices.take(i + 1).last() == id);
    let b = kept_ids(entries, indices.take(i + 1), max_len);
    assert(b == a.push(id));
    let full = kept_ids(entries, indices, max_len);
    assert(full.take(j + 1) == b);
    assert(full[j] == b[j]);
    assert(full.take(j) =~= a);
    let specs = dict_specs(entries, full, node_type);
    assert(specs.take(j) =~= dict_specs(entries, a, node_type));
    assert(specs[j] == NodeSpec::Dict { entry: entries[id as int], index: id, node_type });
}

impl Tokenizer {
    /// Adds to the lattice, at its current position, the dictionary words `indices` of
    /// `entries` whose recorded length is at most `max_char_len`; returns whether it
    /// added any. Fails as [`Lattice::add`] does, which it cannot when the lattice is
    /// healthy and the words' ids are inside the matrix.
    fn emit_dictionary_entries<'a>(
        lattice: &mut Lattice<'a>,
        entries: &'a [DictEntry],
        indices: &[u32],
        node_type: NodeType,
        max_char_len: usize,
        Ghost(text): Ghost<Seq<char>>,
    ) -> (r: Result<bool, RunomeError>)
        requires
            old(lattice).inv(),
            old(lattice).eos is None,
            covers(*old(lattice), text),
            old(lattice).size == text.len() + 1,
            old(lattice).p + max_char_len <= old(lattice).size,
            forall|i: int|
                0 <= i < indices.len() ==> surface_matches(
                    entries@,
                    text,
                    old(lattice).p - 1,
                    max_char_len as int,
                    #[trigger] indices@[i] as int,
                ),
        ensures
            r matches Ok(b) ==> {
                &&& final(lattice).inv()
                &&& final(lattice).eos is None
                &&& covers(*final(lattice), text)
                &&& final(lattice).p == old(lattice).p
                &&& final(lattice).size == old(lattice).size
                &&& final(lattice).matrix == old(lattice).matrix
                &&& grown(*old(lattice), *final(lattice))
                &&& added_here(
                    *old(lattice),
                    *final(lattice),
                    dict_specs(entries@, kept_ids(entries@, indices@, max_char_len as int), node_type),
                )
                &&& b == (kept_ids(entries@, indices@, max_char_len as int).len() > 0)
            },
            r matches Err(e) ==> {
                &&& lattice_error(e)
                &&& final(lattice).inv()
                &&& final(lattice).eos is None
                &&& covers(*final(lattice), text)
                &&& final(lattice).p == old(lattice).p
                &&& final(lattice).size == old(lattice).size
                &&& final(lattice).matrix == old(lattice).matrix
                &&& dict_add_failed(
                    *old(lattice),
                    *final(lattice),
                    entries@,
                    indices@,
                    max_char_len as int,
                    node_type,
                    e,
                )
                &&& add_error_of(e, *old(lattice).matrix)
                &&& stopped_in(
                    *old(lattice),
                    *final(lattice),
                    dict_specs(entries@, kept_ids(entries@, indices@, max_char_len as int), node_type),
                    e,
                )
            },
            (healthy(*old(lattice)) && forall|i: int|
                0 <= i < indices.len() ==> entry_ids_ok(
                    *old(lattice).matrix,
                    entries@[#[trigger] indices@[i] as int],
                )) ==> (r is Ok && healthy(*final(lattice))),
    {
        let ghost start = *lattice;
        let ghost good = healthy(*lattice) && forall|i: int|
            0 <= i < indices.len() ==> entry_ids_ok(*lattice.matrix, entries@[#[trigger] indices@[i] as int]);
        let mut emitted = false;
        let mut i: usize = 0;
        proof {
            lemma_added_none(*lattice);
            assert(indices@.take(0) =~= Seq::<u32>::empty());
            assert(dict_specs(entries@, kept_ids(entries@, indices@.take(0), max_char_len as int), node_type)
                =~= Seq::<NodeSpec>::empty());
        }
        while i < indices.len()
            invariant
                i <= indices.len(),
                lattice.inv(),
                lattice.eos is None,
                covers(*lattice, text),
                lattice.p == old(lattice).p,
                lattice.size == old(lattice).size,
                lattice.matrix == old(lattice).matrix,
                start == *old(lattice),
                grown(start, *lattice),
                added_here(
                    start,
                    *lattice,
                    dict_specs(entries@, kept_ids(entries@, indices@.take(i as int), max_char_len as int), node_type),
                ),
                good == (healthy(start) && forall|i: int|
                    0 <= i < indices.len() ==> entry_ids_ok(*start.matrix, entries@[#[trigger] indices@[i] as int])),
                good ==> healthy(*lattice),
                old(lattice).size == text.len() + 1,
                old(lattice).p + max_char_len <= old(lattice).size,
                forall|j: int|
                    0 <= j < indices.len() ==> surface_matches(
                        entries@,
                        text,
                        old(lattice).p - 1,
                        max_char_len as int,
                        #[trigger] indices@[j] as int,
                    ),
                emitted == (kept_ids(entries@, indices@.take(i as int), max_char_len as int).len() > 0),
            decreases indices.len() - i,
        {
            let id = indices[i];
            proof {
                assert(surface_matches(entries@, text, old(lattice).p - 1, max_char_len as int, indices@[i as int] as int));
            }
            proof {
                assert(indices@.take(i + 1).drop_last() =~= indices@.take(i as int));
                assert(indices@.take(i + 1).last() == id);
            }
            if entries[id as usize].surface_len as usize > max_char_len {
                i = i + 1;
                continue ;
            }
            let node = StartNode::Dict(Node::new(&entries[id as usize], Some(id), node_type));
            let ghost before = *lattice;
            proof {
                if good {
                    assert(entry_ids_ok(*start.matrix, entries@[indices@[i as int] as int]));
                    lemma_healthy_add_ok(before, node);
                }
            }
            match lattice.add(node) {
                Ok(()) => {},
                Err(e) => {
                    proof {
                        let sp = NodeSpec::Dict { entry: entries@[id as int], index: id, node_type };
                        assert(node_is(node, sp));
                        assert(lattice.add_error(node) == Some(e));
                        assert(indices@[i as int] == id);
                        assert(dict_add_failed(
                            start,
                            *lattice,
                            entries@,
                            indices@,
                            max_char_len as int,
                            node_type,
                            e,
                        ));
                        assert(add_error_of(e, *start.matrix));
                        lemma_dict_failed_stops(
                            start,
                            *lattice,
                            entries@,
                            indices@,
                            max_char_len as int,
                            node_type,
                            e,
                        );
                    }
                    return Err(e);
                },
            }
            proof {
                let b = choose|b: usize| Lattice::added(before, *lattice, node, b);
                lemma_added_covers(before, *lattice, node, b, text);
                assert(lattice.slots@[before.slots.len() as int] == before.placed(node, b));
                assert forall|k: int| 0 <= k < before.slots.len() implies lattice.slots@[k] == before.slots@[k] by {}
                if good {
                    assert(entry_ids_ok(*start.matrix, entries@[indices@[i as int] as int]));
                    lemma_added_healthy(before, *lattice, node, b);
                }
                assert(grown(before, *lattice)) by {
                    assert forall|k: int| before.slots.len() <= k < lattice.slots.len() implies lattice.slots@[k].pos == before.p by {
                        assert(k == before.slots.len());
                    }
                }
                lemma_grown_trans(start, before, *lattice);
                let sp = NodeSpec::Dict { entry: entries@[id as int], index: id, node_type };
                lemma_added_one(before, *lattice, node, b, sp);
                let prev = dict_specs(entries@, kept_ids(entries@, indices@.take(i as int), max_char_len as int), node_type);
                lemma_added_here_trans(start, before, *lattice, prev, seq![sp]);
                assert(dict_specs(entries@, kept_ids(entries@, indices@.take(i + 1), max_char_len as int), node_type)
                    =~= prev + seq![sp]);
            }
            emitted = true;
            i = i + 1;
        }
        proof {
            assert(indices@.take(indices.len() as int) =~= indices@);
        }
        Ok(emitted)
    }

    /// Adds at the lattice's current position the unknown words of category
    /// `category_id` for character `char_pos`: one per template of the category, over
    /// the category's group, unless a dictionary word `matched` there and the category
    /// is not always invoked. Fails as [`Lattice::add`] does, which it cannot when the
    /// lattice is healthy and the templates' ids are inside the matrix.
    fn add_category_words<'a>(
        &'a self,
        lattice: &mut Lattice<'a>,
        chunk: &ChunkCharView,
        char_pos: usize,
        category_id: CategoryId,
        char_categories_cache: &[CategoryMask],
        matched: bool,
        baseform_unk: bool,
    ) -> (r: Result<(), RunomeError>)
        requires
            self.wf(),
            char_pos < chunk.chars.len(),
            char_categories_cache.len() == chunk.chars.len(),
            forall|i: int|
                0 <= i < chunk.chars.len() ==> char_mask(self.sys(), chunk.chars@[i], #[trigger] char_categories_cache@[i]),
            char_categories_cache@[char_pos as int].has(category_id as int),
            old(lattice).inv(),
            old(lattice).eos is None,
            old(lattice).size == chunk.chars.len() + 1,
            old(lattice).p == char_pos + 1,
            covers(*old(lattice), chunk.chars@),
        ensures
            r is Ok ==> {
                &&& final(lattice).inv()
                &&& final(lattice).eos is None
                &&& final(lattice).size == old(lattice).size
                &&& final(lattice).p == old(lattice).p
                &&& final(lattice).matrix == old(lattice).matrix
                &&& covers(*final(lattice), chunk.chars@)
                &&& added_here(
                    *old(lattice),
                    *final(lattice),
                    category_specs(*self, baseform_unk, chunk.chars@, char_pos as int, category_id as int, matched),
                )
            },
            r matches Err(e) ==> {
                &&& lattice_error(e)
                &&& add_error_of(e, *old(lattice).matrix)
                &&& final(lattice).inv()
                &&& final(lattice).eos is None
                &&& final(lattice).size == old(lattice).size
                &&& final(lattice).p == old(lattice).p
                &&& final(lattice).matrix == old(lattice).matrix
                &&& covers(*final(lattice), chunk.chars@)
                &&& stopped_in(
                    *old(lattice),
                    *final(lattice),
                    category_specs(*self, baseform_unk, chunk.chars@, char_pos as int, category_id as int, matched),
                    e,
                )
            },
            (ids_in_matrix(self.sys(), self.user()) && *old(lattice).matrix == self.sys().resource.connections
                && healthy(*old(lattice))) ==> (r is Ok && healthy(*final(lattice))),
    {
        let ghost text = chunk.chars@;
        let ghost c = char_pos as int;
        let ghost good = ids_in_matrix(self.sys(), self.user()) && *lattice.matrix
            == self.sys().resource.connections && healthy(*lattice);
        let ghost before_cat = *lattice;
        let ghost cspecs = category_specs(*self, baseform_unk, text, c, category_id as int, matched);
        proof {
            assert(char_mask(self.sys(), text[c], char_categories_cache@[c]));
            lemma_added_none(*lattice);
        }
        let should_invoke = !matched || self.sys_dic.resource.unknown_invoked_always_by_id(category_id);
        proof {
            if !(should_invoke && has_templates(self.sys(), category_id as int)) {
                assert(cspecs =~= Seq::<NodeSpec>::empty());
            }
        }
        if !should_invoke {
            return Ok(());
        }
        let unknown_entries = match self.sys_dic.resource.get_unknown_entries_by_id(category_id) {
            Some(u) => u,
            None => {
                return Ok(());
            },
        };
        let grouped_surface = match self.build_grouped_surface_python_style(
            chunk,
            char_pos,
            category_id,
            char_categories_cache,
        ) {
            Ok(s) => s,
            Err(e) => {
                return Err(e);
            },
        };
        let ghost ge = group_end(
            self.sys(),
            text,
            category_id as int,
            c,
            c + 1,
            unknown_max_length(self.sys(), category_id as int, self.max_unknown_length_view()),
        );
        proof {
            lemma_group_end_bounds(
                self.sys(),
                text,
                category_id as int,
                c,
                c + 1,
                unknown_max_length(self.sys(), category_id as int, self.max_unknown_length_view()),
            );
            assert(unknown_entries@.take(0) =~= Seq::<UnknownEntry>::empty());
            assert(template_specs(unknown_entries@.take(0), grouped_surface@, baseform_unk)
                =~= Seq::<NodeSpec>::empty());
            assert(cspecs == template_specs(unknown_entries@, grouped_surface@, baseform_unk));
        }
        let mut j: usize = 0;
        while j < unknown_entries.len()
            invariant
                j <= unknown_entries.len(),
                grouped_surface@ == text.subrange(c, ge),
                c < ge <= text.len(),
                c == char_pos,
                text == chunk.chars@,
                lattice.inv(),
                lattice.eos is None,
                lattice.size == text.len() + 1,
                lattice.p == char_pos + 1,
                lattice.matrix == old(lattice).matrix,
                covers(*lattice, text),
                before_cat == *old(lattice),
                before_cat.p == char_pos + 1,
                cspecs == template_specs(unknown_entries@, grouped_surface@, baseform_unk),
                cspecs == category_specs(*self, baseform_unk, text, c, category_id as int, matched),
                before_cat.size == text.len() + 1,
                good == (ids_in_matrix(self.sys(), self.user()) && *old(lattice).matrix
                    == self.sys().resource.connections && healthy(*old(lattice))),
                good ==> healthy(*lattice),
                (category_id as int) < self.sys().resource.unknown_entries_by_id.len(),
                unknown_entries@ == self.sys().resource.unknown_entries_by_id@[category_id as int]@,
                added_here(
                    before_cat,
                    *lattice,
                    template_specs(unknown_entries@.take(j as int), grouped_surface@, baseform_unk),
                ),
            decreases unknown_entries.len() - j,
        {
            let entry = &unknown_entries[j];
            let base_form_option = if baseform_unk {
                Some(grouped_surface.as_str())
            } else {
                None
            };
            let node = StartNode::Unknown(
                UnknownNode::for_unknown_word(
                    grouped_surface.as_str(),
                    entry.left_id,
                    entry.right_id,
                    entry.cost,
                    entry.part_of_speech.as_str(),
                    base_form_option,
                    NodeType::Unknown,
                ),
            );
            let ghost before = *lattice;
            proof {
                if good {
                    assert(unknown_ids_ok(
                        *lattice.matrix,
                        self.sys().resource.unknown_entries_by_id@[category_id as int]@[j as int],
                    ));
                    lemma_healthy_add_ok(before, node);
                }
            }
            match lattice.add(node) {
                Ok(()) => {},
                Err(e) => {
                    proof {
                        assert(lattice.add_error(node) == Some(e));
                        assert(add_error_of(e, *lattice.matrix));
                        let sp = NodeSpec::Unknown {
                            surface: grouped_surface@,
                            template: unknown_entries@[j as int],
                            base_form: if baseform_unk {
                                grouped_surface@
                            } else {
                                asterisk()
                            },
                        };
                        assert(cspecs.take(j as int) =~= template_specs(
                            unknown_entries@.take(j as int),
                            grouped_surface@,
                            baseform_unk,
                        ));
                        assert(cspecs[j as int] == sp);
                        assert(node_is(node, sp));
                        assert(stopped_in(before_cat, *lattice, cspecs, e));
                    }
                    return Err(e);
                },
            }
            proof {
                let b = choose|b: usize| Lattice::added(before, *lattice, node, b);
                lemma_added_covers(before, *lattice, node, b, text);
                if good {
                    assert(unknown_ids_ok(
                        *lattice.matrix,
                        self.sys().resource.unknown_entries_by_id@[category_id as int]@[j as int],
                    ));
                    lemma_added_healthy(before, *lattice, node, b);
                }
                let sp = NodeSpec::Unknown {
                    surface: grouped_surface@,
                    template: unknown_entries@[j as int],
                    base_form: if baseform_unk {
                        grouped_surface@
                    } else {
                        asterisk()
                    },
                };
                lemma_added_one(before, *lattice, node, b, sp);
                let prev = template_specs(unknown_entries@.take(j as int), grouped_surface@, baseform_unk);
                lemma_added_here_trans(before_cat, before, *lattice, prev, seq![sp]);
                assert(template_specs(unknown_entries@.take(j + 1), grouped_surface@, baseform_unk)
                    =~= prev + seq![sp]);
            }
            j = j + 1;
        }
        proof {
            assert(unknown_entries@.take(unknown_entries.len() as int) =~= unknown_entries@);
            assert(cspecs == template_specs(unknown_entries@, grouped_surface@, baseform_unk));
        }
        Ok(())
    }

    /// Adds at the lattice's current position the nodes that start at character
    /// `char_pos`: the words of the user dictionary, then of the system dictionary,
    /// then the unknown words of each category of the character by ascending id.
    /// Fails as [`Lattice::add`] does, which it cannot when the lattice is healthy,
    /// all ids are inside the matrix and the character has a category with
    /// unknown-word templates; then at least one node is added.
    #[verifier::spinoff_prover]
    #[verifier::rlimit(50)]
    fn add_nodes_at<'a>(
        &'a self,
        lattice: &mut Lattice<'a>,
        chunk: &ChunkCharView,
        char_pos: usize,
        char_categories_cache: &[CategoryMask],
        baseform_unk: bool,
    ) -> (r: Result<(), RunomeError>)
        requires
            self.wf(),
            char_pos < chunk.chars.len(),
            char_categories_cache.len() == chunk.chars.len(),
            forall|i: int|
                0 <= i < chunk.chars.len() ==> char_mask(self.sys(), chunk.chars@[i], #[trigger] char_categories_cache@[i]),
            old(lattice).inv(),
            old(lattice).eos is None,
            old(lattice).size == chunk.chars.len() + 1,
            old(lattice).p == char_pos + 1,
            covers(*old(lattice), chunk.chars@),
        ensures
            r is Ok ==> {
                &&& final(lattice).inv()
                &&& final(lattice).eos is None
                &&& final(lattice).size == old(lattice).size
                &&& final(lattice).p == old(lattice).p
                &&& final(lattice).matrix == old(lattice).matrix
                &&& covers(*final(lattice), chunk.chars@)
                &&& added_here(
                    *old(lattice),
                    *final(lattice),
                    expected_at(*self, baseform_unk, chunk.chars@, char_pos as int),
                )
            },
            r matches Err(e) ==> {
                &&& lattice_error(e)
                &&& add_error_of(e, *old(lattice).matrix)
                &&& final(lattice).inv()
                &&& final(lattice).eos is None
                &&& final(lattice).size == old(lattice).size
                &&& final(lattice).p == old(lattice).p
                &&& final(lattice).matrix == old(lattice).matrix
                &&& covers(*final(lattice), chunk.chars@)
                &&& stopped_in(
                    *old(lattice),
                    *final(lattice),
                    expected_at(*self, baseform_unk, chunk.chars@, char_pos as int),
                    e,
                )
            },
            (ids_in_matrix(self.sys(), self.user()) && char_covered(self.sys(), chunk.chars@[char_pos as int])
                && *old(lattice).matrix == self.sys().resource.connections && healthy(*old(lattice))) ==> {
                &&& r is Ok
                &&& healthy(*final(lattice))
                &&& final(lattice).slots.len() > old(lattice).slots.len()
            },
    {
        let ghost text = chunk.chars@;
        let ghost c = char_pos as int;
        let ghost start_it = *lattice;
        let ghost good = ids_in_matrix(self.sys(), self.user()) && char_covered(self.sys(), text[c])
            && *lattice.matrix == self.sys().resource.connections && healthy(*lattice);
        let ghost uspecs = user_specs(*self, text, c);
        let ghost sspecs = sys_specs(*self, text, c);
        let total = chunk.len_chars();
        proof {
            lemma_added_none(*lattice);
        }
        let mut matched = false;
        let max_char_len = if total - char_pos < MAX_WORD_LEN {
            total - char_pos
        } else {
            MAX_WORD_LEN
        };
        if let Some(user_dic) = &self.user_dic {
            let indices = user_dic.lookup_entries_with_indices(chunk.chars.as_slice(), char_pos, max_char_len);
            proof {
                assert(self.user() == Some(**user_dic));
                assert(uspecs == dict_specs(
                    user_dic.entries@,
                    kept_ids(user_dic.entries@, indices@, max_char_len as int),
                    NodeType::UserDict,
                ));
                if indices.len() == 0 {
                    assert(indices@ =~= Seq::<u32>::empty());
                    assert(uspecs =~= Seq::<NodeSpec>::empty());
                }
            }
            if indices.len() > 0 {
                proof {
                    if good {
                        assert forall|i: int| 0 <= i < indices.len() implies entry_ids_ok(
                            *lattice.matrix,
                            user_dic.entries@[#[trigger] indices@[i] as int],
                        ) by {
                            assert(surface_matches(user_dic.entries@, text, c, max_char_len as int, indices@[i] as int));
                        }
                    }
                }
                match Self::emit_dictionary_entries(
                    lattice,
                    user_dic.entries.as_slice(),
                    indices.as_slice(),
                    NodeType::UserDict,
                    max_char_len,
                    Ghost(text),
                ) {
                    Ok(emitted) => {
                        if emitted {
                            matched = true;
                        }
                    },
                    Err(e) => {
                        proof {
                            let ex = expected_at(*self, baseform_unk, text, c);
                            assert(ex.take(uspecs.len() as int) =~= uspecs);
                            lemma_stopped_extend(start_it, *lattice, uspecs, ex, e);
                        }
                        return Err(e);
                    },
                }
            }
        } else {
            proof {
                assert(uspecs =~= Seq::<NodeSpec>::empty());
            }
        }
        proof {
            assert(added_here(start_it, *lattice, uspecs));
            assert(matched == (uspecs.len() > 0));
        }
        let indices = self.sys_dic.lookup_entries_with_indices(chunk.chars.as_slice(), char_pos, max_char_len);
        let ghost before_sys = *lattice;
        proof {
            assert(sspecs == dict_specs(
                self.sys().resource.entries@,
                kept_ids(self.sys().resource.entries@, indices@, max_char_len as int),
                NodeType::SysDict,
            ));
            if indices.len() == 0 {
                assert(indices@ =~= Seq::<u32>::empty());
                assert(sspecs =~= Seq::<NodeSpec>::empty());
                lemma_added_none(*lattice);
            }
        }
        if indices.len() > 0 {
            proof {
                if good {
                    assert forall|i: int| 0 <= i < indices.len() implies entry_ids_ok(
                        *lattice.matrix,
                        self.sys_dic.resource.entries@[#[trigger] indices@[i] as int],
                    ) by {
                        assert(surface_matches(
                            self.sys_dic.resource.entries@,
                            text,
                            c,
                            max_char_len as int,
                            indices@[i] as int,
                        ));
                    }
                }
            }
            match Self::emit_dictionary_entries(
                lattice,
                self.sys_dic.resource.entries.as_slice(),
                indices.as_slice(),
                NodeType::SysDict,
                max_char_len,
                Ghost(text),
            ) {
                Ok(emitted) => {
                    if emitted {
                        matched = true;
                    }
                },
                Err(e) => {
                    proof {
                        let ex = expected_at(*self, baseform_unk, text, c);
                        lemma_stopped_after(start_it, before_sys, *lattice, uspecs, sspecs, e);
                        assert(ex.take((uspecs + sspecs).len() as int) =~= uspecs + sspecs);
                        lemma_stopped_extend(start_it, *lattice, uspecs + sspecs, ex, e);
                    }
                    return Err(e);
                },
            }
        }
        let ghost prefix = uspecs + sspecs;
        proof {
            lemma_added_here_trans(start_it, before_sys, *lattice, uspecs, sspecs);
            assert(matched == (uspecs.len() > 0 || sspecs.len() > 0));
        }
        let char_categories = char_categories_cache[char_pos];
        let category_ids = char_categories.iter();
        proof {
            assert(char_mask(self.sys(), text[c], char_categories_cache@[c]));
            lemma_iter_is_cat_ids(self.sys(), text[c], char_categories, category_ids@);
            assert(category_ids@.take(0) =~= Seq::<CategoryId>::empty());
            assert(prefix + unknown_specs(*self, baseform_unk, text, c, category_ids@.take(0), matched) =~= prefix);
        }
        let mut ci: usize = 0;
        while ci < category_ids.len()
            invariant
                self.wf(),
                text == chunk.chars@,
                char_categories_cache.len() == text.len(),
                forall|i: int|
                    0 <= i < text.len() ==> char_mask(self.sys(), text[i], #[trigger] char_categories_cache@[i]),
                c == char_pos,
                char_pos < text.len(),
                char_categories == char_categories_cache@[c],
                forall|k: int| 0 <= k < category_ids.len() ==> char_categories.has(#[trigger] category_ids@[k] as int),
                lattice.inv(),
                lattice.eos is None,
                lattice.size == text.len() + 1,
                lattice.p == char_pos + 1,
                lattice.matrix == old(lattice).matrix,
                covers(*lattice, text),
                start_it == *old(lattice),
                start_it.p == char_pos + 1,
                start_it.size == text.len() + 1,
                good == (ids_in_matrix(self.sys(), self.user()) && char_covered(self.sys(), text[c])
                    && *old(lattice).matrix == self.sys().resource.connections && healthy(*old(lattice))),
                good ==> healthy(*lattice),
                (good && !matched && exists|k: int|
                    0 <= k < ci && has_templates(self.sys(), #[trigger] category_ids@[k] as int))
                    ==> lattice.slots.len() > start_it.slots.len(),
                category_ids@ == cat_ids(self.sys(), text[c]),
                ci <= category_ids.len(),
                matched == (uspecs.len() > 0 || sspecs.len() > 0),
                prefix == uspecs + sspecs,
                uspecs == user_specs(*self, text, c),
                sspecs == sys_specs(*self, text, c),
                added_here(
                    start_it,
                    *lattice,
                    prefix + unknown_specs(*self, baseform_unk, text, c, category_ids@.take(ci as int), matched),
                ),
            decreases category_ids.len() - ci,
        {
            let category_id = category_ids[ci];
            let ghost before_cat = *lattice;
            let ghost cspecs = category_specs(*self, baseform_unk, text, c, category_id as int, matched);
            proof {
                assert(char_categories.has(category_ids@[ci as int] as int));
            }
            match self.add_category_words(
                lattice,
                chunk,
                char_pos,
                category_id,
                char_categories_cache,
                matched,
                baseform_unk,
            ) {
                Ok(()) => {},
                Err(e) => {
                    proof {
                        let prev = prefix + unknown_specs(
                            *self,
                            baseform_unk,
                            text,
                            c,
                            category_ids@.take(ci as int),
                            matched,
                        );
                        lemma_stopped_after(start_it, before_cat, *lattice, prev, cspecs, e);
                        assert(category_ids@.take(ci + 1).drop_last() =~= category_ids@.take(ci as int));
                        assert(category_ids@.take(ci + 1).last() == category_id);
                        let u1 = unknown_specs(*self, baseform_unk, text, c, category_ids@.take(ci + 1), matched);
                        assert(u1 == unknown_specs(
                            *self,
                            baseform_unk,
                            text,
                            c,
                            category_ids@.take(ci as int),
                            matched,
                        ) + cspecs);
                        assert(prev + cspecs =~= prefix + u1);
                        lemma_unknown_specs_prefix(*self, baseform_unk, text, c, category_ids@, ci + 1, matched);
                        let uall = unknown_specs(*self, baseform_unk, text, c, category_ids@, matched);
                        let ex = expected_at(*self, baseform_unk, text, c);
                        assert(ex == prefix + uall);
                        assert(ex.take((prefix + u1).len() as int) =~= prefix + u1);
                        lemma_stopped_extend(start_it, *lattice, prefix + u1, ex, e);
                    }
                    return Err(e);
                },
            }
            proof {
                let prev = prefix + unknown_specs(*self, baseform_unk, text, c, category_ids@.take(ci as int), matched);
                lemma_added_here_trans(start_it, before_cat, *lattice, prev, cspecs);
                assert(category_ids@.take(ci + 1).drop_last() =~= category_ids@.take(ci as int));
                assert(category_ids@.take(ci + 1).last() == category_id);
                assert(unknown_specs(*self, baseform_unk, text, c, category_ids@.take(ci + 1), matched)
                    == unknown_specs(*self, baseform_unk, text, c, category_ids@.take(ci as int), matched) + cspecs);
                assert(prefix + unknown_specs(*self, baseform_unk, text, c, category_ids@.take(ci + 1), matched)
                    =~= prev + cspecs);
                if good && !matched && exists|k: int|
                    0 <= k < ci + 1 && has_templates(self.sys(), #[trigger] category_ids@[k] as int) {
                    if !(exists|k: int| 0 <= k < ci && has_templates(self.sys(), #[trigger] category_ids@[k] as int)) {
                        assert(has_templates(self.sys(), category_ids@[ci as int] as int));
                        assert(cspecs.len() > 0);
                    }
                }
            }
            ci = ci + 1;
        }
        proof {
            if good && !matched {
                let cat = choose|cat: int|
                    self.sys().resource.category_index.mask_has(text[c] as u32, cat) && has_templates(self.sys(), cat);
                assert(char_categories.has(cat));
                assert(category_ids@.contains(cat as u16));
                let k = choose|k: int| 0 <= k < category_ids.len() && category_ids@[k] == cat as u16;
                assert(has_templates(self.sys(), category_ids@[k] as int));
            }
            if good && matched {
                assert(prefix.len() > 0);
            }
            assert(category_ids@.take(category_ids.len() as int) =~= category_ids@);
            assert(expected_at(*self, baseform_unk, text, c) =~= prefix + unknown_specs(
                *self,
                baseform_unk,
                text,
                c,
                category_ids@,
                matched,
            ));
        }
        Ok(())
    }

    /// Builds the lattice of a chunk: at each position reached, the words of the user
    /// dictionary and then of the system dictionary that start there, then unknown
    /// words for each category of the character there (only for categories that
    /// always build them, when a dictionary word was added); then moves on to the next
    /// position where a node ends. Fails as [`Lattice::add`] does, which it cannot when
    /// all ids are inside the matrix and every character has a category with
    /// unknown-word templates.
    fn add_dictionary_entries<'a>(
        &'a self,
        lattice: &mut Lattice<'a>,
        chunk: &ChunkCharView,
        baseform_unk: bool,
    ) -> (r: Result<(), RunomeError>)
        requires
            self.wf(),
            old(lattice).inv(),
            old(lattice).eos is None,
            old(lattice).p == 1,
            old(lattice).slots.len() == 1,
            old(lattice).in_order(),
            old(lattice).size == chunk.chars.len() + 1,
            covers(*old(lattice), chunk.chars@),
        ensures
            r is Ok ==> {
                &&& final(lattice).inv()
                &&& final(lattice).in_order()
                &&& final(lattice).eos is None
                &&& final(lattice).p == final(lattice).size
                &&& final(lattice).size == old(lattice).size
                &&& final(lattice).matrix == old(lattice).matrix
                &&& covers(*final(lattice), chunk.chars@)
                &&& built_from(*final(lattice), *self, baseform_unk, chunk.chars@, final(lattice).size as int)
            },
            r matches Err(e) ==> {
                &&& lattice_error(e)
                &&& add_error_of(e, *old(lattice).matrix)
                &&& final(lattice).inv()
                &&& final(lattice).eos is None
                &&& final(lattice).size == old(lattice).size
                &&& final(lattice).matrix == old(lattice).matrix
                &&& covers(*final(lattice), chunk.chars@)
                &&& exists|s: Lattice<'a>|
                    #![trigger built_from(s, *self, baseform_unk, chunk.chars@, s.p as int)]
                    {
                        &&& s.inv()
                        &&& s.p == final(lattice).p
                        &&& built_from(s, *self, baseform_unk, chunk.chars@, s.p as int)
                        &&& stopped_in(s, *final(lattice), expected_at(*self, baseform_unk, chunk.chars@, s.p - 1), e)
                    }
            },
            chunk.chars.len() == 0 ==> r is Ok && *final(lattice) == *old(lattice),
            (ids_in_matrix(self.sys(), self.user()) && chars_covered(self.sys(), chunk.chars@)
                && *old(lattice).matrix == self.sys().resource.connections && healthy(*old(lattice)))
                ==> (r is Ok && healthy(*final(lattice))),
    {
        let total = chunk.len_chars();
        let ghost text = chunk.chars@;
        let ghost good = ids_in_matrix(self.sys(), self.user()) && chars_covered(self.sys(), text)
            && *lattice.matrix == self.sys().resource.connections && healthy(*lattice);
        proof {
            assert forall|q: int| lattice.p <= q < lattice.snodes.len() implies (#[trigger] lattice.snodes@[q]).len() == 0 by {
                if lattice.snodes@[q].len() > 0 {
                    let k = lattice.snodes@[q]@[0] as int;
                    assert(k < lattice.slots.len());
                    assert(lattice.slots@[k].pos == q);
                }
            }
        }
        if total == 0 {
            return Ok(());
        }
        let char_categories_cache = match self.precompute_char_categories(chunk) {
            Ok(c) => c,
            Err(e) => {
                return Err(e);
            },
        };
        let mut char_pos: usize = 0;
        while char_pos < total
            invariant
                self.wf(),
                text == chunk.chars@,
                total == chunk.chars.len(),
                char_categories_cache.len() == total,
                forall|i: int|
                    0 <= i < total ==> char_mask(self.sys(), text[i], #[trigger] char_categories_cache@[i]),
                lattice.inv(),
                lattice.eos is None,
                lattice.size == total + 1,
                old(lattice).size == total + 1,
                lattice.p == char_pos + 1,
                lattice.matrix == old(lattice).matrix,
                covers(*lattice, text),
                char_pos <= total,
                good == (ids_in_matrix(self.sys(), self.user()) && chars_covered(self.sys(), text)
                    && *old(lattice).matrix == self.sys().resource.connections && healthy(*old(lattice))),
                good ==> healthy(*lattice),
                built_from(*lattice, *self, baseform_unk, text, lattice.p as int),
                forall|q: int| lattice.p <= q < lattice.snodes.len() ==> (#[trigger] lattice.snodes@[q]).len() == 0,
                lattice.p <= total ==> reached(*lattice, lattice.p as int),
                lattice.in_order(),
            decreases total - char_pos,
        {
            let ghost start_it = *lattice;
            proof {
                if good {
                    assert(char_covered(self.sys(), text[char_pos as int]));
                }
            }
            match self.add_nodes_at(lattice, chunk, char_pos, char_categories_cache.as_slice(), baseform_unk) {
                Ok(()) => {},
                Err(e) => {
                    proof {
                        assert(built_from(start_it, *self, baseform_unk, text, start_it.p as int));
                    }
                    return Err(e);
                },
            }
            proof {
                lemma_step_built(start_it, *lattice, *self, baseform_unk, text);
                lemma_added_here_in_order(start_it, *lattice, expected_at(*self, baseform_unk, text, char_pos as int));
            }
            let ghost before_fwd = *lattice;
            let advancement = lattice.forward();
            proof {
                assert forall|k: int|
                    1 <= k < lattice.slots.len() && !(lattice.slots@[k].node is Eos) implies #[trigger] slot_covers(
                    *lattice,
                    text,
                    k,
                ) by {
                    assert(slot_covers(before_fwd, text, k));
                }
                lemma_built_from_forward(before_fwd, *lattice, *self, baseform_unk, text);
                if good {
                    let k = start_it.slots.len() as int;
                    assert(before_fwd.slots@[k].pos == before_fwd.p);
                    lemma_forward_reaches_node(before_fwd, *lattice, k);
                    assert forall|m: int| 0 <= m < lattice.slots.len() implies (#[trigger] lattice.slots@[m].node.right_id_view() as int)
                        < lattice.matrix.rows by {
                        assert(lattice.slots@[m] == before_fwd.slots@[m]);
                    }
                }
            }
            char_pos = char_pos + advancement;
        }
        Ok(())
    }
}

/// Adding at a reached position the nodes that tokenizing adds there extends what was
/// built by that position.
proof fn lemma_step_built<'a>(
    start: Lattice<'a>,
    lat: Lattice<'a>,
    tok: Tokenizer,
    baseform_unk: bool,
    text: Seq<char>,
)
    requires
        start.inv(),
        lat.inv(),
        1 <= start.p,
        lat.p == start.p,
        built_from(start, tok, baseform_unk, text, start.p as int),
        forall|q: int| start.p <= q < start.snodes.len() ==> (#[trigger] start.snodes@[q]).len() == 0,
        reached(start, start.p as int),
        added_here(start, lat, expected_at(tok, baseform_unk, text, start.p - 1)),
    ensures
        built_from(lat, tok, baseform_unk, text, start.p + 1),
        forall|q: int| start.p < q < lat.snodes.len() ==> (#[trigger] lat.snodes@[q]).len() == 0,
{
    let p = start.p as int;
    let e = expected_at(tok, baseform_unk, text, p - 1);
    lemma_built_from_kept(start, lat, tok, baseform_unk, text, e);
    assert(reached(lat, p)) by {
        if p != 1 {
            let k = choose|k: int| 0 <= k < start.slots.len() && #[trigger] start.slots@[k].end == p;
            assert(lat.slots@[k] == start.slots@[k]);
        }
    }
    assert(nodes_at_are(lat, p, e)) by {
        assert forall|i: int| 0 <= i < e.len() implies node_is(
            lat.slots@[#[trigger] lat.snodes@[p]@[i] as int].node,
            e[i],
        ) by {
            assert(lat.snodes@[p]@[i] == (start.slots.len() + i) as usize);
        }
    }
    assert forall|q: int| 1 <= q < p + 1 implies if reached(lat, q) {
        nodes_at_are(lat, q, expected_at(tok, baseform_unk, text, q - 1))
    } else {
        #[trigger] lat.snodes@[q].len() == 0
    } by {
        if q < p {
            assert(built_from(lat, tok, baseform_unk, text, p));
        }
    }
}

/// `lat` is the lattice that tokenizing `text` builds: each position that is reached
/// holds the nodes that tokenizing adds there and no other position holds any, the
/// end marker closes it, and its connection costs are the system dictionary's.
pub open spec fn chunk_lattice<'a>(lat: Lattice<'a>, tok: Tokenizer, baseform_unk: bool, text: Seq<char>) -> bool {
    &&& lat.inv()
    &&& lat.size == text.len() + 1
    &&& lat.p == lat.size
    &&& *lat.matrix == tok.sys().resource.connections
    &&& lat.eos is Some
    &&& lat.in_order()
    &&& built_from(lat, tok, baseform_unk, text, lat.size as int)
}

/// The unknown words of the categories `cats` hold those of each category among them.
proof fn lemma_unknown_specs_has(
    tok: Tokenizer,
    baseform_unk: bool,
    text: Seq<char>,
    c: int,
    cats: Seq<CategoryId>,
    matched: bool,
    cat: CategoryId,
    k: int,
)
    requires
        cats.contains(cat),
        0 <= k < category_specs(tok, baseform_unk, text, c, cat as int, matched).len(),
    ensures
        unknown_specs(tok, baseform_unk, text, c, cats, matched).contains(
            category_specs(tok, baseform_unk, text, c, cat as int, matched)[k],
        ),
    decreases cats.len(),
{
    let x = category_specs(tok, baseform_unk, text, c, cat as int, matched)[k];
    let front = unknown_specs(tok, baseform_unk, text, c, cats.drop_last(), matched);
    let last = category_specs(tok, baseform_unk, text, c, cats.last() as int, matched);
    let all = unknown_specs(tok, baseform_unk, text, c, cats, matched);
    assert(all == front + last);
    if cats.last() == cat {
        assert(all[front.len() + k] == x);
    } else {
        let p = choose|p: int| 0 <= p < cats.len() && cats[p] == cat;
        assert(cats.drop_last()[p] == cat);
        lemma_unknown_specs_has(tok, baseform_unk, text, c, cats.drop_last(), matched, cat, k);
        let w = choose|w: int| 0 <= w < front.len() && front[w] == x;
        assert(all[w] == x);
    }
}

/// At every position that the lattice of a chunk reaches, it holds, for each category
/// of the character there whose unknown words are always built, one unknown word per
/// template of that category, whether or not dictionary words start there: a word
/// with the template's ids, cost and part of speech, whose surface starts with that
/// character.
pub proof fn lemma_invoked_unknown_words<'a>(
    lat: Lattice<'a>,
    tok: Tokenizer,
    baseform_unk: bool,
    text: Seq<char>,
    q: int,
    cat: int,
    k: int,
)
    requires
        tok.wf(),
        chunk_lattice(lat, tok, baseform_unk, text),
        1 <= q < lat.size,
        reached(lat, q),
        tok.sys().resource.category_index.mask_has(text[q - 1] as u32, cat),
        tok.sys().resource.category_index.flags@[cat].invoke,
        0 <= k < tok.sys().resource.unknown_entries_by_id@[cat].len(),
    ensures
        exists|i: int|
            0 <= i < lat.snodes@[q].len() && {
                let n = lat.slots@[#[trigger] lat.snodes@[q]@[i] as int].node;
                let t = tok.sys().resource.unknown_entries_by_id@[cat]@[k];
                &&& n is Unknown
                &&& n->Unknown_0.left_id == t.left_id
                &&& n->Unknown_0.right_id == t.right_id
                &&& n->Unknown_0.cost == t.cost
                &&& n->Unknown_0.part_of_speech@ == t.part_of_speech@
                &&& n->Unknown_0.surface@.len() >= 1
                &&& n->Unknown_0.surface@[0] == text[q - 1]
            },
{
    let sys = tok.sys();
    let ci = sys.resource.category_index;
    let c = q - 1;
    let ch = text[c];
    assert(ci.wf());
    crate::category::lemma_mask_has_ranges(ci, ch as u32, cat);
    assert(0 <= cat < ci.names.len()) by {
        if crate::category::some_range_holds(ci.code_ranges@, ch as u32) {
            let r = choose|r: int|
                #[trigger] crate::category::range_holds(ci.code_ranges@, r, ch as u32) && (
                ci.code_ranges@[r].primary_id as int == cat || ci.code_ranges@[r].compat_mask.has(cat));
            if ci.code_ranges@[r].primary_id as int != cat {
                assert(ci.code_ranges@[r].compat_mask.has(cat));
            }
        }
    }
    let id = cat as CategoryId;
    lemma_cat_ids_upto(sys, ch, 128);
    assert(cat_ids(sys, ch).contains(id));
    let t = sys.resource.unknown_entries_by_id@[cat]@[k];
    let u = user_specs(tok, text, c);
    let sd = sys_specs(tok, text, c);
    let matched = u.len() > 0 || sd.len() > 0;
    let max = unknown_max_length(sys, cat, tok.max_unknown_length_view());
    let ge = group_end(sys, text, cat, c, c + 1, max);
    lemma_group_end_bounds(sys, text, cat, c, c + 1, max);
    let surface = text.subrange(c, ge);
    let spec = NodeSpec::Unknown {
        surface,
        template: t,
        base_form: if baseform_unk {
            surface
        } else {
            asterisk()
        },
    };
    let cs = category_specs(tok, baseform_unk, text, c, cat, matched);
    assert(has_templates(sys, cat));
    assert(cs[k] == spec);
    lemma_unknown_specs_has(tok, baseform_unk, text, c, cat_ids(sys, ch), matched, id, k);
    let unk = unknown_specs(tok, baseform_unk, text, c, cat_ids(sys, ch), matched);
    let w = choose|w: int| 0 <= w < unk.len() && unk[w] == spec;
    let e = expected_at(tok, baseform_unk, text, c);
    assert(e == u + sd + unk);
    let j = u.len() + sd.len() + w;
    assert(e[j] == spec);
    assert(lat.snodes@[q].len() >= 0);
    assert(nodes_at_are(lat, q, e));
    assert(node_is(lat.slots@[lat.snodes@[q]@[j] as int].node, e[j]));
    assert(surface[0] == text[c]);
}

/// `nodes` are the nodes of the cheapest path of `lat`, between its start and end
/// markers.
pub open spec fn best_path_nodes<'b, 'a>(lat: Lattice<'a>, nodes: Seq<&'b StartNode<'a>>) -> bool {
    let path = lat.back_path(lat.eos->0);
    &&& nodes.len() + 2 == path.len()
    &&& forall|k: int| 0 <= k < nodes.len() ==> *#[trigger] nodes[k] == lat.slots@[path[k + 1] as int].node
}

/// Where chunk `i` of `text` starts: the first at the start, each next one where the
/// one before it ends.
pub open spec fn chunk_start(text: Seq<char>, i: int) -> int
    decreases i,
{
    if i <= 0 {
        0
    } else {
        let b = chunk_start(text, i - 1);
        if 0 <= b < text.len() {
            b + chunk_len(text.skip(b))
        } else {
            b
        }
    }
}

/// `rs` are the results of the chunk of `text` that starts at `start`: the results of
/// the nodes of the cheapest path of the lattice that tokenizing the chunk builds.
pub open spec fn chunk_results(
    tok: Tokenizer,
    wakati: bool,
    baseform_unk: bool,
    text: Seq<char>,
    start: int,
    rs: Seq<ResultView>,
) -> bool {
    exists|lat: Lattice<'static>, nodes: Seq<&'static StartNode<'static>>|
        #![trigger chunk_lattice(lat, tok, baseform_unk, text.subrange(start, start + chunk_len(text.skip(start)))), best_path_nodes(lat, nodes)]
        {
            &&& chunk_lattice(lat, tok, baseform_unk, text.subrange(start, start + chunk_len(text.skip(start))))
            &&& best_path_nodes(lat, nodes)
            &&& rs == path_results(nodes, wakati, baseform_unk, tok.sys(), tok.user())
        }
}

/// `rs` are the results of tokenizing `text` chunk by chunk: the results of each
/// chunk in turn.
pub open spec fn tokenized(
    tok: Tokenizer,
    wakati: bool,
    baseform_unk: bool,
    text: Seq<char>,
    rs: Seq<ResultView>,
) -> bool {
    exists|parts: Seq<Seq<ResultView>>|
        {
            &&& rs == #[trigger] parts.flatten()
            &&& chunk_start(text, parts.len() as int) == text.len()
            &&& forall|i: int| 0 <= i < parts.len() ==> #[trigger] chunk_start(text, i) < text.len()
            &&& forall|i: int|
                0 <= i < parts.len() ==> chunk_results(
                    tok,
                    wakati,
                    baseform_unk,
                    text,
                    chunk_start(text, i),
                    #[trigger] parts[i],
                )
        }
}

/// Closing the lattice with its end marker keeps what was built before the end.
proof fn lemma_built_from_end<'a>(
    old: Lattice<'a>,
    new: Lattice<'a>,
    b: usize,
    tok: Tokenizer,
    baseform_unk: bool,
    text: Seq<char>,
)
    requires
        old.inv(),
        Lattice::added(old, new, StartNode::Eos, b),
        built_from(old, tok, baseform_unk, text, old.p as int),
    ensures
        built_from(new, tok, baseform_unk, text, old.p as int),
{
    let k0 = old.slots.len() as int;
    assert(new.slots@[k0] == old.placed(StartNode::Eos, b));
    assert forall|q: int| 1 <= q < old.p implies if reached(new, q) {
        nodes_at_are(new, q, expected_at(tok, baseform_unk, text, q - 1))
    } else {
        #[trigger] new.snodes@[q].len() == 0
    } by {
        assert(new.snodes@[q] == old.snodes@[q]);
        if reached(new, q) && q != 1 {
            let k = choose|k: int| 0 <= k < new.slots.len() && #[trigger] new.slots@[k].end == q;
            if k < k0 {
                assert(new.slots@[k] == old.slots@[k]);
            }
            assert(reached(old, q));
        }
        if reached(old, q) && q != 1 {
            let k = choose|k: int| 0 <= k < old.slots.len() && #[trigger] old.slots@[k].end == q;
            assert(new.slots@[k] == old.slots@[k]);
            assert(reached(new, q));
        }
        if reached(old, q) {
            let e = expected_at(tok, baseform_unk, text, q - 1);
            assert(old.snodes@[q].len() >= 0);
            assert(nodes_at_are(old, q, e));
            assert forall|i: int| 0 <= i < e.len() implies node_is(
                new.slots@[#[trigger] new.snodes@[q]@[i] as int].node,
                e[i],
            ) by {
                assert(node_is(old.slots@[old.snodes@[q]@[i] as int].node, e[i]));
                assert(old.snodes@[q]@[i] < old.slots.len());
            }
        }
    }
}

/// The characters of a part of a covered text are covered.
pub proof fn lemma_covered_subrange(sys: SystemDictionary, text: Seq<char>, i: int, j: int)
    requires
        chars_covered(sys, text),
        0 <= i <= j <= text.len(),
    ensures
        chars_covered(sys, text.subrange(i, j)),
{
    let t = text.subrange(i, j);
    assert forall|k: int| 0 <= k < t.len() implies char_covered(sys, #[trigger] t[k]) by {
        assert(t[k] == text[i + k]);
        assert(char_covered(sys, text[i + k]));
    }
}

/// After moving forward from a position where slot `k` starts, some node ends at the
/// new position.
proof fn lemma_forward_reaches_node<'a>(before: Lattice<'a>, after: Lattice<'a>, k: int)
    requires
        before.inv(),
        before.eos is None,
        0 <= k < before.slots.len(),
        before.slots@[k].pos == before.p,
        after.enodes@ == before.enodes@,
        after.size == before.size,
        before.p < after.p <= before.size,
        after.p == before.size || before.enodes@[after.p as int].len() > 0,
        forall|q: int| before.p < q < after.p ==> (#[trigger] before.enodes@[q]).len() == 0,
    ensures
        after.enodes@[after.p as int].len() > 0,
{
    if k == 0 {
        assert(before.slots@[0].pos == 0);
    }
    assert(before.slot_ok(k));
    assert(!(before.slots@[k].node is Eos));
    let e = before.slots@[k].end as int;
    assert(before.enodes@[e]@.contains(k as usize));
    if after.p == before.size {
        if e < after.p {
            assert(before.enodes@[e].len() == 0);
        }
    } else {
        if e < after.p {
            assert(before.enodes@[e].len() == 0);
        }
    }
}

} // verus!

verus! {

/// Results in the given mode, one list after another, are in that mode.
proof fn lemma_modes_append(a: Seq<ResultView>, b: Seq<ResultView>, wakati: bool, baseform_unk: bool)
    requires
        results_in_mode(a, wakati, baseform_unk),
        results_in_mode(b, wakati, baseform_unk),
    ensures
        results_in_mode(a + b, wakati, baseform_unk),
{
    assert forall|i: int| 0 <= i < (a + b).len() implies result_in_mode(
        #[trigger] (a + b)[i],
        wakati,
        baseform_unk,
    ) by {
        if i < a.len() {
            assert((a + b)[i] == a[i]);
        } else {
            assert((a + b)[i] == b[i - a.len()]);
        }
    }
}

impl Tokenizer {
    /// Tokenizes the chunk of `text` that starts at `start`: builds its lattice, takes
    /// its cheapest path and turns it into results. Returns the results and the length
    /// of the chunk; the results' surfaces make up the chunk. Fails as
    /// [`Lattice::add`] does.
    pub fn tokenize_partial(
        &self,
        text: &[char],
        start: usize,
        wakati: bool,
        baseform_unk: bool,
    ) -> (r: Result<(Vec<TokenizeResult>, usize), RunomeError>)
        requires
            self.wf(),
            start <= text.len(),
        ensures
            start == text.len() ==> (r matches Ok((v, n)) && v.len() == 0 && n == 0),
            r matches Ok((v, n)) ==> {
                &&& n == chunk_len(text@.skip(start as int))
                &&& start < text.len() ==> 1 <= n
                &&& start + n <= text.len()
                &&& n <= MAX_CHUNK_SIZE
                &&& concat_results(views(v@)) == text@.subrange(start as int, start + n)
                &&& results_in_mode(views(v@), wakati, baseform_unk)
                &&& start < text.len() ==> chunk_results(*self, wakati, baseform_unk, text@, start as int, views(v@))
            },
            r matches Err(e) ==> lattice_error(e) && add_error_of(e, self.sys().resource.connections),
            (ids_in_matrix(self.sys(), self.user()) && chars_covered(self.sys(), text@)) ==> r is Ok,
    {
        if start >= text.len() {
            let v: Vec<TokenizeResult> = Vec::new();
            proof {
                assert(views(v@) =~= Seq::<ResultView>::empty());
            }
            return Ok((v, 0));
        }
        let n = chunk_len_at(text, start);
        let chunk = ChunkCharView::new(&text[start..start + n]);
        let ghost ctext = chunk.chars@;
        let mut lattice = Lattice::new(n + 1, &self.sys_dic.resource.connections);
        proof {
            assert forall|k: int|
                1 <= k < lattice.slots.len() && !(lattice.slots@[k].node is Eos) implies #[trigger] slot_covers(
                lattice,
                ctext,
                k,
            ) by {}
        }
        proof {
            if ids_in_matrix(self.sys(), self.user()) && chars_covered(self.sys(), text@) {
                lemma_covered_subrange(self.sys(), text@, start as int, start + n);
                assert(ctext == text@.subrange(start as int, start + n));
                assert(lattice.slots@[0].end == 1);
                assert(lattice.enodes@[lattice.slots@[0].end as int]@.contains(0usize));
                assert forall|k: int| 0 <= k < lattice.slots.len() implies (#[trigger] lattice.slots@[k].node.right_id_view() as int)
                    < lattice.matrix.rows by {
                    assert(k == 0);
                }
            }
        }
        match self.add_dictionary_entries(&mut lattice, &chunk, baseform_unk) {
            Ok(()) => {},
            Err(e) => {
                return Err(e);
            },
        }
        let ghost before_end = lattice;
        proof {
            if ids_in_matrix(self.sys(), self.user()) && chars_covered(self.sys(), text@) {
                lemma_healthy_add_ok(before_end, StartNode::Eos);
            }
        }
        match lattice.end() {
            Ok(()) => {},
            Err(e) => {
                return Err(e);
            },
        }
        proof {
            let b = choose|b: usize| Lattice::added(before_end, lattice, StartNode::Eos, b);
            lemma_built_from_end(before_end, lattice, b, *self, baseform_unk, ctext);
            crate::lattice::lemma_added_in_order(before_end, lattice, StartNode::Eos, b);
            assert forall|k: int|
                1 <= k < lattice.slots.len() && !(lattice.slots@[k].node is Eos) implies #[trigger] slot_covers(
                lattice,
                ctext,
                k,
            ) by {
                if k < before_end.slots.len() {
                    assert(lattice.slots@[k] == before_end.slots@[k]);
                    assert(slot_covers(before_end, ctext, k));
                } else {
                    assert(lattice.slots@[k] == before_end.placed(StartNode::Eos, b));
                }
            }
        }
        let path = match lattice.backward() {
            Ok(p) => p,
            Err(e) => {
                return Err(e);
            },
        };
        let ghost e = lattice.eos->0;
        proof {
            lemma_back_path_cost(lattice, e);
            assert(e >= 1) by {
                assert(lattice.slots@[0].node is Bos);
            }
            assert(lattice.slot_ok(e as int));
            let b = lattice.slots@[e as int].back;
            assert(lattice.back_path(e) == lattice.back_path(b).push(e));
        }
        let mut nodes: Vec<&StartNode<'_>> = Vec::new();
        let mut i: usize = 1;
        while i + 1 < path.len()
            invariant
                1 <= i <= path.len() - 1,
                path.len() >= 2,
                lattice.inv(),
                path@ == lattice.back_path(e),
                lattice.is_chain(path@),
                nodes.len() == i - 1,
                forall|k: int|
                    0 <= k < nodes.len() ==> *nodes@[k] == lattice.slots@[#[trigger] path@[k + 1] as int].node,
            decreases path.len() - i,
        {
            proof {
                assert((path@[i as int] as int) < lattice.slots.len());
            }
            let node = lattice.node(path[i]);
            nodes.push(node);
            i = i + 1;
        }
        proof {
            let c = path@.drop_last();
            assert(lattice.is_chain(c)) by {
                assert forall|k: int| 0 <= k < c.len() - 1 implies #[trigger] lattice.linked(c, k) by {
                    assert(lattice.linked(path@, k));
                }
                assert forall|k: int| 0 <= k < c.len() implies (#[trigger] c[k] as int) < lattice.slots.len() by {
                    assert(c[k] == path@[k]);
                }
            }
            assert forall|k: int| 0 <= k < nodes.len() implies *nodes@[k] == lattice.slots@[#[trigger] c[k + 1] as int].node by {
                assert(c[k + 1] == path@[k + 1]);
            }
            assert forall|k: int| 1 <= k < c.len() implies !(lattice.slots@[#[trigger] c[k] as int].node is Eos) by {
                assert(c[k] == path@[k]);
                assert(lattice.linked(path@, k));
                let nx = path@[k + 1] as int;
                assert(nx < lattice.slots.len());
                if nx >= 1 {
                    assert(lattice.slot_ok(nx));
                }
                if c[k] == e {
                    assert(lattice.slots@[e as int].end == lattice.p + 1) by {
                        assert(lattice.slot_ok(e as int));
                    }
                }
            }
            lemma_chain_text(lattice, ctext, c, nodes@);
            let last = path@[path.len() - 2] as int;
            assert(lattice.linked(path@, path.len() - 2));
            assert(path@.last() == e);
            assert(lattice.slots@[last].end == lattice.p);
            assert(ctext.subrange(0, n as int) =~= ctext);
            assert(ctext =~= text@.subrange(start as int, start + n));
            lemma_path_results_surfaces(nodes@, wakati, baseform_unk, self.sys(), self.user());
        }
        let tokens = match self.path_to_tokens(nodes.as_slice(), wakati, baseform_unk) {
            Ok(t) => t,
            Err(e) => {
                return Err(e);
            },
        };
        proof {
            assert(chunk_lattice(lattice, *self, baseform_unk, text@.subrange(start as int, start + n)));
            assert(best_path_nodes(lattice, nodes@));
            assert(lattice.inv());
            assert(lattice.size == (start + n - start) + 1);
            assert(lattice.p == lattice.size);
            assert(*lattice.matrix == self.sys().resource.connections);
            assert(built_from(lattice, *self, baseform_unk, ctext, lattice.size as int));
            assert(chunk_lattice(
                lattice,
                *self,
                baseform_unk,
                text@.subrange(start as int, start + chunk_len(text@.skip(start as int))),
            ));
        }
        Ok((tokens, n))
    }

    /// Tokenizes `text` without its leading and trailing white space, chunk by chunk.
    /// A tokenizer made to split into words always does so; otherwise `wakati` (false
    /// by default) decides. Unknown words get their surface as base form unless
    /// `baseform_unk` (true by default) is false. Fails as [`Lattice::add`] does.
    pub fn tokenize(&self, text: &str, wakati: Option<bool>, baseform_unk: Option<bool>) -> (r:
        Result<Vec<TokenizeResult>, RunomeError>)
        requires
            self.wf(),
        ensures
            r matches Ok(v) ==> {
                &&& is_trim_of(text@, concat_results(views(v@)))
                &&& results_in_mode(
                    views(v@),
                    self.wakati_view() || wakati == Some(true),
                    baseform_unk != Some(false),
                )
                &&& exists|t: Seq<char>|
                    #[trigger] is_trim_of(text@, t) && tokenized(
                        *self,
                        self.wakati_view() || wakati == Some(true),
                        baseform_unk != Some(false),
                        t,
                        views(v@),
                    )
            },
            r matches Err(e) ==> lattice_error(e) && add_error_of(e, self.sys().resource.connections),
            (ids_in_matrix(self.sys(), self.user()) && chars_covered(self.sys(), text@)) ==> r is Ok,
    {
        let wakati_mode = if self.wakati {
            true
        } else {
            match wakati {
                Some(w) => w,
                None => false,
            }
        };
        let baseform_unk_mode = match baseform_unk {
            Some(b) => b,
            None => true,
        };
        let chars = trimmed_chars(text);
        let ghost good = ids_in_matrix(self.sys(), self.user()) && chars_covered(self.sys(), text@);
        proof {
            if good {
                let (i, j) = choose|i: int, j: int| crate::chunking::trim_bounds(text@, i, j) && chars@ == text@.subrange(i, j);
                lemma_covered_subrange(self.sys(), text@, i, j);
            }
        }
        let mut out: Vec<TokenizeResult> = Vec::new();
        let mut processed: usize = 0;
        let ghost mut parts: Seq<Seq<ResultView>> = Seq::empty();
        proof {
            assert(views(out@) =~= Seq::<ResultView>::empty());
            assert(chars@.subrange(0, 0) =~= Seq::<char>::empty());
            assert(parts.flatten() =~= Seq::<ResultView>::empty());
        }
        while processed < chars.len()
            invariant
                self.wf(),
                processed <= chars.len(),
                views(out@) == parts.flatten(),
                processed == chunk_start(chars@, parts.len() as int),
                forall|i: int| 0 <= i < parts.len() ==> #[trigger] chunk_start(chars@, i) < chars@.len(),
                forall|i: int|
                    0 <= i < parts.len() ==> chunk_results(
                        *self,
                        wakati_mode,
                        baseform_unk_mode,
                        chars@,
                        chunk_start(chars@, i),
                        #[trigger] parts[i],
                    ),
                concat_results(views(out@)) == chars@.subrange(0, processed as int),
                results_in_mode(views(out@), wakati_mode, baseform_unk_mode),
                good == (ids_in_matrix(self.sys(), self.user()) && chars_covered(self.sys(), text@)),
                good ==> chars_covered(self.sys(), chars@),
            decreases chars.len() - processed,
        {
            let (tokens, n) = match self.tokenize_partial(chars.as_slice(), processed, wakati_mode, baseform_unk_mode) {
                Ok(x) => x,
                Err(e) => {
                    return Err(e);
                },
            };
            let ghost before = views(out@);
            let ghost added = views(tokens@);
            let ghost old_parts = parts;
            proof {
                assert(chunk_results(*self, wakati_mode, baseform_unk_mode, chars@, processed as int, added));
            }
            let mut tokens = tokens;
            out.append(&mut tokens);
            proof {
                assert(views(out@) =~= before + added);
                lemma_concat_results_append(before, added);
                lemma_modes_append(before, added, wakati_mode, baseform_unk_mode);
                assert(chars@.subrange(0, processed as int) + chars@.subrange(
                    processed as int,
                    processed + n,
                ) =~= chars@.subrange(0, processed + n));
                parts = parts.push(added);
                old_parts.lemma_flatten_push(added);
                assert(chunk_start(chars@, parts.len() as int) == processed + n);
                assert forall|i: int| 0 <= i < parts.len() implies #[trigger] chunk_start(chars@, i) < chars@.len() by {
                    if i == old_parts.len() {
                        assert(chunk_start(chars@, i) == processed);
                    }
                }
                assert forall|i: int|
                    0 <= i < parts.len() implies chunk_results(
                        *self,
                        wakati_mode,
                        baseform_unk_mode,
                        chars@,
                        chunk_start(chars@, i),
                        #[trigger] parts[i],
                    ) by {
                    if i < old_parts.len() {
                        assert(parts[i] == old_parts[i]);
                    } else {
                        assert(parts[i] == added);
                    }
                }
            }
            processed = processed + n;
        }
        proof {
            assert(chars@.subrange(0, chars.len() as int) =~= chars@);
            assert(views(out@) == parts.flatten());
            assert(chunk_start(chars@, parts.len() as int) == chars@.len());
            assert(tokenized(*self, wakati_mode, baseform_unk_mode, chars@, views(out@)));
            assert(is_trim_of(text@, chars@));
        }
        Ok(out)
    }
}

} // verus!

verus! {

/// `s` backwards.
pub open spec fn reversed<A>(s: Seq<A>) -> Seq<A> {
    Seq::new(s.len(), |i: int| s[s.len() - 1 - i])
}

/// Results in tokenization order, one chunk at a time.
pub struct TextChunkIterator<'a> {
    tokenizer: &'a Tokenizer,
    text: Vec<char>,
    processed: usize,
    /// Results of the current chunk not yet handed out, last first.
    pending: Vec<TokenizeResult>,
    wakati: bool,
    baseform_unk: bool,
    /// Results handed out so far.
    delivered: Ghost<Seq<ResultView>>,
    /// The results of each chunk tokenized so far.
    chunks: Ghost<Seq<Seq<ResultView>>>,
}

/// The results `tokens`, last first.
fn reverse_results(tokens: Vec<TokenizeResult>) -> (p: Vec<TokenizeResult>)
    ensures
        views(p@) == reversed(views(tokens@)),
{
    let ghost tv = views(tokens@);
    let mut tokens = tokens;
    let mut pending: Vec<TokenizeResult> = Vec::new();
    proof {
        assert(views(pending@) =~= reversed(tv.skip(tv.len() as int)));
        assert(views(tokens@) =~= tv.take(tv.len() as int));
    }
    while tokens.len() > 0
        invariant
            tv.len() == tokens.len() + pending.len(),
            views(tokens@) == tv.take(tokens.len() as int),
            views(pending@) == reversed(tv.skip(tokens.len() as int)),
        decreases tokens.len(),
    {
        let ghost k = tokens.len() as int;
        let ghost before_p = pending@;
        let ghost before_t = tokens@;
        let t = tokens.pop().unwrap();
        proof {
            assert(t == before_t[k - 1]);
            assert(views(before_t)[k - 1] == t@);
            assert(tv.take(k)[k - 1] == tv[k - 1]);
            assert(t@ == tv[k - 1]);
        }
        pending.push(t);
        proof {
            assert(views(tokens@) =~= views(before_t).take(k - 1));
            assert(views(tokens@) =~= tv.take(k - 1));
            assert(views(pending@) =~= views(before_p).push(t@));
            assert(reversed(tv.skip(k - 1)) =~= reversed(tv.skip(k)).push(tv[k - 1]));
        }
    }
    proof {
        assert(tv.skip(0) =~= tv);
    }
    pending
}

/// Reversing twice gives back the sequence.
proof fn lemma_reversed_twice<A>(s: Seq<A>)
    ensures
        reversed(reversed(s)) == s,
{
    assert(reversed(reversed(s)) =~= s);
}

/// Results in a mode, reversed, are in that mode.
proof fn lemma_reversed_modes(s: Seq<ResultView>, wakati: bool, baseform_unk: bool)
    requires
        results_in_mode(s, wakati, baseform_unk),
    ensures
        results_in_mode(reversed(s), wakati, baseform_unk),
{
    assert forall|i: int| 0 <= i < reversed(s).len() implies result_in_mode(
        #[trigger] reversed(s)[i],
        wakati,
        baseform_unk,
    ) by {
        assert(reversed(s)[i] == s[s.len() - 1 - i]);
    }
}

impl<'a> TextChunkIterator<'a> {
    /// The text being tokenized.
    pub closed spec fn text_view(&self) -> Seq<char> {
        self.text@
    }

    /// The tokenizer at work.
    pub closed spec fn tokenizer_view(&self) -> Tokenizer {
        *self.tokenizer
    }

    /// The results handed out so far.
    pub closed spec fn delivered_view(&self) -> Seq<ResultView> {
        self.delivered@
    }

    /// The results of each chunk tokenized so far, in text order.
    pub closed spec fn chunks_view(&self) -> Seq<Seq<ResultView>> {
        self.chunks@
    }

    /// How many characters of the text have been tokenized.
    pub closed spec fn consumed(&self) -> nat {
        self.processed as nat
    }

    /// The whole text has been tokenized and every result handed out.
    pub closed spec fn finished(&self) -> bool {
        self.processed == self.text.len() && self.pending.len() == 0
    }

    /// The mode: whether results are surfaces only, and whether unknown words get
    /// their surface as base form.
    pub closed spec fn mode(&self) -> (bool, bool) {
        (self.wakati, self.baseform_unk)
    }

    /// The results handed out and those pending make up the text tokenized so far.
    pub closed spec fn inv(&self) -> bool {
        &&& self.tokenizer.wf()
        &&& self.processed <= self.text.len()
        &&& concat_results(self.delivered@) + concat_results(reversed(views(self.pending@)))
            == self.text@.subrange(0, self.processed as int)
        &&& results_in_mode(self.delivered@, self.wakati, self.baseform_unk)
        &&& results_in_mode(views(self.pending@), self.wakati, self.baseform_unk)
        &&& self.delivered@ + reversed(views(self.pending@)) == self.chunks@.flatten()
        &&& chunk_start(self.text@, self.chunks@.len() as int) == self.processed
        &&& forall|i: int|
            0 <= i < self.chunks@.len() ==> #[trigger] chunk_start(self.text@, i) < self.text@.len()
        &&& forall|i: int|
            0 <= i < self.chunks@.len() ==> chunk_results(
                *self.tokenizer,
                self.wakati,
                self.baseform_unk,
                self.text@,
                chunk_start(self.text@, i),
                #[trigger] self.chunks@[i],
            )
    }

    /// Tokenizes the next chunk into the pending results, which must be empty.
    fn load_chunk(&mut self) -> (r: Result<(), RunomeError>)
        requires
            old(self).inv(),
            old(self).pending.len() == 0,
            old(self).processed < old(self).text.len(),
        ensures
            final(self).inv(),
            final(self).text == old(self).text,
            final(self).delivered == old(self).delivered,
            final(self).wakati == old(self).wakati,
            final(self).baseform_unk == old(self).baseform_unk,
            final(self).tokenizer == old(self).tokenizer,
            r is Ok ==> final(self).pending.len() > 0,
            (ids_in_matrix(old(self).tokenizer.sys(), old(self).tokenizer.user()) && chars_covered(
                old(self).tokenizer.sys(),
                old(self).text@,
            )) ==> r is Ok,
            r matches Err(e) ==> lattice_error(e) && final(self).processed == old(self).processed
                && final(self).pending.len() == 0,
    {
        match self.tokenizer.tokenize_partial(
            self.text.as_slice(),
            self.processed,
            self.wakati,
            self.baseform_unk,
        ) {
            Ok((tokens, n)) => {
                let ghost tv = views(tokens@);
                let ghost old_chunks = self.chunks@;
                let pending = reverse_results(tokens);
                proof {
                    lemma_reversed_twice(tv);
                    old_chunks.lemma_flatten_push(tv);
                    assert(self.delivered@ + reversed(views(self.pending@)) =~= self.delivered@);
                    assert(self.delivered@ + tv == old_chunks.push(tv).flatten());
                    assert(chunk_start(self.text@, old_chunks.len() + 1int) == self.processed + n);
                    assert forall|i: int|
                        0 <= i < old_chunks.push(tv).len() implies #[trigger] chunk_start(self.text@, i)
                            < self.text@.len() by {
                        if i == old_chunks.len() {
                            assert(chunk_start(self.text@, i) == self.processed);
                        }
                    }
                    assert forall|i: int|
                        0 <= i < old_chunks.push(tv).len() implies chunk_results(
                            *self.tokenizer,
                            self.wakati,
                            self.baseform_unk,
                            self.text@,
                            chunk_start(self.text@, i),
                            #[trigger] old_chunks.push(tv)[i],
                        ) by {
                        if i < old_chunks.len() {
                            assert(old_chunks.push(tv)[i] == old_chunks[i]);
                        } else {
                            assert(old_chunks.push(tv)[i] == tv);
                        }
                    }
                    let d = self.delivered@;
                    lemma_concat_results_append(d, tv);
                    assert(self.text@.subrange(0, self.processed as int) + self.text@.subrange(
                        self.processed as int,
                        self.processed + n,
                    ) =~= self.text@.subrange(0, self.processed + n));
                    assert(reversed(views(self.pending@)) =~= Seq::<ResultView>::empty());
                    assert(concat_results(Seq::<ResultView>::empty()) == Seq::<char>::empty());
                    assert(concat_results(d) + Seq::<char>::empty() =~= concat_results(d));
                    lemma_reversed_modes(tv, self.wakati, self.baseform_unk);
                    if tv.len() == 0 {
                        assert(concat_results(tv) == Seq::<char>::empty());
                        assert(self.text@.subrange(self.processed as int, self.processed + n).len() > 0);
                    }
                }
                self.processed = self.processed + n;
                self.pending = pending;
                self.chunks = Ghost(old_chunks.push(tv));
                Ok(())
            },
            Err(e) => Err(e),
        }
    }

    /// The next result: a pending one of the current chunk, else the first of the
    /// next chunk, or `None` once the whole text has been handed out. An error leaves
    /// the iterator as it was.
    pub fn next(&mut self) -> (r: Option<Result<TokenizeResult, RunomeError>>)
        requires
            old(self).inv(),
        ensures
            final(self).inv(),
            final(self).text_view() == old(self).text_view(),
            final(self).mode() == old(self).mode(),
            final(self).tokenizer_view() == old(self).tokenizer_view(),
            (ids_in_matrix(old(self).tokenizer_view().sys(), old(self).tokenizer_view().user())
                && chars_covered(old(self).tokenizer_view().sys(), old(self).text_view())) ==> !(r matches Some(
                Err(_),
            )),
            r matches Some(Ok(t)) ==> final(self).delivered_view() == old(self).delivered_view().push(
                t@,
            ),
            r matches Some(Err(e)) ==> lattice_error(e) && final(self).delivered_view()
                == old(self).delivered_view() && final(self).consumed() == old(self).consumed()
                && !final(self).finished(),
            r is None <==> old(self).finished(),
            r is None ==> *final(self) == *old(self),
            r is None ==> final(self).delivered_view() == old(self).delivered_view() && concat_results(
                final(self).delivered_view(),
            ) == final(self).text_view() && tokenized(
                final(self).tokenizer_view(),
                final(self).mode().0,
                final(self).mode().1,
                final(self).text_view(),
                final(self).delivered_view(),
            ),
    {
        if self.pending.len() == 0 {
            if self.processed < self.text.len() {
                match self.load_chunk() {
                    Ok(()) => {},
                    Err(e) => {
                        return Some(Err(e));
                    },
                }
            } else {
                proof {
                    assert(reversed(views(self.pending@)) =~= Seq::<ResultView>::empty());
                    assert(self.text@.subrange(0, self.processed as int) =~= self.text@);
                    assert(concat_results(Seq::<ResultView>::empty()) == Seq::<char>::empty());
                    assert(concat_results(self.delivered@) + Seq::<char>::empty() =~= concat_results(
                        self.delivered@,
                    ));
                    assert(self.delivered@ + Seq::<ResultView>::empty() =~= self.delivered@);
                    assert(self.delivered@ == self.chunks@.flatten());
                }
                return None;
            }
        }
        let ghost pv = views(self.pending@);
        let ghost before = self.pending@;
        let t = self.pending.pop().unwrap();
        proof {
            let last = pv[pv.len() - 1];
            assert(t == before[before.len() - 1]);
            assert(t@ == last);
            assert(views(self.pending@) =~= pv.drop_last());
            assert(reversed(pv) =~= seq![last] + reversed(pv.drop_last()));
            lemma_concat_results_append(seq![last], reversed(pv.drop_last()));
            assert(seq![last].skip(1) =~= Seq::<ResultView>::empty());
            assert(concat_results(Seq::<ResultView>::empty()) == Seq::<char>::empty());
            assert(concat_results(seq![last]) == result_surface(last) + concat_results(
                seq![last].skip(1),
            ));
            let d = self.delivered@;
            lemma_concat_results_append(d, seq![last]);
            assert(d.push(last) =~= d + seq![last]);
            let r0 = concat_results(reversed(pv.drop_last()));
            assert(concat_results(seq![last]) =~= result_surface(last));
            assert(concat_results(reversed(pv)) == result_surface(last) + r0);
            assert(concat_results(d.push(last)) == concat_results(d) + result_surface(last));
            assert(concat_results(d.push(last)) + r0 =~= concat_results(d) + concat_results(
                reversed(pv),
            ));
            assert(result_in_mode(pv[pv.len() - 1], self.wakati, self.baseform_unk));
            lemma_modes_append(d, seq![last], self.wakati, self.baseform_unk);
            assert forall|i: int| 0 <= i < views(self.pending@).len() implies result_in_mode(
                #[trigger] views(self.pending@)[i],
                self.wakati,
                self.baseform_unk,
            ) by {
                assert(views(self.pending@)[i] == pv[i]);
            }
            assert(d.push(last) + reversed(pv.drop_last()) =~= d + reversed(pv));
        }
        self.delivered = Ghost(self.delivered@.push(t@));
        Some(Ok(t))
    }
}

/// What an iterator has handed out comes chunk by chunk in text order: it begins the
/// results of the chunks tokenized so far, which cover the text consumed, and each of
/// them is the results of its chunk.
pub proof fn lemma_delivered_in_chunk_order<'a>(it: TextChunkIterator<'a>)
    requires
        it.inv(),
    ensures
        it.delivered_view().len() <= it.chunks_view().flatten().len(),
        it.chunks_view().flatten().take(it.delivered_view().len() as int) == it.delivered_view(),
        chunk_start(it.text_view(), it.chunks_view().len() as int) == it.consumed(),
        forall|i: int|
            0 <= i < it.chunks_view().len() ==> #[trigger] chunk_start(it.text_view(), i) < it.text_view().len(),
        forall|i: int|
            0 <= i < it.chunks_view().len() ==> chunk_results(
                it.tokenizer_view(),
                it.mode().0,
                it.mode().1,
                it.text_view(),
                chunk_start(it.text_view(), i),
                #[trigger] it.chunks_view()[i],
            ),
{
    let d = it.delivered@;
    let f = it.chunks@.flatten();
    assert(f == d + reversed(views(it.pending@)));
    assert(f.take(d.len() as int) =~= d);
}

impl Tokenizer {
    /// An iterator over the results of tokenizing `text` without its leading and
    /// trailing white space, in the given mode.
    pub fn tokenize_stream<'a>(&'a self, text: &str, wakati: bool, baseform_unk: bool) -> (it:
        TextChunkIterator<'a>)
        requires
            self.wf(),
        ensures
            it.inv(),
            it.tokenizer_view() == *self,
            is_trim_of(text@, it.text_view()),
            it.delivered_view() == Seq::<ResultView>::empty(),
            it.mode() == (wakati, baseform_unk),
    {
        let chars = trimmed_chars(text);
        let it = TextChunkIterator {
            tokenizer: self,
            text: chars,
            processed: 0,
            pending: Vec::new(),
            wakati,
            baseform_unk,
            delivered: Ghost(Seq::empty()),
            chunks: Ghost(Seq::empty()),
        };
        proof {
            assert(Seq::<Seq<ResultView>>::empty().flatten() =~= Seq::<ResultView>::empty());
            assert(Seq::<ResultView>::empty() + Seq::<ResultView>::empty() =~= Seq::<ResultView>::empty());
            assert(reversed(views(it.pending@)) =~= Seq::<ResultView>::empty());
            assert(it.text@.subrange(0, 0) =~= Seq::<char>::empty());
            assert(concat_results(Seq::<ResultView>::empty()) == Seq::<char>::empty());
            assert(views(it.pending@) =~= Seq::<ResultView>::empty());
        }
        it
    }
}

} // verus!
