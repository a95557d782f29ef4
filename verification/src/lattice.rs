use vstd::prelude::*;

use crate::connection::PackedConnectionMatrix;
use crate::error::RunomeError;
use crate::types::DictEntry;

verus! {

/// Where a lattice node comes from.
#[derive(Debug, Clone, Copy, PartialEq, Eq, Structural)]
pub enum NodeType {
    SysDict,
    UserDict,
    Unknown,
}

/// What a tokenizer reads of a lattice node.
pub trait LatticeNode {
    spec fn surface_view(&self) -> Seq<char>;

    spec fn part_of_speech_view(&self) -> Seq<char>;

    spec fn inflection_type_view(&self) -> Seq<char>;

    spec fn inflection_form_view(&self) -> Seq<char>;

    spec fn base_form_view(&self) -> Seq<char>;

    spec fn reading_view(&self) -> Seq<char>;

    spec fn phonetic_view(&self) -> Seq<char>;

    spec fn left_id_view(&self) -> u16;

    spec fn right_id_view(&self) -> u16;

    spec fn cost_view(&self) -> i16;

    spec fn node_type_view(&self) -> NodeType;

    spec fn entry_index_view(&self) -> Option<u32>;

    fn surface(&self) -> (s: &str)
        ensures
            s@ == self.surface_view(),
    ;

    fn part_of_speech(&self) -> (s: &str)
        ensures
            s@ == self.part_of_speech_view(),
    ;

    fn inflection_type(&self) -> (s: &str)
        ensures
            s@ == self.inflection_type_view(),
    ;

    fn inflection_form(&self) -> (s: &str)
        ensures
            s@ == self.inflection_form_view(),
    ;

    fn base_form(&self) -> (s: &str)
        ensures
            s@ == self.base_form_view(),
    ;

    fn reading(&self) -> (s: &str)
        ensures
            s@ == self.reading_view(),
    ;

    fn phonetic(&self) -> (s: &str)
        ensures
            s@ == self.phonetic_view(),
    ;

    fn left_id(&self) -> (id: u16)
        ensures
            id == self.left_id_view(),
    ;

    fn right_id(&self) -> (id: u16)
        ensures
            id == self.right_id_view(),
    ;

    fn cost(&self) -> (c: i16)
        ensures
            c == self.cost_view(),
    ;

    fn node_type(&self) -> (t: NodeType)
        ensures
            t == self.node_type_view(),
    ;

    fn entry_index(&self) -> (i: Option<u32>)
        ensures
            i == self.entry_index_view(),
    ;
}

/// A dictionary word placed in the lattice.
#[derive(Debug, Clone, Copy)]
pub struct Node<'a> {
    pub entry: &'a DictEntry,
    /// Index of `entry` in its dictionary, where known.
    pub entry_index: Option<u32>,
    pub node_type: NodeType,
}

impl<'a> Node<'a> {
    pub fn new(entry: &'a DictEntry, entry_index: Option<u32>, node_type: NodeType) -> (n: Self)
        ensures
            n.entry == entry,
            n.entry_index == entry_index,
            n.node_type == node_type,
    {
        Node { entry, entry_index, node_type }
    }
}

impl<'a> LatticeNode for Node<'a> {
    open spec fn surface_view(&self) -> Seq<char> {
        self.entry.surface@
    }

    open spec fn part_of_speech_view(&self) -> Seq<char> {
        self.entry.part_of_speech@
    }

    open spec fn inflection_type_view(&self) -> Seq<char> {
        self.entry.inflection_type@
    }

    open spec fn inflection_form_view(&self) -> Seq<char> {
        self.entry.inflection_form@
    }

    open spec fn base_form_view(&self) -> Seq<char> {
        self.entry.base_form@
    }

    open spec fn reading_view(&self) -> Seq<char> {
        self.entry.reading@
    }

    open spec fn phonetic_view(&self) -> Seq<char> {
        self.entry.phonetic@
    }

    open spec fn left_id_view(&self) -> u16 {
        self.entry.left_id
    }

    open spec fn right_id_view(&self) -> u16 {
        self.entry.right_id
    }

    open spec fn cost_view(&self) -> i16 {
        self.entry.cost
    }

    open spec fn node_type_view(&self) -> NodeType {
        self.node_type
    }

    open spec fn entry_index_view(&self) -> Option<u32> {
        self.entry_index
    }

    fn surface(&self) -> (s: &str) {
        self.entry.surface.as_str()
    }

    fn part_of_speech(&self) -> (s: &str) {
        self.entry.part_of_speech.as_str()
    }

    fn inflection_type(&self) -> (s: &str) {
        self.entry.inflection_type.as_str()
    }

    fn inflection_form(&self) -> (s: &str) {
        self.entry.inflection_form.as_str()
    }

    fn base_form(&self) -> (s: &str) {
        self.entry.base_form.as_str()
    }

    fn reading(&self) -> (s: &str) {
        self.entry.reading.as_str()
    }

    fn phonetic(&self) -> (s: &str) {
        self.entry.phonetic.as_str()
    }

    fn left_id(&self) -> (id: u16) {
        self.entry.left_id
    }

    fn right_id(&self) -> (id: u16) {
        self.entry.right_id
    }

    fn cost(&self) -> (c: i16) {
        self.entry.cost
    }

    fn node_type(&self) -> (t: NodeType) {
        self.node_type
    }

    fn entry_index(&self) -> (i: Option<u32>) {
        self.entry_index
    }
}

/// An unknown word: a node that owns all its fields.
#[derive(Debug, Clone)]
pub struct UnknownNode {
    pub surface: String,
    pub left_id: u16,
    pub right_id: u16,
    pub cost: i16,
    pub part_of_speech: String,
    pub inflection_type: String,
    pub inflection_form: String,
    pub base_form: String,
    pub reading: String,
    pub phonetic: String,
    pub node_type: NodeType,
}

/// The one-character string `*`, which stands for an empty field.
pub open spec fn asterisk() -> Seq<char> {
    seq!['*']
}

/// The string `*`.
pub fn asterisk_string() -> (s: String)
    ensures
        s@ == asterisk(),
{
    let s = String::from_str("*");
    proof {
        reveal_strlit("*");
    }
    s
}

impl UnknownNode {
    /// A node with every field given.
    pub fn new(
        surface: &str,
        left_id: u16,
        right_id: u16,
        cost: i16,
        part_of_speech: &str,
        inflection_type: &str,
        inflection_form: &str,
        base_form: &str,
        reading: &str,
        phonetic: &str,
        node_type: NodeType,
    ) -> (n: Self)
        ensures
            n.surface@ == surface@,
            n.left_id == left_id,
            n.right_id == right_id,
            n.cost == cost,
            n.part_of_speech@ == part_of_speech@,
            n.inflection_type@ == inflection_type@,
            n.inflection_form@ == inflection_form@,
            n.base_form@ == base_form@,
            n.reading@ == reading@,
            n.phonetic@ == phonetic@,
            n.node_type == node_type,
    {
        UnknownNode {
            surface: String::from_str(surface),
            left_id,
            right_id,
            cost,
            part_of_speech: String::from_str(part_of_speech),
            inflection_type: String::from_str(inflection_type),
            inflection_form: String::from_str(inflection_form),
            base_form: String::from_str(base_form),
            reading: String::from_str(reading),
            phonetic: String::from_str(phonetic),
            node_type,
        }
    }

    /// A node for an unknown word: inflection, reading and phonetic are `*`, and so is
    /// the base form unless one is given.
    pub fn for_unknown_word(
        surface: &str,
        left_id: u16,
        right_id: u16,
        cost: i16,
        part_of_speech: &str,
        base_form: Option<&str>,
        node_type: NodeType,
    ) -> (n: Self)
        ensures
            n.surface@ == surface@,
            n.left_id == left_id,
            n.right_id == right_id,
            n.cost == cost,
            n.part_of_speech@ == part_of_speech@,
            n.inflection_type@ == asterisk(),
            n.inflection_form@ == asterisk(),
            n.base_form@ == match base_form {
                Some(b) => b@,
                None => asterisk(),
            },
            n.reading@ == asterisk(),
            n.phonetic@ == asterisk(),
            n.node_type == node_type,
    {
        let base = match base_form {
            Some(b) => String::from_str(b),
            None => asterisk_string(),
        };
        UnknownNode {
            surface: String::from_str(surface),
            left_id,
            right_id,
            cost,
            part_of_speech: String::from_str(part_of_speech),
            inflection_type: asterisk_string(),
            inflection_form: asterisk_string(),
            base_form: base,
            reading: asterisk_string(),
            phonetic: asterisk_string(),
            node_type,
        }
    }
}

impl LatticeNode for UnknownNode {
    open spec fn surface_view(&self) -> Seq<char> {
        self.surface@
    }

    open spec fn part_of_speech_view(&self) -> Seq<char> {
        self.part_of_speech@
    }

    open spec fn inflection_type_view(&self) -> Seq<char> {
        self.inflection_type@
    }

    open spec fn inflection_form_view(&self) -> Seq<char> {
        self.inflection_form@
    }

    open spec fn base_form_view(&self) -> Seq<char> {
        self.base_form@
    }

    open spec fn reading_view(&self) -> Seq<char> {
        self.reading@
    }

    open spec fn phonetic_view(&self) -> Seq<char> {
        self.phonetic@
    }

    open spec fn left_id_view(&self) -> u16 {
        self.left_id
    }

    open spec fn right_id_view(&self) -> u16 {
        self.right_id
    }

    open spec fn cost_view(&self) -> i16 {
        self.cost
    }

    open spec fn node_type_view(&self) -> NodeType {
        self.node_type
    }

    open spec fn entry_index_view(&self) -> Option<u32> {
        None
    }

    fn surface(&self) -> (s: &str) {
        self.surface.as_str()
    }

    fn part_of_speech(&self) -> (s: &str) {
        self.part_of_speech.as_str()
    }

    fn inflection_type(&self) -> (s: &str) {
        self.inflection_type.as_str()
    }

    fn inflection_form(&self) -> (s: &str) {
        self.inflection_form.as_str()
    }

    fn base_form(&self) -> (s: &str) {
        self.base_form.as_str()
    }

    fn reading(&self) -> (s: &str) {
        self.reading.as_str()
    }

    fn phonetic(&self) -> (s: &str) {
        self.phonetic.as_str()
    }

    fn left_id(&self) -> (id: u16) {
        self.left_id
    }

    fn right_id(&self) -> (id: u16) {
        self.right_id
    }

    fn cost(&self) -> (c: i16) {
        self.cost
    }

    fn node_type(&self) -> (t: NodeType) {
        self.node_type
    }

    fn entry_index(&self) -> (i: Option<u32>) {
        None
    }
}

/// A node of the lattice: the start and end markers, a dictionary word or an
/// unknown word.
#[derive(Debug, Clone)]
pub enum StartNode<'a> {
    Bos,
    Eos,
    Dict(Node<'a>),
    Unknown(UnknownNode),
}

/// Surface of the start marker.
pub open spec fn bos_surface() -> Seq<char> {
    "__BOS__"@
}

/// Surface of the end marker.
pub open spec fn eos_surface() -> Seq<char> {
    "__EOS__"@
}

impl<'a> LatticeNode for StartNode<'a> {
    open spec fn surface_view(&self) -> Seq<char> {
        match self {
            StartNode::Bos => bos_surface(),
            StartNode::Eos => eos_surface(),
            StartNode::Dict(n) => n.surface_view(),
            StartNode::Unknown(n) => n.surface_view(),
        }
    }

    open spec fn part_of_speech_view(&self) -> Seq<char> {
        match self {
            StartNode::Dict(n) => n.part_of_speech_view(),
            StartNode::Unknown(n) => n.part_of_speech_view(),
            _ => asterisk(),
        }
    }

    open spec fn inflection_type_view(&self) -> Seq<char> {
        match self {
            StartNode::Dict(n) => n.inflection_type_view(),
            StartNode::Unknown(n) => n.inflection_type_view(),
            _ => asterisk(),
        }
    }

    open spec fn inflection_form_view(&self) -> Seq<char> {
        match self {
            StartNode::Dict(n) => n.inflection_form_view(),
            StartNode::Unknown(n) => n.inflection_form_view(),
            _ => asterisk(),
        }
    }

    open spec fn base_form_view(&self) -> Seq<char> {
        match self {
            StartNode::Dict(n) => n.base_form_view(),
            StartNode::Unknown(n) => n.base_form_view(),
            _ => asterisk(),
        }
    }

    open spec fn reading_view(&self) -> Seq<char> {
        match self {
            StartNode::Dict(n) => n.reading_view(),
            StartNode::Unknown(n) => n.reading_view(),
            _ => asterisk(),
        }
    }

    open spec fn phonetic_view(&self) -> Seq<char> {
        match self {
            StartNode::Dict(n) => n.phonetic_view(),
            StartNode::Unknown(n) => n.phonetic_view(),
            _ => asterisk(),
        }
    }

    open spec fn left_id_view(&self) -> u16 {
        match self {
            StartNode::Dict(n) => n.left_id_view(),
            StartNode::Unknown(n) => n.left_id_view(),
            _ => 0,
        }
    }

    open spec fn right_id_view(&self) -> u16 {
        match self {
            StartNode::Dict(n) => n.right_id_view(),
            StartNode::Unknown(n) => n.right_id_view(),
            _ => 0,
        }
    }

    open spec fn cost_view(&self) -> i16 {
        match self {
            StartNode::Dict(n) => n.cost_view(),
            StartNode::Unknown(n) => n.cost_view(),
            _ => 0,
        }
    }

    open spec fn node_type_view(&self) -> NodeType {
        match self {
            StartNode::Dict(n) => n.node_type_view(),
            StartNode::Unknown(n) => n.node_type_view(),
            _ => NodeType::SysDict,
        }
    }

    open spec fn entry_index_view(&self) -> Option<u32> {
        match self {
            StartNode::Dict(n) => n.entry_index_view(),
            _ => None,
        }
    }

    fn surface(&self) -> (s: &str) {
        match self {
            StartNode::Bos => "__BOS__",
            StartNode::Eos => "__EOS__",
            StartNode::Dict(n) => n.surface(),
            StartNode::Unknown(n) => n.surface(),
        }
    }

    fn part_of_speech(&self) -> (s: &str) {
        match self {
            StartNode::Dict(n) => n.part_of_speech(),
            StartNode::Unknown(n) => n.part_of_speech(),
            _ => {
                proof {
                    reveal_strlit("*");
                }
                "*"
            },
        }
    }

    fn inflection_type(&self) -> (s: &str) {
        match self {
            StartNode::Dict(n) => n.inflection_type(),
            StartNode::Unknown(n) => n.inflection_type(),
            _ => {
                proof {
                    reveal_strlit("*");
                }
                "*"
            },
        }
    }

    fn inflection_form(&self) -> (s: &str) {
        match self {
            StartNode::Dict(n) => n.inflection_form(),
            StartNode::Unknown(n) => n.inflection_form(),
            _ => {
                proof {
                    reveal_strlit("*");
                }
                "*"
            },
        }
    }

    fn base_form(&self) -> (s: &str) {
        match self {
            StartNode::Dict(n) => n.base_form(),
            StartNode::Unknown(n) => n.base_form(),
            _ => {
                proof {
                    reveal_strlit("*");
                }
                "*"
            },
        }
    }

    fn reading(&self) -> (s: &str) {
        match self {
            StartNode::Dict(n) => n.reading(),
            StartNode::Unknown(n) => n.reading(),
            _ => {
                proof {
                    reveal_strlit("*");
                }
                "*"
            },
        }
    }

    fn phonetic(&self) -> (s: &str) {
        match self {
            StartNode::Dict(n) => n.phonetic(),
            StartNode::Unknown(n) => n.phonetic(),
            _ => {
                proof {
                    reveal_strlit("*");
                }
                "*"
            },
        }
    }

    fn left_id(&self) -> (id: u16) {
        match self {
            StartNode::Dict(n) => n.left_id(),
            StartNode::Unknown(n) => n.left_id(),
            _ => 0,
        }
    }

    fn right_id(&self) -> (id: u16) {
        match self {
            StartNode::Dict(n) => n.right_id(),
            StartNode::Unknown(n) => n.right_id(),
            _ => 0,
        }
    }

    fn cost(&self) -> (c: i16) {
        match self {
            StartNode::Dict(n) => n.cost(),
            StartNode::Unknown(n) => n.cost(),
            _ => 0,
        }
    }

    fn node_type(&self) -> (t: NodeType) {
        match self {
            StartNode::Dict(n) => n.node_type(),
            StartNode::Unknown(n) => n.node_type(),
            _ => NodeType::SysDict,
        }
    }

    fn entry_index(&self) -> (i: Option<u32>) {
        match self {
            StartNode::Dict(n) => n.entry_index(),
            _ => None,
        }
    }
}

impl<'a> StartNode<'a> {
    /// How many lattice positions the node spans: one for the markers, else the
    /// length of its surface in characters.
    pub open spec fn span(&self) -> int {
        match self {
            StartNode::Bos => 1,
            StartNode::Eos => 1,
            _ => self.surface_view().len() as int,
        }
    }

    /// The number of positions the node spans.
    pub fn node_len(&self) -> (n: usize)
        ensures
            n == self.span(),
    {
        match self {
            StartNode::Bos => 1,
            StartNode::Eos => 1,
            StartNode::Dict(n) => n.entry.surface.as_str().unicode_len(),
            StartNode::Unknown(n) => n.surface.as_str().unicode_len(),
        }
    }
}

} // verus!

verus! {

/// Largest lattice size whose path costs are sure to fit in `i64`.
pub const MAX_LATTICE_SIZE: usize = 0x1000_0000;

/// Largest change of a path cost in one step: a connection cost and a word cost.
pub const MAX_STEP_COST: i64 = 0x1_0000;

/// A node in the lattice with its place and its best path from the start.
#[derive(Debug)]
pub struct LatticeSlot<'a> {
    pub node: StartNode<'a>,
    /// Position where the node starts.
    pub pos: usize,
    /// Position where the node ends.
    pub end: usize,
    /// Cost of the cheapest path from the start marker through this node.
    pub min_cost: i64,
    /// Slot of the node before this one on that path.
    pub back: usize,
}

/// A Viterbi lattice. Position 0 holds the start marker, which ends at position 1;
/// a word starting at character `i` of the text starts at position `i + 1`.
/// Nodes are added at the current position `p`, which only moves forward.
#[derive(Debug)]
pub struct Lattice<'a> {
    /// All nodes, in the order they were added; the start marker is slot 0.
    pub slots: Vec<LatticeSlot<'a>>,
    /// Slots by start position, in the order they were added.
    pub snodes: Vec<Vec<usize>>,
    /// Slots by end position, in the order they were added.
    pub enodes: Vec<Vec<usize>>,
    /// The current position.
    pub p: usize,
    /// The last position at which a node can start.
    pub size: usize,
    pub matrix: &'a PackedConnectionMatrix,
    /// Slot of the end marker, once added.
    pub eos: Option<usize>,
}

impl<'a> Lattice<'a> {
    /// Whether the connection from slot `j` into slot `k` has a cost in the matrix.
    pub open spec fn link_ok(&self, j: int, k: int) -> bool {
        &&& (self.slots@[j].node.right_id_view() as int) < self.matrix.rows
        &&& (self.slots@[k].node.left_id_view() as int) < self.matrix.cols
    }

    /// Cost of the cheapest path through slot `j` and then into slot `k`, without
    /// the cost of `k` itself.
    pub open spec fn through(&self, j: int, k: int) -> int {
        self.slots@[j].min_cost + self.matrix.cost(
            self.slots@[j].node.right_id_view() as int,
            self.slots@[k].node.left_id_view() as int,
        )
    }

    /// Cost of stepping from slot `j` to slot `k`: the connection cost and the cost of `k`.
    pub open spec fn step_cost(&self, j: int, k: int) -> int {
        self.matrix.cost(
            self.slots@[j].node.right_id_view() as int,
            self.slots@[k].node.left_id_view() as int,
        ) + self.slots@[k].node.cost_view()
    }

    /// Slot `back` is the first of the slots ending where slot `k` starts with the
    /// cheapest path into `k`; every connection into `k` has a cost.
    pub open spec fn best_back(&self, k: int, back: int) -> bool {
        forall|j: int|
            0 <= j < self.slots.len() && #[trigger] self.slots@[j].end == self.slots@[k].pos ==> {
                &&& j < k
                &&& self.link_ok(j, k)
                &&& self.through(back, k) <= self.through(j, k)
                &&& j < back ==> self.through(back, k) < self.through(j, k)
            }
    }

    /// Slot `k` (not the start marker) is well placed and its cost is that of the
    /// cheapest path into it.
    pub open spec fn slot_ok(&self, k: int) -> bool {
        let s = self.slots@[k];
        &&& 1 <= s.pos <= self.p
        &&& s.end == s.pos + s.node.span()
        &&& s.pos < s.end <= self.size + 1
        &&& !(s.node is Bos)
        &&& !(s.node is Eos) ==> s.end <= self.size
        &&& s.back < k
        &&& self.slots@[s.back as int].end == s.pos
        &&& self.best_back(k, s.back as int)
        &&& s.min_cost == self.through(s.back as int, k) + s.node.cost_view()
    }

    /// Slots are numbered in the order of their positions, and each list of the
    /// slots that start at a position is ascending.
    pub open spec fn in_order(&self) -> bool {
        &&& forall|k1: int, k2: int|
            0 <= k1 < k2 < self.slots.len() ==> #[trigger] self.slots@[k1].pos <= #[trigger] self.slots@[k2].pos
        &&& forall|q: int, i: int, l: int|
            0 <= q < self.snodes.len() && 0 <= i < l < self.snodes@[q].len()
                ==> #[trigger] self.snodes@[q]@[i] < #[trigger] self.snodes@[q]@[l]
    }

    /// The lists by position name exactly the slots that start or end there,
    /// in ascending order.
    pub open spec fn lists_ok(&self) -> bool {
        &&& forall|q: int, i: int|
            0 <= q < self.enodes.len() && 0 <= i < self.enodes@[q].len() ==> {
                &&& (#[trigger] self.enodes@[q]@[i] as int) < self.slots.len()
                &&& self.slots@[self.enodes@[q]@[i] as int].end == q
            }
        &&& forall|q: int, i: int, l: int|
            0 <= q < self.enodes.len() && 0 <= i < l < self.enodes@[q].len()
                ==> #[trigger] self.enodes@[q]@[i] < #[trigger] self.enodes@[q]@[l]
        &&& forall|k: int|
            0 <= k < self.slots.len() ==> (#[trigger] self.slots@[k].end as int) < self.enodes.len()
                && self.enodes@[self.slots@[k].end as int]@.contains(k as usize)
        &&& forall|q: int, i: int|
            0 <= q < self.snodes.len() && 0 <= i < self.snodes@[q].len() ==> {
                &&& (#[trigger] self.snodes@[q]@[i] as int) < self.slots.len()
                &&& self.slots@[self.snodes@[q]@[i] as int].pos == q
            }
        &&& forall|k: int|
            0 <= k < self.slots.len() ==> (#[trigger] self.slots@[k].pos as int) < self.snodes.len()
                && self.snodes@[self.slots@[k].pos as int]@.contains(k as usize)
    }

    /// The lattice invariant.
    pub open spec fn inv(&self) -> bool {
        &&& self.matrix.wf()
        &&& 1 <= self.size <= MAX_LATTICE_SIZE
        &&& 1 <= self.p <= self.size
        &&& self.snodes.len() == self.size + 1
        &&& self.enodes.len() == self.size + 2
        &&& self.slots.len() >= 1
        &&& self.slots@[0].node is Bos
        &&& self.slots@[0].pos == 0
        &&& self.slots@[0].end == 1
        &&& self.slots@[0].min_cost == 0
        &&& self.slots@[0].back == 0
        &&& forall|k: int| 1 <= k < self.slots.len() ==> #[trigger] self.slot_ok(k)
        &&& forall|k: int|
            0 <= k < self.slots.len() ==> -MAX_STEP_COST * (#[trigger] self.slots@[k]).end
                <= self.slots@[k].min_cost <= MAX_STEP_COST * self.slots@[k].end
        &&& self.lists_ok()
        &&& match self.eos {
            Some(e) => {
                &&& e as int == self.slots.len() - 1
                &&& self.slots@[e as int].node is Eos
                &&& self.slots@[e as int].pos == self.p
                &&& forall|k: int| 0 <= k < e ==> !(#[trigger] self.slots@[k].node is Eos)
            },
            None => forall|k: int| 0 <= k < self.slots.len() ==> !(#[trigger] self.slots@[k].node is Eos),
        }
    }

    /// A lattice of `size` positions with only the start marker, at position 1.
    pub fn new(size: usize, matrix: &'a PackedConnectionMatrix) -> (l: Self)
        requires
            1 <= size <= MAX_LATTICE_SIZE,
            matrix.wf(),
        ensures
            l.inv(),
            l.size == size,
            l.p == 1,
            l.matrix == matrix,
            l.eos is None,
            l.slots.len() == 1,
            l.in_order(),
    {
        let mut snodes: Vec<Vec<usize>> = Vec::new();
        let mut i: usize = 0;
        while i <= size
            invariant
                i <= size + 1,
                size <= MAX_LATTICE_SIZE,
                snodes.len() == i,
                forall|q: int| 0 <= q < i ==> (#[trigger] snodes@[q]).len() == (if q == 0 { 1int } else { 0 }),
                i > 0 ==> snodes@[0]@ == seq![0usize],
            decreases size + 1 - i,
        {
            if i == 0 {
                let mut first: Vec<usize> = Vec::new();
                first.push(0);
                snodes.push(first);
            } else {
                snodes.push(Vec::new());
            }
            i = i + 1;
        }
        let mut enodes: Vec<Vec<usize>> = Vec::new();
        let mut i: usize = 0;
        while i <= size + 1
            invariant
                i <= size + 2,
                size <= MAX_LATTICE_SIZE,
                enodes.len() == i,
                forall|q: int| 0 <= q < i ==> (#[trigger] enodes@[q]).len() == (if q == 1 { 1int } else { 0 }),
                i > 1 ==> enodes@[1]@ == seq![0usize],
            decreases size + 2 - i,
        {
            if i == 1 {
                let mut first: Vec<usize> = Vec::new();
                first.push(0);
                enodes.push(first);
            } else {
                enodes.push(Vec::new());
            }
            i = i + 1;
        }
        let mut slots: Vec<LatticeSlot<'a>> = Vec::new();
        slots.push(LatticeSlot { node: StartNode::Bos, pos: 0, end: 1, min_cost: 0, back: 0 });
        let l = Lattice { slots, snodes, enodes, p: 1, size, matrix, eos: None };
        proof {
            assert(l.enodes@[1]@[0] == 0usize);
            assert(l.snodes@[0]@[0] == 0usize);
            assert forall|q: int, i: int|
                0 <= q < l.enodes.len() && 0 <= i < l.enodes@[q].len() implies {
                    &&& (#[trigger] l.enodes@[q]@[i] as int) < l.slots.len()
                    &&& l.slots@[l.enodes@[q]@[i] as int].end == q
                } by {
                assert(l.enodes@[q].len() == (if q == 1 { 1int } else { 0 }));
            }
            assert forall|q: int, i: int|
                0 <= q < l.snodes.len() && 0 <= i < l.snodes@[q].len() implies {
                    &&& (#[trigger] l.snodes@[q]@[i] as int) < l.slots.len()
                    &&& l.slots@[l.snodes@[q]@[i] as int].pos == q
                } by {
                assert(l.snodes@[q].len() == (if q == 0 { 1int } else { 0 }));
            }
            assert forall|q: int, i: int, m: int|
                0 <= q < l.enodes.len() && 0 <= i < m < l.enodes@[q].len()
                    implies #[trigger] l.enodes@[q]@[i] < #[trigger] l.enodes@[q]@[m] by {
                assert(l.enodes@[q].len() == (if q == 1 { 1int } else { 0 }));
            }
            assert(l.enodes@[1]@.contains(0usize));
            assert(l.snodes@[0]@.contains(0usize));
            assert forall|q: int, i: int, m: int|
                0 <= q < l.snodes.len() && 0 <= i < m < l.snodes@[q].len()
                    implies #[trigger] l.snodes@[q]@[i] < #[trigger] l.snodes@[q]@[m] by {
                assert(l.snodes@[q].len() == (if q == 0 { 1int } else { 0 }));
            }
        }
        l
    }
}

} // verus!

verus! {

impl<'a> Lattice<'a> {
    /// Whether the connection from slot `j` into `node` has a cost in the matrix.
    pub open spec fn link_ok_into(&self, j: int, node: StartNode<'a>) -> bool {
        &&& (self.slots@[j].node.right_id_view() as int) < self.matrix.rows
        &&& (node.left_id_view() as int) < self.matrix.cols
    }

    /// Cost of the cheapest path through slot `j` and then into `node`, without the
    /// cost of `node` itself.
    pub open spec fn through_into(&self, j: int, node: StartNode<'a>) -> int {
        self.slots@[j].min_cost + self.matrix.cost(
            self.slots@[j].node.right_id_view() as int,
            node.left_id_view() as int,
        )
    }

    /// The slots ending at the current position.
    pub open spec fn here(&self) -> Seq<usize> {
        self.enodes@[self.p as int]@
    }

    /// `i` is the first place in the list of slots ending here whose connection
    /// into `node` has no cost in the matrix.
    pub open spec fn first_bad_link(&self, node: StartNode<'a>, i: int) -> bool {
        &&& 0 <= i < self.here().len()
        &&& !self.link_ok_into(self.here()[i] as int, node)
        &&& forall|l: int| 0 <= l < i ==> self.link_ok_into(#[trigger] self.here()[l] as int, node)
    }

    /// The error that adding `node` at the current position gives, if any: no node
    /// ends here, or the first node that ends here cannot be connected to it.
    pub open spec fn add_error(&self, node: StartNode<'a>) -> Option<RunomeError> {
        if self.here().len() == 0 {
            Some(RunomeError::LatticeDisconnected { position: self.p })
        } else if exists|i: int| self.first_bad_link(node, i) {
            let i = choose|i: int| self.first_bad_link(node, i);
            Some(
                RunomeError::InvalidConnectionId {
                    left_id: self.slots@[self.here()[i] as int].node.right_id_view(),
                    right_id: node.left_id_view(),
                },
            )
        } else {
            None
        }
    }

    /// The slot that `node` gets when added at the current position behind slot `back`.
    pub open spec fn placed(&self, node: StartNode<'a>, back: usize) -> LatticeSlot<'a> {
        LatticeSlot {
            node,
            pos: self.p,
            end: (self.p + node.span()) as usize,
            min_cost: (self.through_into(back as int, node) + node.cost_view()) as i64,
            back,
        }
    }

    /// Slot `back` ends here and is the first with the cheapest path into `node`.
    pub open spec fn best_into(&self, node: StartNode<'a>, back: usize) -> bool {
        &&& self.here().contains(back)
        &&& forall|i: int|
            0 <= i < self.here().len() ==> {
                &&& self.through_into(back as int, node) <= self.through_into(
                    #[trigger] self.here()[i] as int,
                    node,
                )
                &&& self.here()[i] < back ==> self.through_into(back as int, node) < self.through_into(
                    self.here()[i] as int,
                    node,
                )
            }
    }

    /// `new` is `old` with `node` added at the current position behind slot `back`.
    pub open spec fn added(old: Self, new: Self, node: StartNode<'a>, back: usize) -> bool {
        let k = old.slots.len();
        let end = old.p + node.span();
        &&& old.best_into(node, back)
        &&& new.slots@ == old.slots@.push(old.placed(node, back))
        &&& new.snodes@ == old.snodes@.update(old.p as int, new.snodes@[old.p as int])
        &&& new.snodes@[old.p as int]@ == old.snodes@[old.p as int]@.push(k as usize)
        &&& new.enodes@ == old.enodes@.update(end, new.enodes@[end])
        &&& new.enodes@[end]@ == old.enodes@[end]@.push(k as usize)
        &&& new.p == old.p
        &&& new.size == old.size
        &&& new.matrix == old.matrix
    }

    /// Adds `node` at the current position, behind the first node ending here with
    /// the cheapest path into it. Fails, and changes nothing, when no node ends here
    /// or a connection cost is missing from the matrix.
    pub fn add(&mut self, node: StartNode<'a>) -> (r: Result<(), RunomeError>)
        requires
            old(self).inv(),
            old(self).eos is None,
            node is Dict || node is Unknown,
            node.span() >= 1,
            old(self).p + node.span() <= old(self).size,
        ensures
            r is Err <==> old(self).add_error(node) is Some,
            r matches Err(e) ==> old(self).add_error(node) == Some(e) && *final(self) == *old(self),
            r is Ok ==> final(self).inv() && final(self).eos is None && exists|b: usize|
                Self::added(*old(self), *final(self), node, b),
    {
        self.add_node(node)
    }

    fn add_node(&mut self, node: StartNode<'a>) -> (r: Result<(), RunomeError>)
        requires
            old(self).inv(),
            old(self).eos is None,
            !(node is Bos),
            node.span() >= 1,
            old(self).p + node.span() <= old(self).size + 1,
            !(node is Eos) ==> old(self).p + node.span() <= old(self).size,
        ensures
            r is Err <==> old(self).add_error(node) is Some,
            r matches Err(e) ==> old(self).add_error(node) == Some(e) && *final(self) == *old(self),
            r is Ok ==> final(self).inv() && exists|b: usize| Self::added(*old(self), *final(self), node, b),
            r is Ok ==> (node is Eos ==> final(self).eos == Some(old(self).slots.len() as usize)),
            r is Ok ==> (!(node is Eos) ==> final(self).eos is None),
    {
        let p = self.p;
        let n = self.enodes[p].len();
        if n == 0 {
            return Err(RunomeError::LatticeDisconnected { position: p });
        }
        let left = node.left_id();
        let first = self.enodes[p][0];
        proof {
            assert(self.here()[0] == first);
        }
        let c0 = match self.matrix.get(self.slots[first].node.right_id(), left) {
            Some(c) => c,
            None => {
                let bad_right = self.slots[first].node.right_id();
                proof {
                    assert(self.first_bad_link(node, 0));
                    let i = choose|i: int| self.first_bad_link(node, i);
                    assert(i == 0) by {
                        if i > 0 {
                            assert(self.link_ok_into(self.here()[0] as int, node));
                        }
                    }
                }
                return Err(RunomeError::InvalidConnectionId { left_id: bad_right, right_id: left });
            },
        };
        proof {
            let e = self.slots@[first as int];
            assert(first < self.slots.len());
            assert(self.slots@[first as int].end == p);
        }
        let mut best: usize = first;
        let mut best_cost: i64 = self.slots[first].min_cost + c0 as i64;
        let mut bi: usize = 0;
        let mut i: usize = 1;
        while i < n
            invariant
                self.inv(),
                self.eos is None,
                p == self.p,
                n == self.here().len(),
                1 <= i <= n,
                left == node.left_id_view(),
                bi < i,
                self.here()[bi as int] == best,
                best_cost == self.through_into(best as int, node),
                forall|l: int| 0 <= l < i ==> self.link_ok_into(#[trigger] self.here()[l] as int, node),
                forall|l: int|
                    0 <= l < i ==> best_cost <= self.through_into(#[trigger] self.here()[l] as int, node),
                forall|l: int|
                    0 <= l < bi ==> best_cost < self.through_into(#[trigger] self.here()[l] as int, node),
                -MAX_STEP_COST * p <= best_cost - self.matrix.cost(
                    self.slots@[best as int].node.right_id_view() as int,
                    node.left_id_view() as int,
                ) <= MAX_STEP_COST * p,
                (node.left_id_view() as int) < self.matrix.cols,
            decreases n - i,
        {
            let j = self.enodes[p][i];
            proof {
                assert(self.here()[i as int] == j);
                assert(j < self.slots.len());
                assert(self.slots@[j as int].end == p);
                lemma_cost_in_range(*self, j as int);
            }
            let c = match self.matrix.get(self.slots[j].node.right_id(), left) {
                Some(c) => c,
                None => {
                    let bad_right = self.slots[j].node.right_id();
                    proof {
                        assert(self.first_bad_link(node, i as int));
                        let w = choose|w: int| self.first_bad_link(node, w);
                        assert(w == i) by {
                            if w > i {
                                assert(self.link_ok_into(self.here()[i as int] as int, node));
                            }
                            if w < i {
                                assert(self.link_ok_into(self.here()[w] as int, node));
                            }
                        }
                    }
                    return Err(RunomeError::InvalidConnectionId { left_id: bad_right, right_id: left });
                },
            };
            let cost = self.slots[j].min_cost + c as i64;
            if cost < best_cost {
                best = j;
                best_cost = cost;
                bi = i;
            }
            i = i + 1;
        }
        proof {
            assert(!exists|w: int| self.first_bad_link(node, w));
            assert(self.here().contains(best));
            assert(self.best_into(node, best)) by {
                assert forall|l: int| 0 <= l < self.here().len() implies {
                    &&& self.through_into(best as int, node) <= self.through_into(
                        #[trigger] self.here()[l] as int,
                        node,
                    )
                    &&& self.here()[l] < best ==> self.through_into(best as int, node)
                        < self.through_into(self.here()[l] as int, node)
                } by {
                    if self.here()[l] < best {
                        if l >= bi {
                            if l > bi {
                                assert(self.here()[bi as int] < self.here()[l]);
                            }
                        }
                    }
                }
            }
        }
        let min_cost = best_cost + node.cost() as i64;
        let span = node.node_len();
        let k = self.slots.len();
        let end = p + span;
        let is_eos = match node {
            StartNode::Eos => true,
            _ => false,
        };
        let ghost old_self = *self;
        self.slots.push(LatticeSlot { node, pos: p, end, min_cost, back: best });
        self.snodes[p].push(k);
        self.enodes[end].push(k);
        if is_eos {
            self.eos = Some(k);
        }
        proof {
            assert(self.slots@[k as int] == old_self.placed(node, best));
            assert(Self::added(old_self, *self, node, best));
            lemma_added_keeps_inv(old_self, *self, node, best);
        }
        Ok(())
    }
}

/// Adding a node keeps the slots in order.
pub proof fn lemma_added_in_order<'a>(old: Lattice<'a>, new: Lattice<'a>, node: StartNode<'a>, back: usize)
    requires
        old.inv(),
        old.in_order(),
        Lattice::added(old, new, node, back),
    ensures
        new.in_order(),
{
    let k = old.slots.len() as int;
    assert forall|k1: int, k2: int| 0 <= k1 < k2 < new.slots.len() implies #[trigger] new.slots@[k1].pos
        <= #[trigger] new.slots@[k2].pos by {
        assert(new.slots@[k1] == old.slots@[k1]);
        if k2 < k {
            assert(new.slots@[k2] == old.slots@[k2]);
        } else {
            assert(new.slots@[k2] == old.placed(node, back));
            if k1 >= 1 {
                assert(old.slot_ok(k1));
            }
        }
    }
    assert forall|q: int, i: int, l: int|
        0 <= q < new.snodes.len() && 0 <= i < l < new.snodes@[q].len()
            implies #[trigger] new.snodes@[q]@[i] < #[trigger] new.snodes@[q]@[l] by {
        if q == old.p {
            assert(new.snodes@[q]@[i] == old.snodes@[q]@[i]);
            if l == old.snodes@[q].len() {
                assert(old.snodes@[q]@[i] < old.slots.len());
            } else {
                assert(new.snodes@[q]@[l] == old.snodes@[q]@[l]);
            }
        } else {
            assert(new.snodes@[q] == old.snodes@[q]);
        }
    }
}

/// Path costs stay far from the limits of `i64`.
proof fn lemma_cost_in_range<'a>(lat: Lattice<'a>, j: int)
    requires
        lat.inv(),
        0 <= j < lat.slots.len(),
    ensures
        -0x1_0000_0000_0000 <= lat.slots@[j].min_cost <= 0x1_0000_0000_0000,
{
    let sj = lat.slots@[j];
    assert(-MAX_STEP_COST * sj.end <= sj.min_cost <= MAX_STEP_COST * sj.end);
    if sj.end >= 1 {
        assert(sj.end <= MAX_LATTICE_SIZE + 1) by {
            if j >= 1 {
                assert(lat.slot_ok(j));
            }
        }
    }
    assert(0x1_0000 * sj.end <= 0x1_0000_0000_0000) by (nonlinear_arith)
        requires
            sj.end <= 0x1000_0001,
    ;
}

/// Adding a node keeps the lattice invariant.
proof fn lemma_added_keeps_inv<'a>(old: Lattice<'a>, new: Lattice<'a>, node: StartNode<'a>, back: usize)
    requires
        old.inv(),
        old.eos is None,
        !(node is Bos),
        node.span() >= 1,
        old.p + node.span() <= old.size + 1,
        !(node is Eos) ==> old.p + node.span() <= old.size,
        Lattice::added(old, new, node, back),
        (node.left_id_view() as int) < old.matrix.cols,
        forall|i: int|
            0 <= i < old.here().len() ==> old.link_ok_into(#[trigger] old.here()[i] as int, node),
        new.eos == (if node is Eos { Some(old.slots.len() as usize) } else { None::<usize> }),
    ensures
        new.inv(),
{
    let k = old.slots.len() as int;
    let p = old.p as int;
    let end = p + node.span();
    let back = back as int;
    assert(old.here().contains(back as usize));
    let bi = choose|i: int| 0 <= i < old.here().len() && old.here()[i] == back as usize;
    assert(old.enodes@[p]@[bi] == back as usize);
    assert(old.enodes@[p]@[bi] < old.slots.len());
    assert(old.slots@[back].end == p);
    assert(back < k);
    // Existing slots keep their facts: nothing new ends at or before the current position.
    assert forall|m: int| 1 <= m < new.slots.len() implies #[trigger] new.slot_ok(m) by {
        if m < k {
            assert(old.slot_ok(m));
            assert(new.slots@[m] == old.slots@[m]);
            assert forall|j: int|
                0 <= j < new.slots.len() && #[trigger] new.slots@[j].end == new.slots@[m].pos implies {
                    &&& j < m
                    &&& new.link_ok(j, m)
                    &&& new.through(new.slots@[m].back as int, m) <= new.through(j, m)
                    &&& j < new.slots@[m].back ==> new.through(new.slots@[m].back as int, m)
                        < new.through(j, m)
                } by {
                if j == k {
                    assert(new.slots@[k].end == end);
                } else {
                    assert(new.slots@[j] == old.slots@[j]);
                    assert(old.slots@[j].end == old.slots@[m].pos);
                }
            }
        } else {
            assert(m == k);
            assert forall|j: int|
                0 <= j < new.slots.len() && #[trigger] new.slots@[j].end == new.slots@[k].pos implies {
                    &&& j < k
                    &&& new.link_ok(j, k)
                    &&& new.through(back, k) <= new.through(j, k)
                    &&& j < back ==> new.through(back, k) < new.through(j, k)
                } by {
                if j == k {
                    assert(new.slots@[k].end == end);
                } else {
                    assert(new.slots@[j] == old.slots@[j]);
                    assert(old.enodes@[p]@.contains(j as usize));
                    let l = choose|l: int| 0 <= l < old.here().len() && old.here()[l] == j as usize;
                    assert(old.link_ok_into(old.here()[l] as int, node));
                    assert(old.through_into(back, node) <= old.through_into(old.here()[l] as int, node));
                    if j < back {
                        assert(old.through_into(back, node) < old.through_into(old.here()[l] as int, node));
                    }
                }
            }
        }
    }
    assert forall|m: int|
        0 <= m < new.slots.len() implies -MAX_STEP_COST * (#[trigger] new.slots@[m]).end
        <= new.slots@[m].min_cost <= MAX_STEP_COST * new.slots@[m].end by {
        if m < k {
            assert(new.slots@[m] == old.slots@[m]);
        } else {
            let b = old.slots@[back];
            assert(-MAX_STEP_COST * b.end <= b.min_cost <= MAX_STEP_COST * b.end);
        }
    }
    // The lists.
    assert forall|q: int, i: int|
        0 <= q < new.enodes.len() && 0 <= i < new.enodes@[q].len() implies {
            &&& (#[trigger] new.enodes@[q]@[i] as int) < new.slots.len()
            &&& new.slots@[new.enodes@[q]@[i] as int].end == q
        } by {
        if q == end && i == old.enodes@[q].len() {
        } else {
            assert(new.enodes@[q]@[i] == old.enodes@[q]@[i]);
            assert(old.enodes@[q]@[i] < old.slots.len());
        }
    }
    assert forall|q: int, i: int, l: int|
        0 <= q < new.enodes.len() && 0 <= i < l < new.enodes@[q].len()
            implies #[trigger] new.enodes@[q]@[i] < #[trigger] new.enodes@[q]@[l] by {
        if q == end && l == old.enodes@[q].len() {
            assert(new.enodes@[q]@[i] == old.enodes@[q]@[i]);
            assert(old.enodes@[q]@[i] < old.slots.len());
        } else {
            assert(new.enodes@[q]@[i] == old.enodes@[q]@[i]);
            assert(new.enodes@[q]@[l] == old.enodes@[q]@[l]);
        }
    }
    assert forall|m: int|
        0 <= m < new.slots.len() implies (#[trigger] new.slots@[m].end as int) < new.enodes.len()
        && new.enodes@[new.slots@[m].end as int]@.contains(m as usize) by {
        if m < k {
            assert(new.slots@[m] == old.slots@[m]);
            let q = old.slots@[m].end as int;
            assert(old.enodes@[q]@.contains(m as usize));
            let w = choose|w: int| 0 <= w < old.enodes@[q]@.len() && old.enodes@[q]@[w] == m as usize;
            assert(new.enodes@[q]@[w] == m as usize);
        } else {
            assert(new.enodes@[end]@[old.enodes@[end].len() as int] == k as usize);
        }
    }
    assert forall|q: int, i: int|
        0 <= q < new.snodes.len() && 0 <= i < new.snodes@[q].len() implies {
            &&& (#[trigger] new.snodes@[q]@[i] as int) < new.slots.len()
            &&& new.slots@[new.snodes@[q]@[i] as int].pos == q
        } by {
        if q == p && i == old.snodes@[q].len() {
        } else {
            assert(new.snodes@[q]@[i] == old.snodes@[q]@[i]);
            assert(old.snodes@[q]@[i] < old.slots.len());
        }
    }
    assert forall|m: int|
        0 <= m < new.slots.len() implies (#[trigger] new.slots@[m].pos as int) < new.snodes.len()
        && new.snodes@[new.slots@[m].pos as int]@.contains(m as usize) by {
        if m < k {
            assert(new.slots@[m] == old.slots@[m]);
            let q = old.slots@[m].pos as int;
            assert(old.snodes@[q]@.contains(m as usize));
            let w = choose|w: int| 0 <= w < old.snodes@[q]@.len() && old.snodes@[q]@[w] == m as usize;
            assert(new.snodes@[q]@[w] == m as usize);
        } else {
            assert(new.snodes@[p]@[old.snodes@[p].len() as int] == k as usize);
        }
    }
    assert(new.lists_ok());
    if node is Eos {
        assert forall|m: int| 0 <= m < k implies !(#[trigger] new.slots@[m].node is Eos) by {
            assert(new.slots@[m] == old.slots@[m]);
        }
    } else {
        assert forall|m: int| 0 <= m < new.slots.len() implies !(#[trigger] new.slots@[m].node is Eos) by {
            if m < k {
                assert(new.slots@[m] == old.slots@[m]);
            }
        }
    }
}

} // verus!

verus! {

impl<'a> Lattice<'a> {
    /// Moves the current position to the next one where a node ends, or to the last
    /// position if none does; returns how far it moved.
    pub fn forward(&mut self) -> (adv: usize)
        requires
            old(self).inv(),
            old(self).eos is None,
            old(self).p < old(self).size,
        ensures
            final(self).inv(),
            final(self).eos is None,
            final(self).slots@ == old(self).slots@,
            final(self).snodes@ == old(self).snodes@,
            final(self).enodes@ == old(self).enodes@,
            final(self).size == old(self).size,
            final(self).matrix == old(self).matrix,
            old(self).p < final(self).p <= old(self).size,
            adv == final(self).p - old(self).p,
            final(self).p == old(self).size || old(self).enodes@[final(self).p as int].len() > 0,
            forall|q: int| old(self).p < q < final(self).p ==> (#[trigger] old(self).enodes@[q]).len() == 0,
    {
        let start = self.p;
        let mut q = start + 1;
        while q < self.size && self.enodes[q].len() == 0
            invariant
                start < q <= self.size,
                self.size + 2 == self.enodes.len(),
                forall|m: int| start < m < q ==> (#[trigger] self.enodes@[m]).len() == 0,
            decreases self.size - q,
        {
            q = q + 1;
        }
        let ghost before = *self;
        self.p = q;
        proof {
            assert forall|k: int| 1 <= k < self.slots.len() implies #[trigger] self.slot_ok(k) by {
                assert(before.slot_ok(k));
                assert forall|j: int|
                    0 <= j < self.slots.len() && #[trigger] self.slots@[j].end == self.slots@[k].pos implies {
                        &&& j < k
                        &&& self.link_ok(j, k)
                        &&& self.through(self.slots@[k].back as int, k) <= self.through(j, k)
                        &&& j < self.slots@[k].back ==> self.through(self.slots@[k].back as int, k)
                            < self.through(j, k)
                    } by {
                    assert(before.slots@[j].end == before.slots@[k].pos);
                }
            }
        }
        q - start
    }

    /// Adds the end marker at the current position; fails as [`Lattice::add`] does.
    pub fn end(&mut self) -> (r: Result<(), RunomeError>)
        requires
            old(self).inv(),
            old(self).eos is None,
        ensures
            r is Err <==> old(self).add_error(StartNode::Eos) is Some,
            r matches Err(e) ==> old(self).add_error(StartNode::Eos) == Some(e) && *final(self)
                == *old(self),
            r is Ok ==> final(self).inv() && final(self).eos == Some(old(self).slots.len() as usize)
                && exists|b: usize| Self::added(*old(self), *final(self), StartNode::Eos, b),
    {
        self.add_node(StartNode::Eos)
    }

    /// The slots from the start marker to slot `k`, following each slot's best
    /// predecessor.
    pub open spec fn back_path(&self, k: usize) -> Seq<usize>
        decreases k,
    {
        if k == 0 || k >= self.slots.len() {
            seq![k]
        } else if self.slots@[k as int].back < k {
            self.back_path(self.slots@[k as int].back).push(k)
        } else {
            seq![k]
        }
    }

    fn path_to(&self, k: usize) -> (v: Vec<usize>)
        requires
            self.inv(),
            k < self.slots.len(),
        ensures
            v@ == self.back_path(k),
        decreases k,
    {
        if k == 0 {
            let mut v: Vec<usize> = Vec::new();
            v.push(0);
            v
        } else {
            proof {
                assert(self.slot_ok(k as int));
            }
            let mut v = self.path_to(self.slots[k].back);
            v.push(k);
            v
        }
    }

    /// The best path: the slots from the start marker to the end marker. Fails when
    /// the end marker has not been added.
    pub fn backward(&self) -> (r: Result<Vec<usize>, RunomeError>)
        requires
            self.inv(),
        ensures
            match self.eos {
                Some(e) => r matches Ok(v) && v@ == self.back_path(e),
                None => r == Err::<Vec<usize>, RunomeError>(
                    RunomeError::LatticeDisconnected { position: self.p },
                ),
            },
    {
        match self.eos {
            Some(e) => Ok(self.path_to(e)),
            None => Err(RunomeError::LatticeDisconnected { position: self.p }),
        }
    }

    /// The node in slot `k`.
    pub fn node(&self, k: usize) -> (n: &StartNode<'a>)
        requires
            k < self.slots.len(),
        ensures
            *n == self.slots@[k as int].node,
    {
        &self.slots[k].node
    }

    /// Slot `c[i]` ends where slot `c[i + 1]` starts.
    pub open spec fn linked(&self, c: Seq<usize>, i: int) -> bool {
        self.slots@[c[i] as int].end == self.slots@[c[i + 1] as int].pos
    }

    /// `c` is a path through the lattice from the start marker: each slot ends where
    /// the next starts.
    pub open spec fn is_chain(&self, c: Seq<usize>) -> bool {
        &&& c.len() >= 1
        &&& c[0] == 0
        &&& forall|i: int| 0 <= i < c.len() ==> (#[trigger] c[i] as int) < self.slots.len()
        &&& forall|i: int| 0 <= i < c.len() - 1 ==> #[trigger] self.linked(c, i)
    }

    /// Total cost of the path `c`: its connection costs and the costs of its nodes.
    pub open spec fn chain_cost(&self, c: Seq<usize>) -> int
        decreases c.len(),
    {
        if c.len() <= 1 {
            0
        } else {
            self.chain_cost(c.drop_last()) + self.step_cost(
                c[c.len() - 2] as int,
                c[c.len() - 1] as int,
            )
        }
    }
}

/// No path from the start marker to a slot costs less than the slot's cost.
pub proof fn lemma_chain_cost_bound<'a>(lat: Lattice<'a>, c: Seq<usize>)
    requires
        lat.inv(),
        lat.is_chain(c),
    ensures
        lat.chain_cost(c) >= lat.slots@[c.last() as int].min_cost,
    decreases c.len(),
{
    if c.len() > 1 {
        let d = c.drop_last();
        assert forall|i: int| 0 <= i < d.len() - 1 implies #[trigger] lat.linked(d, i) by {
            assert(lat.linked(c, i));
        }
        assert(d[0] == c[0]);
        assert forall|i: int| 0 <= i < d.len() implies (#[trigger] d[i] as int) < lat.slots.len() by {
            assert(d[i] == c[i]);
        }
        lemma_chain_cost_bound(lat, d);
        let a = c[c.len() - 2] as int;
        let b = c[c.len() - 1] as int;
        assert(lat.linked(c, c.len() - 2));
        assert(lat.slots@[a].end == lat.slots@[b].pos);
        assert(a < lat.slots.len());
        assert(lat.slots@[a].end >= 1) by {
            if a >= 1 {
                assert(lat.slot_ok(a));
            }
        }
        assert(b >= 1);
        assert(lat.slot_ok(b));
        assert(lat.through(lat.slots@[b].back as int, b) <= lat.through(a, b));
    }
}

/// The path that follows best predecessors back from slot `k` is a path from the start
/// marker to `k`, and its cost is the cost of `k`.
pub proof fn lemma_back_path_cost<'a>(lat: Lattice<'a>, k: usize)
    requires
        lat.inv(),
        k < lat.slots.len(),
    ensures
        lat.is_chain(lat.back_path(k)),
        lat.back_path(k).last() == k,
        lat.chain_cost(lat.back_path(k)) == lat.slots@[k as int].min_cost,
    decreases k,
{
    if k > 0 {
        assert(lat.slot_ok(k as int));
        let b = lat.slots@[k as int].back;
        lemma_back_path_cost(lat, b);
        let d = lat.back_path(b);
        let c = lat.back_path(k);
        assert(c == d.push(k));
        assert(c.drop_last() == d);
        assert forall|i: int| 0 <= i < c.len() - 1 implies #[trigger] lat.linked(c, i) by {
            if i < d.len() - 1 {
                assert(lat.linked(d, i));
            }
        }
        assert forall|i: int| 0 <= i < c.len() implies (#[trigger] c[i] as int) < lat.slots.len() by {
            if i < d.len() {
                assert(c[i] == d[i]);
            }
        }
    }
}

/// The path that the lattice gives back from its end marker is a cheapest path: no
/// path from the start marker to the end marker costs less.
pub proof fn lemma_best_path_is_cheapest<'a>(lat: Lattice<'a>, c: Seq<usize>)
    requires
        lat.inv(),
        lat.eos is Some,
        lat.is_chain(c),
        c.last() == lat.eos->0,
    ensures
        lat.is_chain(lat.back_path(lat.eos->0)),
        lat.back_path(lat.eos->0).last() == lat.eos->0,
        lat.chain_cost(lat.back_path(lat.eos->0)) <= lat.chain_cost(c),
{
    lemma_back_path_cost(lat, lat.eos->0);
    lemma_chain_cost_bound(lat, c);
}

} // verus!
