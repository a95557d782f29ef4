use vstd::prelude::*;

use smallvec::SmallVec;

verus! {

/// Identifier of a character category (its rank among the sorted category names).
pub type CategoryId = u16;

/// Number of category ids that a [`CategoryMask`] can hold.
pub const MASK_BITS: usize = 128;

/// `true` when bit `i` of `bits` is set.
pub open spec fn bit_set(bits: u128, i: int) -> bool {
    0 <= i < 128 && (bits >> (i as u128)) & 1u128 == 1u128
}

/// A set of category ids below 128, kept as the bits of one integer.
#[derive(Clone, Copy, Debug, Default, PartialEq, Eq)]
pub struct CategoryMask(pub u128);

proof fn lemma_bit_insert(bits: u128, id: u128, i: u128)
    requires
        id < 128,
        i < 128,
    ensures
        ((bits | (1u128 << id)) >> i) & 1u128 == 1u128 <==> (i == id || (bits >> i) & 1u128
            == 1u128),
{
    assert(((bits | (1u128 << id)) >> i) & 1u128 == 1u128 <==> (i == id || (bits >> i) & 1u128
        == 1u128)) by (bit_vector)
        requires
            id < 128,
            i < 128,
    ;
}

proof fn lemma_bit_single(id: u128, i: u128)
    requires
        id < 128,
        i < 128,
    ensures
        ((bits_and_single(id)) >> i) & 1u128 == 1u128 <==> i == id,
{
    assert(((1u128 << id) >> i) & 1u128 == 1u128 <==> i == id) by (bit_vector)
        requires
            id < 128,
            i < 128,
    ;
}

spec fn bits_and_single(id: u128) -> u128 {
    1u128 << id
}

proof fn lemma_bit_union(a: u128, b: u128, i: u128)
    requires
        i < 128,
    ensures
        ((a | b) >> i) & 1u128 == 1u128 <==> ((a >> i) & 1u128 == 1u128 || (b >> i) & 1u128
            == 1u128),
{
    assert(((a | b) >> i) & 1u128 == 1u128 <==> ((a >> i) & 1u128 == 1u128 || (b >> i) & 1u128
        == 1u128)) by (bit_vector)
        requires
            i < 128,
    ;
}

proof fn lemma_bit_and(a: u128, b: u128, i: u128)
    requires
        i < 128,
    ensures
        ((a & b) >> i) & 1u128 == 1u128 <==> ((a >> i) & 1u128 == 1u128 && (b >> i) & 1u128
            == 1u128),
{
    assert(((a & b) >> i) & 1u128 == 1u128 <==> ((a >> i) & 1u128 == 1u128 && (b >> i) & 1u128
        == 1u128)) by (bit_vector)
        requires
            i < 128,
    ;
}

proof fn lemma_nonzero_has_bit(a: u128, start: u128)
    requires
        start < 128,
        (a >> start) != 0,
    ensures
        exists|i: u128| start <= i < 128 && #[trigger] ((a >> i) & 1u128) == 1u128,
    decreases 128 - start,
{
    if (a >> start) & 1u128 == 1u128 {
        assert(start <= start < 128 && ((a >> start) & 1u128) == 1u128);
    } else if start == 127 {
        assert((a >> 127u128) != 0 ==> (a >> 127u128) & 1u128 == 1u128) by (bit_vector);
    } else {
        let next = (start + 1) as u128;
        assert(start < 127 && next == start + 1 && (a >> start) != 0 && (a >> start) & 1u128
            != 1u128 ==> (a >> next) != 0) by (bit_vector);
        lemma_nonzero_has_bit(a, next);
    }
}

proof fn lemma_zero_iff_no_bits(a: u128)
    ensures
        a == 0 <==> forall|i: u128| i < 128 ==> #[trigger] ((a >> i) & 1u128) != 1u128,
{
    assert(forall|i: u128| i < 128 ==> #[trigger] ((0u128 >> i) & 1u128) != 1u128)
        by (bit_vector);
    if a != 0 {
        assert(a != 0 ==> (a >> 0u128) != 0) by (bit_vector);
        lemma_nonzero_has_bit(a, 0);
    }
}

impl CategoryMask {
    /// The ids in the mask.
    pub open spec fn view(self) -> Set<int> {
        Set::new(|i: int| bit_set(self.0, i))
    }

    /// `true` when `id` is in the mask.
    pub open spec fn has(self, id: int) -> bool {
        bit_set(self.0, id)
    }

    /// The empty mask.
    pub fn empty() -> (m: Self)
        ensures
            m == CategoryMask(0),
            forall|i: int| !m.has(i),
    {
        proof {
            assert forall|i: int| !bit_set(0u128, i) by {
                if 0 <= i < 128 {
                    let k = i as u128;
                    assert((0u128 >> k) & 1u128 == 0u128) by (bit_vector);
                }
            }
        }
        CategoryMask(0)
    }

    /// `true` when no id is in the mask.
    pub fn is_empty(self) -> (b: bool)
        ensures
            b <==> forall|i: int| !self.has(i),
    {
        proof {
            lemma_zero_iff_no_bits(self.0);
            if self.0 != 0 {
                let i = choose|i: u128| i < 128 && ((self.0 >> i) & 1u128) == 1u128;
                assert(self.has(i as int));
            }
        }
        self.0 == 0
    }

    /// Adds `id` to the mask.
    pub fn insert(&mut self, id: CategoryId)
        requires
            (id as usize) < MASK_BITS,
        ensures
            forall|i: int| final(self).has(i) <==> (old(self).has(i) || i == id as int),
    {
        let ghost before = self.0;
        self.0 = self.0 | (1u128 << id);
        proof {
            assert forall|i: int| self.has(i) <==> (bit_set(before, i) || i == id as int) by {
                if 0 <= i < 128 {
                    lemma_bit_insert(before, id as u128, i as u128);
                }
            }
        }
    }

    /// `true` when `id` is in the mask.
    pub fn contains(self, id: CategoryId) -> (b: bool)
        requires
            (id as usize) < MASK_BITS,
        ensures
            b == self.has(id as int),
    {
        proof {
            lemma_bit_and(self.0, 1u128 << (id as u128), id as u128);
            lemma_bit_single(id as u128, id as u128);
            let v = self.0;
            let k = id as u128;
            assert(k < 128 ==> ((v & (1u128 << k)) != 0 <==> ((v >> k) & 1u128 == 1u128)))
                by (bit_vector);
        }
        (self.0 & (1u128 << id)) != 0
    }

    /// The ids in either mask.
    pub fn union(self, other: Self) -> (m: Self)
        ensures
            forall|i: int| m.has(i) <==> (self.has(i) || other.has(i)),
    {
        proof {
            assert forall|i: int| bit_set(self.0 | other.0, i) <==> (self.has(i) || other.has(i)) by {
                if 0 <= i < 128 {
                    lemma_bit_union(self.0, other.0, i as u128);
                }
            }
        }
        CategoryMask(self.0 | other.0)
    }

    /// `true` when the two masks share an id.
    pub fn intersects(self, other: Self) -> (b: bool)
        ensures
            b <==> exists|i: int| self.has(i) && other.has(i),
    {
        let r = self.0 & other.0;
        proof {
            lemma_zero_iff_no_bits(r);
            if r != 0 {
                let i = choose|i: u128| i < 128 && ((r >> i) & 1u128) == 1u128;
                lemma_bit_and(self.0, other.0, i);
                assert(self.has(i as int) && other.has(i as int));
            } else {
                assert forall|i: int| !(self.has(i) && other.has(i)) by {
                    if 0 <= i < 128 {
                        lemma_bit_and(self.0, other.0, i as u128);
                        assert(((r >> (i as u128)) & 1u128) != 1u128);
                    }
                }
            }
        }
        r != 0
    }

    /// The ids in the mask, in ascending order.
    pub fn iter(self) -> (ids: Vec<CategoryId>)
        ensures
            forall|k: int, l: int| 0 <= k < l < ids.len() ==> ids[k] < ids[l],
            forall|k: int| 0 <= k < ids.len() ==> self.has(#[trigger] ids[k] as int),
            forall|i: int| self.has(i) ==> ids@.contains(i as CategoryId),
    {
        let mut ids: Vec<CategoryId> = Vec::new();
        let mut id: u16 = 0;
        while id < 128
            invariant
                id <= 128,
                forall|k: int, l: int| 0 <= k < l < ids.len() ==> ids[k] < ids[l],
                forall|k: int| 0 <= k < ids.len() ==> ids[k] < id,
                forall|k: int| 0 <= k < ids.len() ==> self.has(#[trigger] ids[k] as int),
                forall|i: int| 0 <= i < id && self.has(i) ==> ids@.contains(i as CategoryId),
            decreases 128 - id,
        {
            let ghost before = ids@;
            if self.contains(id) {
                ids.push(id);
            }
            proof {
                assert forall|i: int| 0 <= i < id + 1 && self.has(i) implies ids@.contains(
                    i as CategoryId,
                ) by {
                    if i == id as int {
                        assert(ids@[ids.len() - 1] == id);
                    } else {
                        let k = choose|k: int| 0 <= k < before.len() && before[k] == i as CategoryId;
                        assert(ids@[k] == i as CategoryId);
                    }
                }
            }
            id = id + 1;
        }
        ids
    }
}

} // verus!

verus! {

use crate::error::{RunomeError, ValidationIssue};
use crate::text::{seq_lt, str_eq, str_lt, lemma_seq_lt_total, lemma_seq_lt_transitive, lemma_seq_lt_asymmetric, lemma_seq_lt_irreflexive};
use crate::types::{CharCategory, CharDefinitions, CodeRange};

/// Flags of one category, as used when building unknown words.
#[derive(Debug, Clone, Copy)]
pub struct CategoryFlags {
    pub invoke: bool,
    pub group: bool,
    pub length: u8,
}

/// A code point range with the category id it maps to and the ids compatible with it.
#[derive(Debug, Clone, Copy)]
pub struct CodePointCategory {
    pub start: u32,
    pub end: u32,
    pub primary_id: CategoryId,
    pub compat_mask: CategoryMask,
}

/// The characters of each string.
pub open spec fn views(v: Seq<String>) -> Seq<Seq<char>> {
    v.map_values(|s: String| s@)
}

/// Strictly ascending in code-point order.
pub open spec fn strictly_sorted(s: Seq<Seq<char>>) -> bool {
    forall|i: int, j: int| 0 <= i < j < s.len() ==> seq_lt(#[trigger] s[i], #[trigger] s[j])
}

/// The name of the category that every character without a range falls into.
pub open spec fn default_name() -> Seq<char> {
    seq!['D', 'E', 'F', 'A', 'U', 'L', 'T']
}

/// Number of ranges whose start is at most `cp`.
pub open spec fn count_le(s: Seq<CodePointCategory>, cp: u32) -> nat
    decreases s.len(),
{
    if s.len() == 0 {
        0
    } else {
        count_le(s.drop_last(), cp) + if s.last().start <= cp {
            1nat
        } else {
            0nat
        }
    }
}

/// Ascending by start.
pub open spec fn sorted_by_start(s: Seq<CodePointCategory>) -> bool {
    forall|i: int, j: int| 0 <= i <= j < s.len() ==> (#[trigger] s[i]).start <= (#[trigger] s[j]).start
}

/// Where a range with start `x` goes among ranges sorted by start: after every
/// range whose start is at most `x`.
pub open spec fn insert_position(s: Seq<CodePointCategory>, x: u32) -> int
    decreases s.len(),
{
    if s.len() == 0 {
        0
    } else if s.last().start <= x {
        s.len() as int
    } else {
        insert_position(s.drop_last(), x)
    }
}

/// Stable sort by start (insertion sort).
pub open spec fn sort_by_start(s: Seq<CodePointCategory>) -> Seq<CodePointCategory>
    decreases s.len(),
{
    if s.len() == 0 {
        s
    } else {
        let rest = sort_by_start(s.drop_last());
        rest.insert(insert_position(rest, s.last().start), s.last())
    }
}

/// The (id, compatible ids) pairs of the ranges `j..limit` that reach `cp`, from the
/// highest index down.
pub open spec fn held_matches(s: Seq<CodePointCategory>, cp: u32, j: int, limit: int) -> Seq<
    (CategoryId, CategoryMask),
>
    decreases limit - j,
{
    if j >= limit {
        seq![]
    } else {
        let rest = held_matches(s, cp, j + 1, limit);
        if s[j].end >= cp {
            rest.push((s[j].primary_id, s[j].compat_mask))
        } else {
            rest
        }
    }
}

/// `true` when `i` is the id, or one of the compatible ids, of some match.
pub open spec fn matches_have(ms: Seq<(CategoryId, CategoryMask)>, i: int) -> bool
    decreases ms.len(),
{
    if ms.len() == 0 {
        false
    } else {
        matches_have(ms.drop_last(), i) || ms.last().0 as int == i || ms.last().1.has(i)
    }
}

/// Index of `n` in `names`, when it occurs.
pub open spec fn index_of(names: Seq<Seq<char>>, n: Seq<char>) -> Option<int> {
    if names.contains(n) {
        Some(choose|i: int| 0 <= i < names.len() && names[i] == n)
    } else {
        None
    }
}

/// The ids whose names are among `compat`.
pub open spec fn compat_mask_has(names: Seq<Seq<char>>, compat: Seq<Seq<char>>, i: int) -> bool {
    0 <= i < names.len() && compat.contains(names[i])
}

/// The category record that `defs` gives for `name`.
pub open spec fn category_of(defs: CharDefinitions, name: Seq<char>) -> CharCategory {
    let k = choose|k: int| 0 <= k < defs.categories.len() && defs.categories@[k].0@ == name;
    defs.categories@[k].1
}

/// Lookup tables for character categories: sorted names, flags and code point ranges.
#[derive(Debug, Clone)]
pub struct CategoryIndex {
    pub names: Vec<String>,
    pub flags: Vec<CategoryFlags>,
    pub code_ranges: Vec<CodePointCategory>,
    pub default_id: Option<CategoryId>,
}

impl CategoryIndex {
    /// The category names, by id.
    pub open spec fn names_view(&self) -> Seq<Seq<char>> {
        views(self.names@)
    }

    /// Ids are ranks of distinct sorted names; every range refers to existing ids.
    pub open spec fn wf(&self) -> bool {
        &&& self.names.len() <= MASK_BITS
        &&& self.flags.len() == self.names.len()
        &&& strictly_sorted(self.names_view())
        &&& sorted_by_start(self.code_ranges@)
        &&& forall|k: int|
            0 <= k < self.code_ranges.len() ==> (#[trigger] self.code_ranges@[k]).primary_id
                < self.names.len()
        &&& forall|k: int, i: int|
            #![trigger self.code_ranges@[k].compat_mask.has(i)]
            0 <= k < self.code_ranges.len() && self.code_ranges@[k].compat_mask.has(i) ==> 0 <= i
                < self.names.len()
        &&& match self.default_id {
            Some(d) => d < self.names.len() && self.names_view()[d as int] == default_name(),
            None => !self.names_view().contains(default_name()),
        }
    }

    /// Number of ranges whose start is at most `cp`.
    pub open spec fn limit(&self, cp: u32) -> int {
        count_le(self.code_ranges@, cp) as int
    }

    /// The ranges that hold `cp`, nearest first; the default category when none does.
    pub open spec fn matches_spec(&self, cp: u32) -> Seq<(CategoryId, CategoryMask)> {
        let found = held_matches(self.code_ranges@, cp, 0, self.limit(cp));
        if found.len() == 0 {
            match self.default_id {
                Some(d) => seq![(d, CategoryMask(0))],
                None => seq![],
            }
        } else {
            found
        }
    }

    /// `true` when category `i` is among those of `cp`.
    pub open spec fn mask_has(&self, cp: u32, i: int) -> bool {
        matches_have(self.matches_spec(cp), i)
    }
}

} // verus!

verus! {

/// Inserts `name` into a strictly sorted list of names that does not hold it.
fn insert_sorted_name(names: &mut Vec<String>, name: String)
    requires
        strictly_sorted(views(old(names)@)),
        !views(old(names)@).contains(name@),
    ensures
        strictly_sorted(views(final(names)@)),
        final(names).len() == old(names).len() + 1,
        forall|x: Seq<char>|
            views(final(names)@).contains(x) <==> (views(old(names)@).contains(x) || x == name@),
{
    let ghost old_v = views(names@);
    let mut j: usize = 0;
    while j < names.len() && !str_lt(name.as_str(), names[j].as_str())
        invariant
            j <= names.len(),
            views(names@) == old_v,
            forall|i: int| 0 <= i < j ==> !seq_lt(name@, #[trigger] old_v[i]),
        decreases names.len() - j,
    {
        j = j + 1;
    }
    let ghost before = names@;
    proof {
        assert forall|i: int| 0 <= i < j implies seq_lt(#[trigger] old_v[i], name@) by {
            assert(old_v[i] != name@) by {
                if old_v[i] == name@ {
                    assert(old_v.contains(name@));
                }
            }
            lemma_seq_lt_total(old_v[i], name@);
        }
    }
    names.insert(j, name);
    proof {
        let nv = views(names@);
        assert(nv =~= old_v.insert(j as int, name@));
        assert forall|a: int, b: int| 0 <= a < b < nv.len() implies seq_lt(
            #[trigger] nv[a],
            #[trigger] nv[b],
        ) by {
            if b < j {
            } else if b == j {
            } else if a < j {
                // old_v[a] < name < old_v[j] <= old_v[b - 1]
                assert(seq_lt(old_v[a], name@));
                assert(seq_lt(name@, old_v[j as int]));
                lemma_seq_lt_transitive(old_v[a], name@, old_v[j as int]);
                if b - 1 > j {
                    lemma_seq_lt_transitive(old_v[a], old_v[j as int], old_v[b - 1]);
                }
            } else if a == j {
                assert(seq_lt(name@, old_v[j as int]));
                if b - 1 > j {
                    lemma_seq_lt_transitive(name@, old_v[j as int], old_v[b - 1]);
                }
            } else {
                assert(seq_lt(old_v[a - 1], old_v[b - 1]));
            }
        }
        assert forall|x: Seq<char>| nv.contains(x) <==> (old_v.contains(x) || x == name@) by {
            if nv.contains(x) {
                let k = choose|k: int| 0 <= k < nv.len() && nv[k] == x;
                if k < j {
                    assert(old_v[k] == x);
                } else if k > j {
                    assert(old_v[k - 1] == x);
                }
            }
            if old_v.contains(x) {
                let k = choose|k: int| 0 <= k < old_v.len() && old_v[k] == x;
                if k < j {
                    assert(nv[k] == x);
                } else {
                    assert(nv[k + 1] == x);
                }
            }
            if x == name@ {
                assert(nv[j as int] == x);
            }
        }
    }
}

} // verus!

verus! {

/// `c` is what range `r` becomes once category names are replaced by ids.
pub open spec fn range_matches(names: Seq<Seq<char>>, r: CodeRange, c: CodePointCategory) -> bool {
    &&& c.start == r.from
    &&& c.end == r.to
    &&& index_of(names, r.category@) == Some(c.primary_id as int)
    &&& forall|i: int| c.compat_mask.has(i) <==> compat_mask_has(names, views(r.compat_categories@), i)
}

/// `(c, s)` is what category index `new` builds from the definitions.
pub open spec fn index_built_from(defs: CharDefinitions, idx: CategoryIndex) -> bool {
    &&& idx.wf()
    &&& idx.names.len() == defs.categories.len()
    &&& forall|x: Seq<char>| idx.names_view().contains(x) <==> defs.names().contains(x)
    &&& forall|i: int|
        0 <= i < idx.flags.len() ==> {
            let c = category_of(defs, idx.names_view()[i]);
            &&& (#[trigger] idx.flags@[i]).invoke == c.invoke
            &&& idx.flags@[i].group == c.group
            &&& idx.flags@[i].length == c.length
        }
    &&& exists|mapped: Seq<CodePointCategory>|
        {
            &&& mapped.len() == defs.code_ranges.len()
            &&& forall|k: int|
                0 <= k < mapped.len() ==> range_matches(
                    idx.names_view(),
                    #[trigger] defs.code_ranges@[k],
                    mapped[k],
                )
            &&& idx.code_ranges@ == sort_by_start(mapped)
        }
}

/// What building a category index from `defs` gives: the error for too many
/// categories, the index, or the error for the first range with an undefined category.
pub open spec fn index_new_result(defs: CharDefinitions, r: Result<CategoryIndex, RunomeError>) -> bool {
    &&& defs.categories.len() > MASK_BITS ==> (r matches Err(
                RunomeError::DictValidationError {
                    reason: ValidationIssue::TooManyCategories { count, max },
                },
            ) && count == defs.categories.len() && max == MASK_BITS)
    &&& defs.categories.len() <= MASK_BITS ==> match r {
        Ok(idx) => index_built_from(defs, idx) && forall|k: int|
            0 <= k < defs.code_ranges.len() ==> defs.names().contains(
                (#[trigger] defs.code_ranges@[k]).category@,
            ),
        Err(e) => exists|k: int|
            {
                &&& 0 <= k < defs.code_ranges.len()
                &&& !defs.names().contains(defs.code_ranges@[k].category@)
                &&& forall|k2: int|
                    0 <= k2 < k ==> defs.names().contains(
                        (#[trigger] defs.code_ranges@[k2]).category@,
                    )
                &&& e matches RunomeError::DictValidationError {
                    reason: ValidationIssue::UnknownCategory { name },
                }
                &&& e->reason->name@ == defs.code_ranges@[k].category@
            },
    }
}

/// Position of `name` among `names`, or `None`.
fn find_name(names: &Vec<String>, name: &str) -> (r: Option<CategoryId>)
    requires
        names.len() <= MASK_BITS,
        strictly_sorted(views(names@)),
    ensures
        r == match index_of(views(names@), name@) {
            Some(i) => Some(i as CategoryId),
            None => None::<CategoryId>,
        },
        r matches Some(i) ==> i < names.len() && views(names@)[i as int] == name@,
{
    let ghost v = views(names@);
    let mut i: usize = 0;
    while i < names.len()
        invariant
            names.len() <= MASK_BITS,
            v == views(names@),
            strictly_sorted(v),
            forall|k: int| 0 <= k < i ==> v[k] != name@,
        decreases names.len() - i,
    {
        if str_eq(names[i].as_str(), name) {
            proof {
                assert(v[i as int] == name@);
                assert(v.contains(name@));
                let c = choose|c: int| 0 <= c < v.len() && v[c] == name@;
                if c != i as int {
                    if c < i {
                        assert(seq_lt(v[c], v[i as int]));
                    } else {
                        assert(seq_lt(v[i as int], v[c]));
                    }
                    lemma_seq_lt_irreflexive(name@);
                }
            }
            return Some(i as CategoryId);
        }
        i = i + 1;
    }
    None
}

/// An element is in `s.push(x)` when it is in `s` or is `x`.
pub proof fn lemma_push_contains<A>(s: Seq<A>, x: A, y: A)
    ensures
        s.push(x).contains(y) <==> (s.contains(y) || y == x),
{
    if s.push(x).contains(y) {
        let k = choose|k: int| 0 <= k < s.push(x).len() && s.push(x)[k] == y;
        if k < s.len() {
            assert(s[k] == y);
        }
    }
    if s.contains(y) {
        let k = choose|k: int| 0 <= k < s.len() && s[k] == y;
        assert(s.push(x)[k] == y);
    }
    if y == x {
        assert(s.push(x)[s.len() as int] == y);
    }
}

proof fn lemma_insert_position(s: Seq<CodePointCategory>, x: u32, j: int)
    requires
        sorted_by_start(s),
        0 <= j <= s.len(),
        forall|i: int| 0 <= i < j ==> (#[trigger] s[i]).start <= x,
        j < s.len() ==> s[j].start > x,
    ensures
        insert_position(s, x) == j,
    decreases s.len(),
{
    if s.len() > 0 {
        if s.last().start <= x {
            if j < s.len() {
                assert(s[j].start <= s[s.len() - 1].start);
            }
        } else {
            assert(j < s.len());
            lemma_insert_position(s.drop_last(), x, j);
        }
    }
}

/// Inserts `c` after every range whose start is at most `c.start`.
fn insert_by_start(ranges: &mut Vec<CodePointCategory>, c: CodePointCategory)
    requires
        sorted_by_start(old(ranges)@),
    ensures
        sorted_by_start(final(ranges)@),
        final(ranges)@ == old(ranges)@.insert(insert_position(old(ranges)@, c.start), c),
{
    let mut j: usize = 0;
    while j < ranges.len() && ranges[j].start <= c.start
        invariant
            j <= ranges.len(),
            ranges@ == old(ranges)@,
            forall|i: int| 0 <= i < j ==> (#[trigger] ranges@[i]).start <= c.start,
        decreases ranges.len() - j,
    {
        j = j + 1;
    }
    proof {
        lemma_insert_position(ranges@, c.start, j as int);
    }
    let ghost before = ranges@;
    ranges.insert(j, c);
    proof {
        assert forall|a: int, b: int| 0 <= a <= b < ranges.len() implies (#[trigger] ranges@[a]).start
            <= (#[trigger] ranges@[b]).start by {
            if a < j && b > j {
                assert(before[a].start <= c.start);
            } else if a == j && b > j {
                assert(before[j as int].start > c.start);
                assert(before[j as int].start <= before[b - 1].start);
            } else if a < j && b == j {
            } else if a > j {
                assert(before[a - 1].start <= before[b - 1].start);
            }
        }
    }
}

impl CategoryIndex {
    /// Builds the index: names sorted, ids by rank, ranges sorted by start.
    /// Fails when there are more categories than a mask holds, or when a range names
    /// an undefined category (the first such range is reported).
    pub fn new(defs: &CharDefinitions) -> (r: Result<Self, RunomeError>)
        requires
            defs.wf(),
        ensures
            index_new_result(*defs, r),
    {
        let n = defs.categories.len();
        if n > MASK_BITS {
            return Err(
                RunomeError::DictValidationError {
                    reason: ValidationIssue::TooManyCategories { count: n, max: MASK_BITS },
                },
            );
        }
        // Names, sorted.

        let mut names: Vec<String> = Vec::new();
        let mut k: usize = 0;
        while k < n
            invariant
                n == defs.categories.len(),
                n <= MASK_BITS,
                defs.wf(),
                k <= n,
                names.len() == k,
                strictly_sorted(views(names@)),
                forall|x: Seq<char>|
                    views(names@).contains(x) <==> defs.names().take(k as int).contains(x),
            decreases n - k,
        {
            let name = defs.categories[k].0.clone();
            proof {
                assert(defs.names()[k as int] == name@);
                if views(names@).contains(name@) {
                    let c = choose|c: int| 0 <= c < k && defs.names().take(k as int)[c] == name@;
                    assert(defs.categories@[c].0@ == defs.categories@[k as int].0@);
                }
            }
            insert_sorted_name(&mut names, name);
            proof {
                assert(defs.names().take(k + 1) =~= defs.names().take(k as int).push(
                    defs.names()[k as int],
                ));
                assert forall|x: Seq<char>| views(names@).contains(x) <==> defs.names().take(
                    k + 1,
                ).contains(x) by {
                    lemma_push_contains(defs.names().take(k as int), defs.names()[k as int], x);
                }
            }
            k = k + 1;
        }
        proof {
            assert(defs.names().take(n as int) =~= defs.names());
        }
        // Flags and the default category.

        let mut flags: Vec<CategoryFlags> = Vec::new();
        let mut default_id: Option<CategoryId> = None;
        let mut idx: usize = 0;
        while idx < n
            invariant
                n == defs.categories.len(),
                n <= MASK_BITS,
                defs.wf(),
                names.len() == n,
                idx <= n,
                flags.len() == idx,
                strictly_sorted(views(names@)),
                forall|x: Seq<char>| views(names@).contains(x) <==> defs.names().contains(x),
                forall|i: int|
                    0 <= i < idx ==> {
                        let c = category_of(*defs, views(names@)[i]);
                        &&& (#[trigger] flags@[i]).invoke == c.invoke
                        &&& flags@[i].group == c.group
                        &&& flags@[i].length == c.length
                    },
                match default_id {
                    Some(d) => d < idx && views(names@)[d as int] == default_name(),
                    None => forall|i: int| 0 <= i < idx ==> views(names@)[i] != default_name(),
                },
            decreases n - idx,
        {
            // Find the definition that carries this name.
            let ghost target = views(names@)[idx as int];
            proof {
                assert(views(names@).contains(target));
                assert(defs.names().contains(target));
            }
            let mut c: usize = 0;
            while !str_eq(defs.categories[c].0.as_str(), names[idx].as_str())
                invariant
                    n == defs.categories.len(),
                    idx < n,
                    names.len() == n,
                    c < n,
                    target == views(names@)[idx as int],
                    defs.names().contains(target),
                    forall|c2: int| 0 <= c2 < c ==> defs.names()[c2] != target,
                decreases n - c,
            {
                proof {
                    assert(defs.names()[c as int] != target);
                    let w = choose|w: int| 0 <= w < defs.names().len() && defs.names()[w] == target;
                    assert(w > c);
                }
                c = c + 1;
            }
            let cat = defs.categories[c].1;
            proof {
                assert(defs.categories@[c as int].0@ == target);
                let kk = choose|kk: int|
                    0 <= kk < defs.categories.len() && defs.categories@[kk].0@ == target;
                if kk < c as int {
                    assert(defs.categories@[kk].0@ != defs.categories@[c as int].0@);
                } else if kk > c as int {
                    assert(defs.categories@[c as int].0@ != defs.categories@[kk].0@);
                }
                assert(category_of(*defs, target) == cat);
            }
            flags.push(CategoryFlags { invoke: cat.invoke, group: cat.group, length: cat.length });
            proof {
                reveal_strlit("DEFAULT");
                assert("DEFAULT"@ =~= default_name());
            }
            if str_eq(names[idx].as_str(), "DEFAULT") {
                default_id = Some(idx as CategoryId);
            }
            idx = idx + 1;
        }
        proof {
            if default_id is None {
                assert(!views(names@).contains(default_name()));
            }
        }
        // Code ranges, ids resolved.

        let ghost nv = views(names@);
        let mut mapped: Vec<CodePointCategory> = Vec::new();
        let mut ri: usize = 0;
        while ri < defs.code_ranges.len()
            invariant
                defs.categories.len() <= MASK_BITS,
                names.len() <= MASK_BITS,
                nv == views(names@),
                strictly_sorted(nv),
                forall|x: Seq<char>| nv.contains(x) <==> defs.names().contains(x),
                ri <= defs.code_ranges.len(),
                mapped.len() == ri,
                forall|k2: int|
                    0 <= k2 < ri ==> defs.names().contains(
                        (#[trigger] defs.code_ranges@[k2]).category@,
                    ),
                forall|k2: int|
                    0 <= k2 < ri ==> range_matches(nv, #[trigger] defs.code_ranges@[k2], mapped@[k2]),
                forall|k2: int| 0 <= k2 < ri ==> (#[trigger] mapped@[k2]).primary_id < names.len(),
                forall|k2: int, i: int|
                    #![trigger mapped@[k2].compat_mask.has(i)]
                    0 <= k2 < ri && mapped@[k2].compat_mask.has(i) ==> 0 <= i < names.len(),
            decreases defs.code_ranges.len() - ri,
        {
            let range = &defs.code_ranges[ri];
            let primary_id = match find_name(&names, range.category.as_str()) {
                Some(id) => id,
                None => {
                    return Err(
                        RunomeError::DictValidationError {
                            reason: ValidationIssue::UnknownCategory {
                                name: range.category.clone(),
                            },
                        },
                    );
                },
            };
            let mut compat_mask = CategoryMask::empty();
            let mut ci: usize = 0;
            while ci < range.compat_categories.len()
                invariant
                    names.len() <= MASK_BITS,
                    nv == views(names@),
                    strictly_sorted(nv),
                    ci <= range.compat_categories.len(),
                    forall|i: int|
                        compat_mask.has(i) <==> compat_mask_has(
                            nv,
                            views(range.compat_categories@).take(ci as int),
                            i,
                        ),
                decreases range.compat_categories.len() - ci,
            {
                let found = find_name(&names, range.compat_categories[ci].as_str());
                let ghost cv = views(range.compat_categories@);
                proof {
                    assert(cv.take(ci + 1) =~= cv.take(ci as int).push(cv[ci as int]));
                }
                match found {
                    Some(id) => {
                        compat_mask.insert(id);
                        proof {
                            assert forall|i: int| compat_mask.has(i) <==> compat_mask_has(
                                nv,
                                cv.take(ci + 1),
                                i,
                            ) by {
                                if 0 <= i < nv.len() {
                                    lemma_push_contains(cv.take(ci as int), cv[ci as int], nv[i]);
                                }
                                if 0 <= i < nv.len() && nv[i] == cv[ci as int] && i != id as int {
                                    if i < id {
                                        assert(seq_lt(nv[i], nv[id as int]));
                                    } else {
                                        assert(seq_lt(nv[id as int], nv[i]));
                                    }
                                    lemma_seq_lt_irreflexive(nv[i]);
                                }
                            }
                        }
                    },
                    None => {
                        proof {
                            assert forall|i: int| compat_mask.has(i) <==> compat_mask_has(
                                nv,
                                cv.take(ci + 1),
                                i,
                            ) by {
                                if 0 <= i < nv.len() {
                                    lemma_push_contains(cv.take(ci as int), cv[ci as int], nv[i]);
                                    if nv[i] == cv[ci as int] {
                                        assert(nv.contains(cv[ci as int]));
                                    }
                                }
                            }
                        }
                    },
                }
                ci = ci + 1;
            }
            proof {
                assert(views(range.compat_categories@).take(
                    range.compat_categories.len() as int,
                ) =~= views(range.compat_categories@));
                assert(nv.contains(range.category@));
            }
            mapped.push(
                CodePointCategory {
                    start: range.from,
                    end: range.to,
                    primary_id,
                    compat_mask,
                },
            );
            ri = ri + 1;
        }
        // Ranges sorted by start, stably.

        let mut code_ranges: Vec<CodePointCategory> = Vec::new();
        let mut si: usize = 0;
        while si < mapped.len()
            invariant
                si <= mapped.len(),
                sorted_by_start(code_ranges@),
                code_ranges@ == sort_by_start(mapped@.take(si as int)),
            decreases mapped.len() - si,
        {
            proof {
                assert(mapped@.take(si + 1).drop_last() =~= mapped@.take(si as int));
            }
            insert_by_start(&mut code_ranges, mapped[si]);
            si = si + 1;
        }
        proof {
            assert(mapped@.take(mapped.len() as int) =~= mapped@);
            assert forall|k2: int| 0 <= k2 < code_ranges.len() implies (
            #[trigger] code_ranges@[k2]).primary_id < names.len() && forall|i: int|
                code_ranges@[k2].compat_mask.has(i) ==> 0 <= i < names.len() by {
                lemma_sort_members(mapped@, k2);
            }
        }
        let idx = CategoryIndex { names, flags, code_ranges, default_id };
        proof {
            assert(index_built_from(*defs, idx));
        }
        Ok(idx)
    }
}

/// Every element of the sorted sequence comes from the input.
proof fn lemma_sort_members(s: Seq<CodePointCategory>, k: int)
    requires
        0 <= k < sort_by_start(s).len(),
    ensures
        sort_by_start(s).len() == s.len(),
        exists|m: int| 0 <= m < s.len() && s[m] == sort_by_start(s)[k],
    decreases s.len(),
{
    lemma_sort_len(s);
    let rest = sort_by_start(s.drop_last());
    let pos = insert_position(rest, s.last().start);
    lemma_insert_position_bounds(rest, s.last().start);
    if k == pos {
        assert(s[s.len() - 1] == sort_by_start(s)[k]);
    } else {
        let k2 = if k < pos { k } else { k - 1 };
        lemma_sort_members(s.drop_last(), k2);
        let m = choose|m: int| 0 <= m < s.drop_last().len() && s.drop_last()[m] == rest[k2];
        assert(s[m] == sort_by_start(s)[k]);
    }
}

proof fn lemma_sort_len(s: Seq<CodePointCategory>)
    ensures
        sort_by_start(s).len() == s.len(),
    decreases s.len(),
{
    if s.len() > 0 {
        lemma_sort_len(s.drop_last());
        lemma_insert_position_bounds(sort_by_start(s.drop_last()), s.last().start);
    }
}

proof fn lemma_insert_position_bounds(s: Seq<CodePointCategory>, x: u32)
    ensures
        0 <= insert_position(s, x) <= s.len(),
    decreases s.len(),
{
    if s.len() > 0 {
        lemma_insert_position_bounds(s.drop_last(), x);
    }
}

} // verus!

verus! {

/// Mask of a match list, extended by one match.
proof fn lemma_mask_step(
    before: CategoryMask,
    after: CategoryMask,
    prev: Seq<(CategoryId, CategoryMask)>,
    x: (CategoryId, CategoryMask),
)
    requires
        forall|i: int| before.has(i) <==> matches_have(prev, i),
        forall|i: int| after.has(i) <==> (before.has(i) || i == x.0 as int || x.1.has(i)),
    ensures
        forall|i: int| after.has(i) <==> matches_have(prev.push(x), i),
{
    assert(prev.push(x).drop_last() =~= prev);
}

proof fn lemma_count_le(s: Seq<CodePointCategory>, cp: u32, p: int)
    requires
        sorted_by_start(s),
        0 <= p <= s.len(),
        forall|i: int| 0 <= i < p ==> (#[trigger] s[i]).start <= cp,
        forall|i: int| p <= i < s.len() ==> (#[trigger] s[i]).start > cp,
    ensures
        count_le(s, cp) == p,
    decreases s.len(),
{
    if s.len() > 0 {
        if s.last().start <= cp {
            if p < s.len() {
                assert(s[p].start <= s[s.len() - 1].start);
            }
            lemma_count_le(s.drop_last(), cp, p - 1);
        } else {
            lemma_count_le(s.drop_last(), cp, p);
        }
    }
}

impl CategoryIndex {
    /// Number of categories.
    pub fn len(&self) -> (n: usize)
        ensures
            n == self.names.len(),
    {
        self.names.len()
    }

    /// Id of the category called `name`.
    pub fn category_id(&self, name: &str) -> (r: Option<CategoryId>)
        requires
            self.wf(),
        ensures
            r == match index_of(self.names_view(), name@) {
                Some(i) => Some(i as CategoryId),
                None => None::<CategoryId>,
            },
            r matches Some(i) ==> i < self.names.len() && self.names_view()[i as int] == name@,
    {
        find_name(&self.names, name)
    }

    /// Name of category `id`.
    pub fn category_name(&self, id: CategoryId) -> (s: &str)
        requires
            (id as int) < self.names.len(),
        ensures
            s@ == self.names_view()[id as int],
    {
        self.names[id as usize].as_str()
    }

    /// Flags of category `id`.
    pub fn flags(&self, id: CategoryId) -> (f: CategoryFlags)
        requires
            (id as int) < self.flags.len(),
        ensures
            f == self.flags@[id as int],
    {
        self.flags[id as usize]
    }

    /// Number of code ranges whose start is at most `cp`.
    fn partition_point(&self, cp: u32) -> (p: usize)
        requires
            self.wf(),
        ensures
            p == self.limit(cp),
            p <= self.code_ranges.len(),
    {
        let mut lo: usize = 0;
        let mut hi: usize = self.code_ranges.len();
        while lo < hi
            invariant
                self.wf(),
                lo <= hi <= self.code_ranges.len(),
                forall|i: int| 0 <= i < lo ==> (#[trigger] self.code_ranges@[i]).start <= cp,
                forall|i: int|
                    hi <= i < self.code_ranges.len() ==> (#[trigger] self.code_ranges@[i]).start
                        > cp,
            decreases hi - lo,
        {
            let mid = lo + (hi - lo) / 2;
            if self.code_ranges[mid].start <= cp {
                proof {
                    assert forall|i: int| 0 <= i <= mid implies (
                    #[trigger] self.code_ranges@[i]).start <= cp by {
                        assert(self.code_ranges@[i].start <= self.code_ranges@[mid as int].start);
                    }
                }
                lo = mid + 1;
            } else {
                proof {
                    assert forall|i: int| mid <= i < self.code_ranges.len() implies (
                    #[trigger] self.code_ranges@[i]).start > cp by {
                        assert(self.code_ranges@[mid as int].start <= self.code_ranges@[i].start);
                    }
                }
                hi = mid;
            }
        }
        proof {
            lemma_count_le(self.code_ranges@, cp, lo as int);
        }
        lo
    }

    /// All categories of `ch`: those of every range that holds it, with their
    /// compatible categories, or the default category when no range holds it.
    pub fn category_mask_for_char(&self, ch: char) -> (m: CategoryMask)
        requires
            self.wf(),
        ensures
            forall|i: int| m.has(i) <==> self.mask_has(ch as u32, i),
            forall|i: int|
                m.has(i) <==> if some_range_holds(self.code_ranges@, ch as u32) {
                    held_category(self.code_ranges@, ch as u32, i)
                } else {
                    match self.default_id {
                        Some(d) => d as int == i,
                        None => false,
                    }
                },
            forall|i: int| m.has(i) ==> 0 <= i < self.names.len(),
    {
        let cp = ch as u32;
        let mut mask = CategoryMask::empty();
        let limit = self.partition_point(cp);
        let start_idx: usize = 0;
        let ghost s = self.code_ranges@;
        let mut j = limit;
        while j > start_idx
            invariant
                self.wf(),
                s == self.code_ranges@,
                start_idx <= j <= limit <= s.len(),
                forall|i: int| mask.has(i) <==> matches_have(held_matches(s, cp, j as int, limit as int), i),
                forall|i: int| mask.has(i) ==> 0 <= i < self.names.len(),
            decreases j,
        {
            let ghost prev = held_matches(s, cp, j as int, limit as int);
            j = j - 1;
            let entry = self.code_ranges[j];
            let ghost now = held_matches(s, cp, j as int, limit as int);
            if entry.end >= cp {
                let ghost before = mask;
                mask.insert(entry.primary_id);
                mask = mask.union(entry.compat_mask);
                proof {
                    assert(now == prev.push((entry.primary_id, entry.compat_mask)));
                    lemma_mask_step(before, mask, prev, (entry.primary_id, entry.compat_mask));
                }
            } else {
                proof {
                    assert(now == prev);
                }
            }
        }
        let ghost found = held_matches(s, cp, start_idx as int, limit as int);
        if mask.is_empty() {
            proof {
                if found.len() > 0 {
                    assert(found.drop_last().push(found.last()) =~= found);
                    assert(matches_have(found, found.last().0 as int));
                    assert(mask.has(found.last().0 as int));
                }
            }
            if let Some(default_id) = self.default_id {
                mask.insert(default_id);
                proof {
                    let ms = self.matches_spec(cp);
                    assert(ms == seq![(default_id, CategoryMask(0))]);
                    assert(ms.drop_last() =~= Seq::<(CategoryId, CategoryMask)>::empty());
                    assert forall|i: int| mask.has(i) <==> self.mask_has(cp, i) by {
                        assert(!CategoryMask(0).has(i)) by {
                            if 0 <= i < 128 {
                                let ii = i as u128;
                                assert((0u128 >> ii) & 1u128 == 0u128) by (bit_vector);
                            }
                        }
                        assert(!matches_have(ms.drop_last(), i));
                        assert(ms.last() == (default_id, CategoryMask(0)));
                    }
                }
            } else {
                proof {
                    assert(self.matches_spec(cp).len() == 0);
                }
            }
        } else {
            proof {
                assert(self.matches_spec(cp) == found);
            }
        }
        proof {
            assert forall|i: int|
                mask.has(i) <==> if some_range_holds(self.code_ranges@, cp) {
                    held_category(self.code_ranges@, cp, i)
                } else {
                    match self.default_id {
                        Some(d) => d as int == i,
                        None => false,
                    }
                } by {
                lemma_mask_has_ranges(*self, cp, i);
            }
        }
        mask
    }

    /// The ranges that hold `ch`, nearest first, each with its compatible categories;
    /// the default category when none does.
    pub fn matches(&self, ch: char) -> (r: Vec<(CategoryId, CategoryMask)>)
        requires
            self.wf(),
        ensures
            r@ == self.matches_spec(ch as u32),
    {
        let cp = ch as u32;
        let mut found: Vec<(CategoryId, CategoryMask)> = Vec::new();
        let limit = self.partition_point(cp);
        let start_idx: usize = 0;
        let ghost s = self.code_ranges@;
        let mut j = limit;
        while j > start_idx
            invariant
                s == self.code_ranges@,
                start_idx <= j <= limit <= s.len(),
                found@ == held_matches(s, cp, j as int, limit as int),
            decreases j,
        {
            j = j - 1;
            let entry = self.code_ranges[j];
            if entry.end >= cp {
                found.push((entry.primary_id, entry.compat_mask));
            }
        }
        if found.len() == 0 {
            if let Some(default_id) = self.default_id {
                found.push((default_id, CategoryMask::empty()));
                proof {
                    assert(found@ =~= seq![(default_id, CategoryMask(0))]);
                }
            }
        }
        found
    }

    /// The ids of all categories of `ch`, ascending.
    pub fn category_ids_for_char(&self, ch: char) -> (ids: CategoryIds)
        requires
            self.wf(),
        ensures
            forall|k: int, l: int|
                0 <= k < l < category_id_items(ids).len() ==> category_id_items(ids)[k]
                    < category_id_items(ids)[l],
            forall|k: int|
                0 <= k < category_id_items(ids).len() ==> (#[trigger] category_id_items(ids)[k] as int)
                    < self.names.len(),
            forall|i: int|
                #![trigger self.mask_has(ch as u32, i)]
                self.mask_has(ch as u32, i) <==> category_id_items(ids).contains(i as CategoryId) && 0
                    <= i < 128,
    {
        let m = self.category_mask_for_char(ch);
        let all = m.iter();
        let mut ids = small_ids_new();
        let mut k: usize = 0;
        while k < all.len()
            invariant
                k <= all.len(),
                category_id_items(ids) == all@.take(k as int),
            decreases all.len() - k,
        {
            small_ids_push(&mut ids, all[k]);
            k = k + 1;
            proof {
                assert(category_id_items(ids) =~= all@.take(k as int));
            }
        }
        proof {
            assert(all@.take(all.len() as int) =~= all@);
            assert forall|i: int|
                #![trigger self.mask_has(ch as u32, i)]
                self.mask_has(ch as u32, i) <==> all@.contains(i as CategoryId) && 0 <= i < 128 by {
                if all@.contains(i as CategoryId) && 0 <= i < 128 {
                    let j = choose|j: int| 0 <= j < all.len() && all@[j] == i as CategoryId;
                    assert(m.has(all@[j] as int));
                    assert(all@[j] as int == i);
                }
                if self.mask_has(ch as u32, i) {
                    assert(m.has(i));
                    assert(0 <= i < 128);
                }
            }
        }
        ids
    }
}

/// Category ids kept inline up to eight, as a `smallvec::SmallVec`.
#[verifier::external_body]
pub struct CategoryIds {
    ids: SmallVec<[CategoryId; 8]>,
}

/// The ids held, in order.
pub uninterp spec fn category_id_items(v: CategoryIds) -> Seq<CategoryId>;

/// `SmallVec::new`: an empty vector.
#[verifier::external_body]
fn small_ids_new() -> (v: CategoryIds)
    ensures
        category_id_items(v) == Seq::<CategoryId>::empty(),
{
    CategoryIds { ids: SmallVec::new() }
}

/// `SmallVec::push`: appends `id`; it panics only when the length would overflow.
#[verifier::external_body]
fn small_ids_push(v: &mut CategoryIds, id: CategoryId)
    requires
        category_id_items(*old(v)).len() < usize::MAX,
    ensures
        category_id_items(*final(v)) == category_id_items(*old(v)).push(id),
{
    v.ids.push(id);
}

/// `SmallVec::as_slice`: the items, in order.
#[verifier::external_body]
pub(crate) fn small_ids_as_slice(v: &CategoryIds) -> (s: &[CategoryId])
    ensures
        s@ == category_id_items(*v),
{
    v.ids.as_slice()
}

} // verus!

verus! {

/// At most all ranges start at or before `cp`.
pub proof fn lemma_count_le_bound(s: Seq<CodePointCategory>, cp: u32)
    ensures
        count_le(s, cp) <= s.len(),
    decreases s.len(),
{
    if s.len() > 0 {
        lemma_count_le_bound(s.drop_last(), cp);
    }
}

/// In a well-formed index, looking up the name of category `i` gives `i`, and the
/// category found for a name carries that name.
pub proof fn lemma_id_name_round_trip(idx: CategoryIndex, i: int, name: Seq<char>)
    requires
        idx.wf(),
    ensures
        0 <= i < idx.names.len() ==> index_of(idx.names_view(), idx.names_view()[i]) == Some(i),
        index_of(idx.names_view(), name) matches Some(j) ==> 0 <= j < idx.names.len() && idx.names_view()[j]
            == name,
{
    let nv = idx.names_view();
    if 0 <= i < idx.names.len() {
        assert(nv.contains(nv[i]));
        let j = choose|j: int| 0 <= j < nv.len() && nv[j] == nv[i];
        if j < i {
            assert(seq_lt(nv[j], nv[i]));
            lemma_seq_lt_irreflexive(nv[i]);
        }
        if i < j {
            assert(seq_lt(nv[i], nv[j]));
            lemma_seq_lt_irreflexive(nv[i]);
        }
    }
}

/// Range `k` of `s` holds code point `cp`.
pub open spec fn range_holds(s: Seq<CodePointCategory>, k: int, cp: u32) -> bool {
    0 <= k < s.len() && s[k].start <= cp && cp <= s[k].end
}

/// Some range of `s` holds code point `cp`.
pub open spec fn some_range_holds(s: Seq<CodePointCategory>, cp: u32) -> bool {
    exists|k: int| #[trigger] range_holds(s, k, cp)
}

/// Category `i` is the category, or a compatible one, of some range of `s` that
/// holds code point `cp`.
pub open spec fn held_category(s: Seq<CodePointCategory>, cp: u32, i: int) -> bool {
    exists|k: int| #[trigger] range_holds(s, k, cp) && (s[k].primary_id as int == i || s[k].compat_mask.has(i))
}

/// Range `k` reaches `cp` and gives category `i`.
spec fn reach_gives(s: Seq<CodePointCategory>, cp: u32, k: int, i: int) -> bool {
    s[k].end >= cp && (s[k].primary_id as int == i || s[k].compat_mask.has(i))
}

/// What the matches of the ranges `j..limit` hold.
proof fn lemma_held_matches_have(s: Seq<CodePointCategory>, cp: u32, j: int, limit: int)
    requires
        0 <= j <= limit <= s.len(),
    ensures
        forall|i: int|
            matches_have(held_matches(s, cp, j, limit), i) <==> exists|k: int|
                j <= k < limit && #[trigger] reach_gives(s, cp, k, i),
        held_matches(s, cp, j, limit).len() > 0 <==> exists|k: int| j <= k < limit && #[trigger] s[k].end >= cp,
    decreases limit - j,
{
    if j < limit {
        lemma_held_matches_have(s, cp, j + 1, limit);
        let rest = held_matches(s, cp, j + 1, limit);
        if s[j].end >= cp {
            let x = (s[j].primary_id, s[j].compat_mask);
            assert(rest.push(x).drop_last() =~= rest);
            assert forall|i: int|
                matches_have(held_matches(s, cp, j, limit), i) <==> exists|k: int|
                    j <= k < limit && #[trigger] reach_gives(s, cp, k, i) by {
                if matches_have(held_matches(s, cp, j, limit), i) && !matches_have(rest, i) {
                    assert(reach_gives(s, cp, j, i));
                }
                if exists|k: int| j <= k < limit && #[trigger] reach_gives(s, cp, k, i) {
                    let k = choose|k: int| j <= k < limit && #[trigger] reach_gives(s, cp, k, i);
                    if k > j {
                        assert(matches_have(rest, i));
                    }
                }
            }
        } else {
            assert forall|i: int|
                matches_have(held_matches(s, cp, j, limit), i) <==> exists|k: int|
                    j <= k < limit && #[trigger] reach_gives(s, cp, k, i) by {
                if exists|k: int| j <= k < limit && #[trigger] reach_gives(s, cp, k, i) {
                    let k = choose|k: int| j <= k < limit && #[trigger] reach_gives(s, cp, k, i);
                    assert(k != j);
                }
            }
            if exists|k: int| j <= k < limit && #[trigger] s[k].end >= cp {
                let k = choose|k: int| j <= k < limit && #[trigger] s[k].end >= cp;
                assert(k != j);
            }
        }
    }
}

/// In ranges sorted by start, the first `count_le` ranges are those that start at or
/// before `cp`.
proof fn lemma_count_le_split(s: Seq<CodePointCategory>, cp: u32)
    requires
        sorted_by_start(s),
    ensures
        count_le(s, cp) <= s.len(),
        forall|k: int| 0 <= k < s.len() ==> (k < count_le(s, cp) <==> (#[trigger] s[k]).start <= cp),
    decreases s.len(),
{
    if s.len() > 0 {
        let t = s.drop_last();
        assert(sorted_by_start(t)) by {
            assert forall|i: int, j: int| 0 <= i <= j < t.len() implies (#[trigger] t[i]).start <= (
            #[trigger] t[j]).start by {
                assert(t[i] == s[i] && t[j] == s[j]);
            }
        }
        lemma_count_le_split(t, cp);
        let n = s.len() - 1;
        if s[n].start <= cp {
            if count_le(t, cp) < n {
                let k = count_le(t, cp) as int;
                assert(s[k].start <= s[n].start);
                assert(t[k] == s[k]);
                assert(t[k].start <= cp);
            }
        }
        assert forall|k: int| 0 <= k < s.len() implies (k < count_le(s, cp) <==> (#[trigger] s[k]).start <= cp) by {
            if k < n {
                assert(t[k] == s[k]);
            }
        }
    }
}

/// The categories of a code point in a well-formed index: those of every range that
/// holds it, with their compatible categories; the default category when no range
/// holds it.
pub proof fn lemma_mask_has_ranges(idx: CategoryIndex, cp: u32, i: int)
    requires
        idx.wf(),
    ensures
        idx.mask_has(cp, i) == if some_range_holds(idx.code_ranges@, cp) {
            held_category(idx.code_ranges@, cp, i)
        } else {
            match idx.default_id {
                Some(d) => d as int == i,
                None => false,
            }
        },
{
    let s = idx.code_ranges@;
    let limit = idx.limit(cp);
    lemma_count_le_split(s, cp);
    lemma_held_matches_have(s, cp, 0, limit);
    let found = held_matches(s, cp, 0, limit);
    assert(found.len() > 0 <==> some_range_holds(s, cp)) by {
        if found.len() > 0 {
            let k = choose|k: int| 0 <= k < limit && #[trigger] s[k].end >= cp;
            assert(range_holds(s, k, cp));
        }
        if some_range_holds(s, cp) {
            let k = choose|k: int| #[trigger] range_holds(s, k, cp);
            assert(s[k].start <= cp);
            assert(0 <= k < limit && s[k].end >= cp);
        }
    }
    if found.len() > 0 {
        assert(idx.matches_spec(cp) == found);
        if matches_have(found, i) {
            let k = choose|k: int| 0 <= k < limit && #[trigger] reach_gives(s, cp, k, i);
            assert(range_holds(s, k, cp));
        }
        if held_category(s, cp, i) {
            let k = choose|k: int| #[trigger] range_holds(s, k, cp) && (s[k].primary_id as int == i || s[k].compat_mask.has(i));
            assert(s[k].start <= cp);
            assert(reach_gives(s, cp, k, i));
            assert(matches_have(found, i));
        }
        assert(idx.mask_has(cp, i) == held_category(s, cp, i));
    } else {
        match idx.default_id {
            Some(d) => {
                let ms = seq![(d, CategoryMask(0))];
                assert(ms.drop_last() =~= Seq::<(CategoryId, CategoryMask)>::empty());
                assert(!CategoryMask(0).has(i)) by {
                    if 0 <= i < 128 {
                        let ii = i as u128;
                        assert((0u128 >> ii) & 1u128 == 0u128) by (bit_vector);
                    }
                }
                assert(idx.matches_spec(cp) == ms);
                assert(ms.last() == (d, CategoryMask(0)));
                assert(!matches_have(ms.drop_last(), i));
                assert(idx.mask_has(cp, i) == (d as int == i));
            },
            None => {
                assert(idx.matches_spec(cp).len() == 0);
            },
        }
    }
}

/// Every id in the matches of a well-formed index names a category.
pub proof fn lemma_held_matches_ids(idx: CategoryIndex, cp: u32, j: int, limit: int, k: int)
    requires
        idx.wf(),
        0 <= j,
        limit <= idx.code_ranges.len(),
        0 <= k < held_matches(idx.code_ranges@, cp, j, limit).len(),
    ensures
        (held_matches(idx.code_ranges@, cp, j, limit)[k].0 as int) < idx.names.len(),
    decreases limit - j,
{
    let rest = held_matches(idx.code_ranges@, cp, j + 1, limit);
    if j < limit {
        if k < rest.len() {
            lemma_held_matches_ids(idx, cp, j + 1, limit, k);
        } else {
            assert(idx.code_ranges@[j].primary_id < idx.names.len());
        }
    }
}

} // verus!
