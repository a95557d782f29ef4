use vstd::prelude::*;

use crate::category::{
    category_of, default_name, index_built_from, index_new_result, index_of, views, CategoryFlags, CategoryId,
    CategoryIndex, CategoryMask,
};
use crate::connection::{ConnectionMatrix, ConnectionMatrixView, PackedConnectionMatrix};
use crate::error::{RunomeError, ValidationIssue};
use crate::morpheme_index::{MorphemeIndex, MorphemeIndexView};
use crate::text::str_eq;
use crate::types::{CharCategory, CharDefinitions, DictEntry, UnknownEntries, UnknownEntry};

verus! {

/// Same ids, cost and part of speech.
pub open spec fn same_unknown(a: UnknownEntry, b: UnknownEntry) -> bool {
    a.left_id == b.left_id && a.right_id == b.right_id && a.cost == b.cost && a.part_of_speech@
        == b.part_of_speech@
}

/// Element by element the same unknown entries.
pub open spec fn same_unknown_list(a: Seq<UnknownEntry>, b: Seq<UnknownEntry>) -> bool {
    a.len() == b.len() && forall|i: int| 0 <= i < a.len() ==> same_unknown(#[trigger] a[i], b[i])
}

/// The names of the unknown entry lists.
pub open spec fn unknown_names(u: Seq<(String, Vec<UnknownEntry>)>) -> Seq<Seq<char>> {
    u.map_values(|p: (String, Vec<UnknownEntry>)| p.0@)
}

/// No name occurs twice among the unknown entry lists.
pub open spec fn unknowns_wf(u: Seq<(String, Vec<UnknownEntry>)>) -> bool {
    forall|i: int, j: int| 0 <= i < j < u.len() ==> #[trigger] u[i].0@ != #[trigger] u[j].0@
}

/// The unknown entries listed under `name`, or none.
pub open spec fn unknowns_for(u: Seq<(String, Vec<UnknownEntry>)>, name: Seq<char>) -> Seq<UnknownEntry> {
    match index_of(unknown_names(u), name) {
        Some(k) => u[k].1@,
        None => seq![],
    }
}

/// Copies a list of unknown entries.
fn clone_unknown_list(v: &Vec<UnknownEntry>) -> (r: Vec<UnknownEntry>)
    ensures
        same_unknown_list(r@, v@),
{
    let mut r: Vec<UnknownEntry> = Vec::new();
    let mut i: usize = 0;
    while i < v.len()
        invariant
            i <= v.len(),
            r.len() == i,
            forall|k: int| 0 <= k < i ==> same_unknown(#[trigger] r@[k], v@[k]),
        decreases v.len() - i,
    {
        let e = &v[i];
        r.push(
            UnknownEntry {
                left_id: e.left_id,
                right_id: e.right_id,
                cost: e.cost,
                part_of_speech: e.part_of_speech.clone(),
            },
        );
        i = i + 1;
    }
    r
}

/// Position of the list named `name` among the unknown entry lists.
fn find_unknowns(u: &UnknownEntries, name: &str) -> (r: Option<usize>)
    requires
        unknowns_wf(u@),
    ensures
        r == match index_of(unknown_names(u@), name@) {
            Some(k) => Some(k as usize),
            None => None::<usize>,
        },
        r matches Some(k) ==> k < u.len() && u@[k as int].0@ == name@,
{
    let ghost names = unknown_names(u@);
    let mut k: usize = 0;
    while k < u.len()
        invariant
            names == unknown_names(u@),
            unknowns_wf(u@),
            k <= u.len(),
            forall|j: int| 0 <= j < k ==> names[j] != name@,
        decreases u.len() - k,
    {
        if str_eq(u[k].0.as_str(), name) {
            proof {
                assert(names[k as int] == name@);
                let c = choose|c: int| 0 <= c < names.len() && names[c] == name@;
                if c < k {
                    assert(false);
                } else if c > k {
                    assert(u@[k as int].0@ != u@[c].0@);
                }
            }
            return Some(k);
        }
        k = k + 1;
    }
    proof {
        if names.contains(name@) {
            let c = choose|c: int| 0 <= c < names.len() && names[c] == name@;
            assert(names[c] != name@);
        }
    }
    None
}

/// All data of a system dictionary: entries, connection costs, character
/// definitions, unknown word templates and the morpheme index.
#[derive(Debug)]
pub struct DictionaryResource {
    pub entries: Vec<DictEntry>,
    pub connections: PackedConnectionMatrix,
    pub char_defs: CharDefinitions,
    pub unknowns: UnknownEntries,
    pub morpheme_index: MorphemeIndex,
    pub category_index: CategoryIndex,
    pub unknown_entries_by_id: Vec<Vec<UnknownEntry>>,
}

impl DictionaryResource {
    /// The parts agree: the category index is built from the character definitions,
    /// and the unknown entries by id are those listed under each category's name.
    pub open spec fn wf(&self) -> bool {
        &&& self.connections.wf()
        &&& self.char_defs.wf()
        &&& unknowns_wf(self.unknowns@)
        &&& index_built_from(self.char_defs, self.category_index)
        &&& self.unknown_entries_by_id.len() == self.category_index.names.len()
        &&& forall|id: int|
            0 <= id < self.unknown_entries_by_id.len() ==> same_unknown_list(
                (#[trigger] self.unknown_entries_by_id@[id])@,
                unknowns_for(self.unknowns@, self.category_index.names_view()[id]),
            )
    }

    /// Assembles a dictionary from its loaded parts: builds the category index and
    /// the unknown entries by category id. Fails as [`CategoryIndex::new`] does.
    pub fn from_parts(
        entries: Vec<DictEntry>,
        connections: PackedConnectionMatrix,
        char_defs: CharDefinitions,
        unknowns: UnknownEntries,
        morpheme_index: MorphemeIndex,
    ) -> (r: Result<Self, RunomeError>)
        requires
            connections.wf(),
            char_defs.wf(),
            unknowns_wf(unknowns@),
        ensures
            match r {
                Ok(d) => {
                    &&& index_new_result(char_defs, Ok(d.category_index))
                    &&& d.wf()
                    &&& d.entries == entries
                    &&& d.connections == connections
                    &&& d.char_defs == char_defs
                    &&& d.unknowns == unknowns
                    &&& d.morpheme_index == morpheme_index
                },
                Err(e) => index_new_result(char_defs, Err(e)),
            },
    {
        let category_index = CategoryIndex::new(&char_defs)?;
        let n = category_index.len();
        let mut unknown_entries_by_id: Vec<Vec<UnknownEntry>> = Vec::new();
        let mut id: usize = 0;
        while id < n
            invariant
                n == category_index.names.len(),
                category_index.wf(),
                unknowns_wf(unknowns@),
                id <= n,
                unknown_entries_by_id.len() == id,
                forall|k: int|
                    0 <= k < id ==> same_unknown_list(
                        (#[trigger] unknown_entries_by_id@[k])@,
                        unknowns_for(unknowns@, category_index.names_view()[k]),
                    ),
            decreases n - id,
        {
            let name = category_index.category_name(id as CategoryId);
            match find_unknowns(&unknowns, name) {
                Some(k) => {
                    unknown_entries_by_id.push(clone_unknown_list(&unknowns[k].1));
                },
                None => {
                    unknown_entries_by_id.push(Vec::new());
                },
            }
            id = id + 1;
        }
        Ok(
            DictionaryResource {
                entries,
                connections,
                char_defs,
                unknowns,
                morpheme_index,
                category_index,
                unknown_entries_by_id,
            },
        )
    }
}

} // verus!

verus! {

impl DictionaryResource {
    /// Code ranges `0..k` name defined categories.
    pub open spec fn ranges_ok_upto(&self, k: int) -> bool {
        forall|j: int|
            0 <= j < k ==> self.char_defs.names().contains(
                (#[trigger] self.char_defs.code_ranges@[j]).category@,
            )
    }

    /// Entries `0..i` have both ids at most `max`.
    pub open spec fn entries_ok_upto(&self, i: int, max: u16) -> bool {
        forall|j: int|
            0 <= j < i ==> (#[trigger] self.entries@[j]).left_id <= max && self.entries@[j].right_id
                <= max
    }

    /// The largest id the connection matrix admits, as a `u16` (truncated).
    pub open spec fn max_id(&self) -> u16 {
        (self.connections.rows - 1) as u16
    }

    /// No component is empty.
    pub open spec fn components_present(&self) -> bool {
        &&& self.entries.len() > 0
        &&& self.connections.data.len() > 0
        &&& self.char_defs.categories.len() > 0
        &&& self.char_defs.code_ranges.len() > 0
    }

    /// What [`Self::validate`] answers: the first failing check, in order.
    pub open spec fn validation_result(&self, r: Result<(), RunomeError>) -> bool {
        &&& self.entries.len() == 0 ==> r == Err::<(), _>(
            RunomeError::DictValidationError { reason: ValidationIssue::EmptyEntries },
        )
        &&& self.entries.len() > 0 && self.connections.data.len() == 0 ==> r == Err::<(), _>(
            RunomeError::DictValidationError { reason: ValidationIssue::EmptyConnectionMatrix },
        )
        &&& self.entries.len() > 0 && self.connections.data.len() > 0
            && self.char_defs.categories.len() == 0 ==> r == Err::<(), _>(
            RunomeError::DictValidationError { reason: ValidationIssue::EmptyCategories },
        )
        &&& self.entries.len() > 0 && self.connections.data.len() > 0
            && self.char_defs.categories.len() > 0 && self.char_defs.code_ranges.len() == 0 ==> r
            == Err::<(), _>(
            RunomeError::DictValidationError { reason: ValidationIssue::EmptyCodeRanges },
        )
        &&& forall|k: int|
            #![trigger self.char_defs.code_ranges@[k]]
            self.components_present() && 0 <= k < self.char_defs.code_ranges.len()
                && self.ranges_ok_upto(k) && !self.char_defs.names().contains(
                self.char_defs.code_ranges@[k].category@,
            ) ==> (r matches Err(
                RunomeError::DictValidationError {
                    reason: ValidationIssue::UnknownCategory { name },
                },
            ) && name@ == self.char_defs.code_ranges@[k].category@)
        &&& self.components_present() && self.ranges_ok_upto(
            self.char_defs.code_ranges.len() as int,
        ) && self.connections.rows == 0 ==> r == Err::<(), _>(
            RunomeError::DictValidationError { reason: ValidationIssue::NoConnectionRows },
        )
        &&& forall|i: int|
            #![trigger self.entries@[i]]
            self.components_present() && self.ranges_ok_upto(
                self.char_defs.code_ranges.len() as int,
            ) && self.connections.rows > 0 && 0 <= i < self.entries.len() && self.entries_ok_upto(
                i,
                self.max_id(),
            ) ==> {
                &&& self.entries@[i].left_id > self.max_id() ==> r == Err::<(), _>(
                    RunomeError::DictValidationError {
                        reason: ValidationIssue::LeftIdOutOfBounds {
                            entry: i as usize,
                            id: self.entries@[i].left_id,
                            max: self.max_id(),
                        },
                    },
                )
                &&& self.entries@[i].left_id <= self.max_id() && self.entries@[i].right_id
                    > self.max_id() ==> r == Err::<(), _>(
                    RunomeError::DictValidationError {
                        reason: ValidationIssue::RightIdOutOfBounds {
                            entry: i as usize,
                            id: self.entries@[i].right_id,
                            max: self.max_id(),
                        },
                    },
                )
            }
        &&& self.components_present() && self.ranges_ok_upto(
            self.char_defs.code_ranges.len() as int,
        ) && self.connections.rows > 0 && self.entries_ok_upto(
            self.entries.len() as int,
            self.max_id(),
        ) ==> r == Ok::<(), RunomeError>(())
    }

    /// Checks the loaded data: no component is empty, every code range names a defined
    /// category, and every entry's ids are within the connection matrix (the bound is
    /// `rows - 1` truncated to 16 bits). Reports the first failing check.
    pub fn validate(&self) -> (r: Result<(), RunomeError>)
        requires
            self.wf(),
        ensures
            self.validation_result(r),
    {
        if self.entries.len() == 0 {
            return Err(RunomeError::DictValidationError { reason: ValidationIssue::EmptyEntries });
        }
        if self.connections.is_empty() {
            return Err(
                RunomeError::DictValidationError { reason: ValidationIssue::EmptyConnectionMatrix },
            );
        }
        if self.char_defs.categories.len() == 0 {
            return Err(
                RunomeError::DictValidationError { reason: ValidationIssue::EmptyCategories },
            );
        }
        if self.char_defs.code_ranges.len() == 0 {
            return Err(
                RunomeError::DictValidationError { reason: ValidationIssue::EmptyCodeRanges },
            );
        }
        let mut k: usize = 0;
        while k < self.char_defs.code_ranges.len()
            invariant
                self.components_present(),
                k <= self.char_defs.code_ranges.len(),
                self.ranges_ok_upto(k as int),
            decreases self.char_defs.code_ranges.len() - k,
        {
            let range = &self.char_defs.code_ranges[k];
            let mut c: usize = 0;
            let mut found = false;
            while c < self.char_defs.categories.len()
                invariant
                    c <= self.char_defs.categories.len(),
                    found ==> self.char_defs.names().contains(range.category@),
                    !found ==> forall|c2: int| 0 <= c2 < c ==> self.char_defs.names()[c2] != range.category@,
                decreases self.char_defs.categories.len() - c,
            {
                if str_eq(self.char_defs.categories[c].0.as_str(), range.category.as_str()) {
                    found = true;
                    proof {
                        assert(self.char_defs.names()[c as int] == range.category@);
                    }
                }
                c = c + 1;
            }
            if !found {
                proof {
                    if self.char_defs.names().contains(range.category@) {
                        let w = choose|w: int|
                            0 <= w < self.char_defs.names().len() && self.char_defs.names()[w]
                                == range.category@;
                        assert(self.char_defs.names()[w] != range.category@);
                    }
                    assert forall|k3: int|
                        #![trigger self.char_defs.code_ranges@[k3]]
                        self.components_present() && 0 <= k3 < self.char_defs.code_ranges.len()
                            && self.ranges_ok_upto(k3) && !self.char_defs.names().contains(
                            self.char_defs.code_ranges@[k3].category@,
                        ) implies k3 == k by {
                        if k3 < k {
                            assert(self.ranges_ok_upto(k as int));
                            assert(self.char_defs.names().contains(
                                self.char_defs.code_ranges@[k3].category@,
                            ));
                        } else if k3 > k {
                            assert(self.char_defs.names().contains(
                                self.char_defs.code_ranges@[k as int].category@,
                            ));
                        }
                    }
                }
                proof {
                    assert(!self.ranges_ok_upto(self.char_defs.code_ranges.len() as int)) by {
                        assert(!self.char_defs.names().contains(
                            self.char_defs.code_ranges@[k as int].category@,
                        ));
                    }
                }
                let name = range.category.clone();
                proof {
                    assert(name@ == self.char_defs.code_ranges@[k as int].category@);
                }
                return Err(
                    RunomeError::DictValidationError {
                        reason: ValidationIssue::UnknownCategory { name },
                    },
                );
            }
            k = k + 1;
        }
        let rows = self.connections.rows();
        if rows == 0 {
            return Err(
                RunomeError::DictValidationError { reason: ValidationIssue::NoConnectionRows },
            );
        }
        let max_id = #[verifier::truncate] ((rows - 1) as u16);
        let mut i: usize = 0;
        while i < self.entries.len()
            invariant
                self.components_present(),
                i <= self.entries.len(),
                rows == self.connections.rows,
                rows > 0,
                max_id == self.max_id(),
                self.ranges_ok_upto(self.char_defs.code_ranges.len() as int),
                self.entries_ok_upto(i as int, max_id),
            decreases self.entries.len() - i,
        {
            let entry = &self.entries[i];
            if entry.left_id > max_id {
                proof {
                    assert forall|i3: int|
                        #![trigger self.entries@[i3]]
                        0 <= i3 < self.entries.len() && self.entries_ok_upto(i3, max_id) && (
                        self.entries@[i3].left_id > max_id || self.entries@[i3].right_id > max_id)
                            implies i3 == i by {
                        if i3 > i {
                            assert(self.entries@[i as int].left_id <= max_id);
                        }
                    }
                    assert(!self.entries_ok_upto(self.entries.len() as int, max_id)) by {
                        assert(self.entries@[i as int].left_id > max_id);
                    }
                }
                return Err(
                    RunomeError::DictValidationError {
                        reason: ValidationIssue::LeftIdOutOfBounds {
                            entry: i,
                            id: entry.left_id,
                            max: max_id,
                        },
                    },
                );
            }
            if entry.right_id > max_id {
                proof {
                    assert forall|i3: int|
                        #![trigger self.entries@[i3]]
                        0 <= i3 < self.entries.len() && self.entries_ok_upto(i3, max_id) && (
                        self.entries@[i3].left_id > max_id || self.entries@[i3].right_id > max_id)
                            implies i3 == i by {
                        if i3 > i {
                            assert(self.entries@[i as int].right_id <= max_id);
                        }
                    }
                    assert(!self.entries_ok_upto(self.entries.len() as int, max_id)) by {
                        assert(self.entries@[i as int].right_id > max_id);
                    }
                }
                return Err(
                    RunomeError::DictValidationError {
                        reason: ValidationIssue::RightIdOutOfBounds {
                            entry: i,
                            id: entry.right_id,
                            max: max_id,
                        },
                    },
                );
            }
            i = i + 1;
        }
        proof {
            assert forall|i3: int|
                #![trigger self.entries@[i3]]
                0 <= i3 < self.entries.len() implies self.entries@[i3].left_id <= max_id
                && self.entries@[i3].right_id <= max_id by {}
        }
        Ok(())
    }
}

} // verus!

verus! {

/// The names of ids `0..upto` that are in `mask`, ascending by id.
pub open spec fn mask_names(names: Seq<Seq<char>>, mask: CategoryMask, upto: int) -> Seq<Seq<char>>
    decreases upto,
{
    if upto <= 0 {
        seq![]
    } else if mask.has(upto - 1) {
        mask_names(names, mask, upto - 1).push(names[upto - 1])
    } else {
        mask_names(names, mask, upto - 1)
    }
}

/// The pairs inserted one after the other into a map; a later pair replaces an
/// earlier one with the same key.
pub open spec fn insert_all(pairs: Seq<(Seq<char>, Seq<Seq<char>>)>) -> Map<Seq<char>, Seq<Seq<char>>>
    decreases pairs.len(),
{
    if pairs.len() == 0 {
        Map::empty()
    } else {
        insert_all(pairs.drop_last()).insert(pairs.last().0, pairs.last().1)
    }
}

/// A list of (key, values) pairs read as a map.
pub open spec fn pairs_view(v: Seq<(String, Vec<String>)>) -> Seq<(Seq<char>, Seq<Seq<char>>)> {
    v.map_values(|p: (String, Vec<String>)| (p.0@, views(p.1@)))
}

/// No key occurs twice.
pub open spec fn keys_distinct(v: Seq<(Seq<char>, Seq<Seq<char>>)>) -> bool {
    forall|i: int, j: int| 0 <= i < j < v.len() ==> #[trigger] v[i].0 != #[trigger] v[j].0
}

/// A position of key `k` among the pairs.
pub open spec fn key_pos(v: Seq<(Seq<char>, Seq<Seq<char>>)>, k: Seq<char>) -> int {
    choose|i: int| 0 <= i < v.len() && v[i].0 == k
}

/// `k` is a key of the pairs.
pub open spec fn has_key(v: Seq<(Seq<char>, Seq<Seq<char>>)>, k: Seq<char>) -> bool {
    exists|i: int| 0 <= i < v.len() && v[i].0 == k
}

/// A map view of distinct-key pairs.
pub open spec fn as_map(v: Seq<(Seq<char>, Seq<Seq<char>>)>) -> Map<Seq<char>, Seq<Seq<char>>> {
    Map::new(|k: Seq<char>| has_key(v, k), |k: Seq<char>| v[key_pos(v, k)].1)
}

/// The map view gives each key the value of its pair.
proof fn lemma_as_map_at(v: Seq<(Seq<char>, Seq<Seq<char>>)>, w: int)
    requires
        keys_distinct(v),
        0 <= w < v.len(),
    ensures
        as_map(v).dom().contains(v[w].0),
        as_map(v)[v[w].0] == v[w].1,
{
    let k = v[w].0;
    assert(has_key(v, k));
    let p = key_pos(v, k);
    if p != w {
        if p < w {
            assert(v[p].0 != v[w].0);
        } else {
            assert(v[w].0 != v[p].0);
        }
    }
}

/// Copies a string.
fn copy_string(s: &str) -> (r: String)
    ensures
        r@ == s@,
{
    s.to_owned()
}

impl DictionaryResource {
    /// The dictionary entries.
    pub fn get_entries(&self) -> (s: &[DictEntry])
        ensures
            s@ == self.entries@,
    {
        self.entries.as_slice()
    }

    /// Cost of connecting `left_id` to `right_id`; an error outside the matrix.
    pub fn get_connection_cost(&self, left_id: u16, right_id: u16) -> (r: Result<i16, RunomeError>)
        requires
            self.wf(),
        ensures
            r == if (left_id as int) < self.connections.rows && (right_id as int)
                < self.connections.cols {
                Ok::<i16, RunomeError>(self.connections.cost(left_id as int, right_id as int))
            } else {
                Err(RunomeError::InvalidConnectionId { left_id, right_id })
            },
    {
        match self.connections.get(left_id, right_id) {
            Some(c) => Ok(c),
            None => Err(RunomeError::InvalidConnectionId { left_id, right_id }),
        }
    }

    /// A shared handle on a copy of the connection matrix.
    pub fn connection_matrix(&self) -> (m: ConnectionMatrix)
        ensures
            m.matrix().same(self.connections),
    {
        ConnectionMatrix::from_packed(&self.connections)
    }

    /// A borrowed view of the connection matrix.
    pub fn connection_matrix_view(&self) -> (v: ConnectionMatrixView<'_>)
        ensures
            *v.matrix == self.connections,
    {
        ConnectionMatrixView { matrix: &self.connections }
    }

    /// The category record of the smallest category id of `ch`, if `ch` has one.
    pub fn get_char_category(&self, ch: char) -> (r: Option<&CharCategory>)
        requires
            self.wf(),
        ensures
            (forall|i: int| #![trigger self.category_index.mask_has(ch as u32, i)] !self.category_index.mask_has(ch as u32, i)) ==> r is None,
            r matches Some(c) ==> exists|i: int|
                {
                    &&& self.category_index.mask_has(ch as u32, i)
                    &&& forall|j: int| #![trigger self.category_index.mask_has(ch as u32, j)] j < i ==> !self.category_index.mask_has(ch as u32, j)
                    &&& *c == category_of(self.char_defs, self.category_index.names_view()[i])
                },
            (exists|i: int| #![trigger self.category_index.mask_has(ch as u32, i)] self.category_index.mask_has(ch as u32, i)) ==> r is Some,
    {
        let small = self.category_index.category_ids_for_char(ch);
        let ids = crate::category::small_ids_as_slice(&small);
        if ids.len() == 0 {
            proof {
                assert forall|i: int| #![trigger self.category_index.mask_has(ch as u32, i)] !self.category_index.mask_has(ch as u32, i) by {
                    if self.category_index.mask_has(ch as u32, i) {
                        assert(ids@.contains(i as CategoryId));
                    }
                }
            }
            return None;
        }
        let id = ids[0];
        proof {
            assert(ids@.contains(id));
            assert((id as int) as CategoryId == id);
            assert(self.category_index.mask_has(ch as u32, id as int));
            assert((ids@[0] as int) < self.category_index.names.len());
        }
        let name = self.category_index.category_name(id);
        let mut c: usize = 0;
        let ghost defs = self.char_defs;
        proof {
            assert(self.category_index.names_view().contains(name@));
            assert(defs.names().contains(name@));
        }
        while !str_eq(self.char_defs.categories[c].0.as_str(), name)
            invariant
                defs == self.char_defs,
                c < defs.categories.len(),
                defs.names().contains(name@),
                forall|c2: int| 0 <= c2 < c ==> defs.names()[c2] != name@,
            decreases defs.categories.len() - c,
        {
            proof {
                assert(defs.names()[c as int] != name@);
                let w = choose|w: int| 0 <= w < defs.names().len() && defs.names()[w] == name@;
                assert(w > c);
            }
            c = c + 1;
        }
        let r = &self.char_defs.categories[c].1;
        proof {
            let kk = choose|kk: int|
                0 <= kk < defs.categories.len() && defs.categories@[kk].0@ == name@;
            if kk < c as int {
                assert(defs.categories@[kk].0@ != defs.categories@[c as int].0@);
            } else if kk > c as int {
                assert(defs.categories@[c as int].0@ != defs.categories@[kk].0@);
            }
            assert forall|j: int| #![trigger self.category_index.mask_has(ch as u32, j)] j < id implies !self.category_index.mask_has(ch as u32, j) by {
                if self.category_index.mask_has(ch as u32, j) {
                    assert(ids@.contains(j as CategoryId));
                    let k = choose|k: int| 0 <= k < ids.len() && ids@[k] == j as CategoryId;
                    if k > 0 {
                        assert(ids@[0] < ids@[k]);
                    }
                }
            }
        }
        Some(r)
    }

    /// The categories of `ch` (nearest range first) with the names of their
    /// compatible categories, ascending by id; the default category when no range
    /// reaches `ch`.
    pub fn iter_char_categories(&self, ch: char) -> (r: Vec<(String, Vec<String>)>)
        requires
            self.wf(),
        ensures
            r.len() == self.category_index.matches_spec(ch as u32).len(),
            forall|k: int|
                0 <= k < r.len() ==> {
                    let m = self.category_index.matches_spec(ch as u32)[k];
                    &&& (#[trigger] r@[k]).0@ == self.category_index.names_view()[m.0 as int]
                    &&& views(r@[k].1@) == mask_names(
                        self.category_index.names_view(),
                        m.1,
                        self.category_index.names.len() as int,
                    )
                },
    {
        let ms = self.category_index.matches(ch);
        let n = self.category_index.len();
        let mut out: Vec<(String, Vec<String>)> = Vec::new();
        let mut k: usize = 0;
        while k < ms.len()
            invariant
                self.wf(),
                n == self.category_index.names.len(),
                ms@ == self.category_index.matches_spec(ch as u32),
                k <= ms.len(),
                out.len() == k,
                forall|k2: int|
                    0 <= k2 < k ==> {
                        let m = ms@[k2];
                        &&& (#[trigger] out@[k2]).0@ == self.category_index.names_view()[m.0 as int]
                        &&& views(out@[k2].1@) == mask_names(
                            self.category_index.names_view(),
                            m.1,
                            n as int,
                        )
                    },
            decreases ms.len() - k,
        {
            let (primary, compat_mask) = ms[k];
            proof {
                lemma_match_ids_in_range(self, ch as u32, k as int);
            }
            let primary_name = copy_string(self.category_index.category_name(primary));
            let mut compat: Vec<String> = Vec::new();
            let mut id: usize = 0;
            while id < n
                invariant
                    self.wf(),
                    n == self.category_index.names.len(),
                    n <= 128,
                    id <= n,
                    views(compat@) == mask_names(self.category_index.names_view(), compat_mask, id as int),
                decreases n - id,
            {
                if compat_mask.contains(id as CategoryId) {
                    compat.push(copy_string(self.category_index.category_name(id as CategoryId)));
                    proof {
                        assert(views(compat@) =~= mask_names(
                            self.category_index.names_view(),
                            compat_mask,
                            id as int,
                        ).push(self.category_index.names_view()[id as int]));
                    }
                }
                id = id + 1;
            }
            out.push((primary_name, compat));
            k = k + 1;
        }
        out
    }

    /// The categories of `ch` with their compatible categories, as a map from name to
    /// compatible names (a later match with the same name replaces an earlier one);
    /// `DEFAULT` with no compatible names when `ch` has no category.
    pub fn get_char_categories(&self, ch: char) -> (r: Vec<(String, Vec<String>)>)
        requires
            self.wf(),
        ensures
            keys_distinct(pairs_view(r@)),
            ({
                let found = self.iter_char_categories_spec(ch);
                if found.len() == 0 {
                    as_map(pairs_view(r@)) == Map::<Seq<char>, Seq<Seq<char>>>::empty().insert(
                        default_name(),
                        seq![],
                    )
                } else {
                    as_map(pairs_view(r@)) == insert_all(found)
                }
            }),
    {
        let found = self.iter_char_categories(ch);
        let ghost fv = pairs_view(found@);
        proof {
            assert(fv == self.iter_char_categories_spec(ch)) by {
                assert(fv =~= self.iter_char_categories_spec(ch));
            }
        }
        let mut result: Vec<(String, Vec<String>)> = Vec::new();
        let mut k: usize = 0;
        let mut found = found;
        let ghost total = found.len();
        while k < found.len()
            invariant
                k <= found.len(),
                pairs_view(found@) == fv,
                keys_distinct(pairs_view(result@)),
                as_map(pairs_view(result@)) == insert_all(fv.take(k as int)),
            decreases found.len() - k,
        {
            let key = copy_string(found[k].0.as_str());
            let values = clone_strings(&found[k].1);
            map_insert(&mut result, key, values);
            proof {
                assert(fv.take(k + 1).drop_last() =~= fv.take(k as int));
            }
            k = k + 1;
        }
        proof {
            assert(fv.take(fv.len() as int) =~= fv);
        }
        proof {
            if fv.len() == 0 {
                assert(insert_all(fv) =~= Map::<Seq<char>, Seq<Seq<char>>>::empty());
                if result.len() > 0 {
                    let pv = pairs_view(result@);
                    assert(has_key(pv, pv[0].0));
                    assert(as_map(pv).dom().contains(pv[0].0));
                }
            }
        }
        if result.len() == 0 {
            proof {
                if fv.len() > 0 {
                    lemma_insert_all_nonempty(fv);
                    assert(as_map(pairs_view(result@)).dom().contains(fv.last().0));
                }
                assert(as_map(pairs_view(result@)) =~= Map::<Seq<char>, Seq<Seq<char>>>::empty());
            }
            let mut default_key = String::new();
            default_key.append("DEFAULT");
            proof {
                reveal_strlit("DEFAULT");
                assert(default_key@ =~= default_name());
            }
            let empty: Vec<String> = Vec::new();
            proof {
                assert(views(empty@) =~= seq![]);
            }
            map_insert(&mut result, default_key, empty);
        }
        result
    }

    /// What [`Self::iter_char_categories`] returns, as names.
    pub open spec fn iter_char_categories_spec(&self, ch: char) -> Seq<(Seq<char>, Seq<Seq<char>>)> {
        self.category_index.matches_spec(ch as u32).map_values(
            |m: (CategoryId, CategoryMask)|
                (
                    self.category_index.names_view()[m.0 as int],
                    mask_names(
                        self.category_index.names_view(),
                        m.1,
                        self.category_index.names.len() as int,
                    ),
                ),
        )
    }
}

proof fn lemma_match_ids_in_range(d: &DictionaryResource, cp: u32, k: int)
    requires
        d.wf(),
        0 <= k < d.category_index.matches_spec(cp).len(),
    ensures
        (d.category_index.matches_spec(cp)[k].0 as int) < d.category_index.names.len(),
{
    let idx = d.category_index;
    let found = crate::category::held_matches(idx.code_ranges@, cp, 0, idx.limit(cp));
    crate::category::lemma_count_le_bound(idx.code_ranges@, cp);
    if found.len() > 0 {
        crate::category::lemma_held_matches_ids(idx, cp, 0, idx.limit(cp), k);
    }
}

proof fn lemma_insert_all_nonempty(fv: Seq<(Seq<char>, Seq<Seq<char>>)>)
    requires
        fv.len() > 0,
    ensures
        insert_all(fv).dom().contains(fv.last().0),
{
}

/// Copies a list of strings.
fn clone_strings(v: &Vec<String>) -> (r: Vec<String>)
    ensures
        views(r@) == views(v@),
{
    let mut r: Vec<String> = Vec::new();
    let mut i: usize = 0;
    while i < v.len()
        invariant
            i <= v.len(),
            r.len() == i,
            views(r@) == views(v@).take(i as int),
        decreases v.len() - i,
    {
        let ghost before = r@;
        let c = v[i].clone();
        r.push(c);
        proof {
            assert(c@ == v@[i as int]@);
            assert forall|j: int| 0 <= j < i + 1 implies views(r@)[j] == views(v@).take(i + 1)[j] by {
                if j < i {
                    assert(views(before)[j] == views(v@).take(i as int)[j]);
                    assert(r@[j] == before[j]);
                }
            }
            assert(views(r@) =~= views(v@).take(i + 1));
        }
        i = i + 1;
    }
    proof {
        assert(views(v@).take(v.len() as int) =~= views(v@));
    }
    r
}

/// Sets `key` to `values` in a list of distinct-key pairs, replacing an existing pair.
fn map_insert(m: &mut Vec<(String, Vec<String>)>, key: String, values: Vec<String>)
    requires
        keys_distinct(pairs_view(old(m)@)),
    ensures
        keys_distinct(pairs_view(final(m)@)),
        as_map(pairs_view(final(m)@)) == as_map(pairs_view(old(m)@)).insert(key@, views(values@)),
{
    let ghost ov = pairs_view(m@);
    let ghost kv = key@;
    let ghost vv = views(values@);
    let mut i: usize = 0;
    while i < m.len()
        invariant
            i <= m.len(),
            pairs_view(m@) == ov,
            ov == pairs_view(old(m)@),
            keys_distinct(ov),
            kv == key@,
            vv == views(values@),
            forall|j: int| 0 <= j < i ==> ov[j].0 != kv,
        decreases m.len() - i,
    {
        if str_eq(m[i].0.as_str(), key.as_str()) {
            m.set(i, (key, values));
            proof {
                let nv = pairs_view(m@);
                assert(nv =~= ov.update(i as int, (kv, vv)));
                lemma_replace_keeps_map(ov, i as int, kv, vv);
                assert(ov == pairs_view(old(m)@));
                assert(as_map(nv) == as_map(ov).insert(kv, vv));
            }
            return ;
        }
        i = i + 1;
    }
    m.push((key, values));
    proof {
        let nv = pairs_view(m@);
        assert(nv =~= ov.push((kv, vv)));
        lemma_push_new_key_map(ov, kv, vv);
        assert(ov == pairs_view(old(m)@));
        assert(as_map(nv) == as_map(ov).insert(kv, vv));
    }
}

proof fn lemma_replace_keeps_map(
    ov: Seq<(Seq<char>, Seq<Seq<char>>)>,
    i: int,
    kv: Seq<char>,
    vv: Seq<Seq<char>>,
)
    requires
        keys_distinct(ov),
        0 <= i < ov.len(),
        ov[i].0 == kv,
    ensures
        keys_distinct(ov.update(i, (kv, vv))),
        as_map(ov.update(i, (kv, vv))) == as_map(ov).insert(kv, vv),
{
    let nv = ov.update(i, (kv, vv));
    assert forall|a: int, b: int| 0 <= a < b < nv.len() implies #[trigger] nv[a].0 != #[trigger] nv[b].0 by {
        assert(ov[a].0 != ov[b].0);
    }
    assert forall|k: Seq<char>| #[trigger] as_map(nv).dom().contains(k) <==> as_map(ov).insert(
        kv,
        vv,
    ).dom().contains(k) by {
        if has_key(nv, k) {
            let w = choose|w: int| 0 <= w < nv.len() && nv[w].0 == k;
            assert(ov[w].0 == k);
        }
        if has_key(ov, k) {
            let w = choose|w: int| 0 <= w < ov.len() && ov[w].0 == k;
            assert(nv[w].0 == k);
        }
    }
    assert forall|k: Seq<char>| #[trigger] as_map(nv).dom().contains(k) implies as_map(nv)[k]
        == as_map(ov).insert(kv, vv)[k] by {
        let w = choose|w: int| 0 <= w < nv.len() && nv[w].0 == k;
        lemma_as_map_at(nv, w);
        if w != i {
            lemma_as_map_at(ov, w);
        }
    }
    assert(as_map(nv) =~= as_map(ov).insert(kv, vv));
}

proof fn lemma_push_new_key_map(ov: Seq<(Seq<char>, Seq<Seq<char>>)>, kv: Seq<char>, vv: Seq<Seq<char>>)
    requires
        keys_distinct(ov),
        forall|j: int| 0 <= j < ov.len() ==> ov[j].0 != kv,
    ensures
        keys_distinct(ov.push((kv, vv))),
        as_map(ov.push((kv, vv))) == as_map(ov).insert(kv, vv),
{
    let nv = ov.push((kv, vv));
    assert forall|a: int, b: int| 0 <= a < b < nv.len() implies #[trigger] nv[a].0 != #[trigger] nv[b].0 by {
        if b < ov.len() {
            assert(ov[a].0 != ov[b].0);
        }
    }
    assert forall|k: Seq<char>| #[trigger] as_map(nv).dom().contains(k) <==> as_map(ov).insert(
        kv,
        vv,
    ).dom().contains(k) by {
        if has_key(nv, k) {
            let w = choose|w: int| 0 <= w < nv.len() && nv[w].0 == k;
            if w < ov.len() {
                assert(ov[w].0 == k);
            }
        }
        if has_key(ov, k) {
            let w = choose|w: int| 0 <= w < ov.len() && ov[w].0 == k;
            assert(nv[w].0 == k);
        }
        if k == kv {
            assert(nv[ov.len() as int].0 == k);
        }
    }
    assert forall|k: Seq<char>| #[trigger] as_map(nv).dom().contains(k) implies as_map(nv)[k]
        == as_map(ov).insert(kv, vv)[k] by {
        let w = choose|w: int| 0 <= w < nv.len() && nv[w].0 == k;
        lemma_as_map_at(nv, w);
        if w < ov.len() {
            lemma_as_map_at(ov, w);
        }
    }
    assert(as_map(nv) =~= as_map(ov).insert(kv, vv));
}

} // verus!

verus! {

impl DictionaryResource {
    /// The unknown word templates listed under `category`, if any list has that name.
    pub fn get_unknown_entries(&self, category: &str) -> (r: Option<&[UnknownEntry]>)
        requires
            self.wf(),
        ensures
            r is Some <==> unknown_names(self.unknowns@).contains(category@),
            r matches Some(s) ==> s@ == unknowns_for(self.unknowns@, category@),
    {
        match find_unknowns(&self.unknowns, category) {
            Some(k) => Some(self.unknowns[k].1.as_slice()),
            None => None,
        }
    }

    /// The unknown word templates of category `category`; `None` when the id is out
    /// of range or the category has none.
    pub fn get_unknown_entries_by_id(&self, category: CategoryId) -> (r: Option<&[UnknownEntry]>)
        requires
            self.wf(),
        ensures
            r is Some <==> (category as int) < self.unknown_entries_by_id.len()
                && self.unknown_entries_by_id@[category as int].len() > 0,
            r matches Some(s) ==> s@ == self.unknown_entries_by_id@[category as int]@,
            r matches Some(s) ==> same_unknown_list(
                s@,
                unknowns_for(self.unknowns@, self.category_index.names_view()[category as int]),
            ),
    {
        let id = category as usize;
        if id < self.unknown_entries_by_id.len() && self.unknown_entries_by_id[id].len() > 0 {
            Some(self.unknown_entries_by_id[id].as_slice())
        } else {
            None
        }
    }

    /// All categories of `ch` as a mask.
    pub fn get_char_category_mask(&self, ch: char) -> (m: CategoryMask)
        requires
            self.wf(),
        ensures
            forall|i: int| m.has(i) <==> self.category_index.mask_has(ch as u32, i),
            forall|i: int| m.has(i) ==> 0 <= i < self.category_index.names.len(),
    {
        self.category_index.category_mask_for_char(ch)
    }

    /// All category ids of `ch`, ascending.
    pub fn get_char_category_ids(&self, ch: char) -> (ids: Vec<CategoryId>)
        requires
            self.wf(),
        ensures
            forall|k: int, l: int| 0 <= k < l < ids.len() ==> ids[k] < ids[l],
            forall|i: int|
                #![trigger self.category_index.mask_has(ch as u32, i)]
                self.category_index.mask_has(ch as u32, i) <==> ids@.contains(i as CategoryId) && 0
                    <= i < 128,
            forall|k: int|
                0 <= k < ids.len() ==> (ids[k] as int) < 128 && self.category_index.mask_has(
                    ch as u32,
                    #[trigger] ids[k] as int,
                ),
    {
        let m = self.category_index.category_mask_for_char(ch);
        let ids = m.iter();
        proof {
            assert forall|i: int|
                #![trigger self.category_index.mask_has(ch as u32, i)]
                self.category_index.mask_has(ch as u32, i) <==> ids@.contains(i as CategoryId) && 0 <= i
                    < 128 by {
                if ids@.contains(i as CategoryId) && 0 <= i < 128 {
                    let j = choose|j: int| 0 <= j < ids.len() && ids@[j] == i as CategoryId;
                    assert(m.has(ids@[j] as int));
                    assert(ids@[j] as int == i);
                }
                if self.category_index.mask_has(ch as u32, i) {
                    assert(m.has(i));
                }
            }
            assert forall|k: int| 0 <= k < ids.len() implies (ids[k] as int) < 128 && self.category_index.mask_has(
                ch as u32,
                #[trigger] ids[k] as int,
            ) by {
                assert(m.has(ids[k] as int));
                assert((ids[k] as int) < self.category_index.names.len());
            }
        }
        ids
    }

    /// Name of category `category`.
    pub fn category_name_by_id(&self, category: CategoryId) -> (s: &str)
        requires
            self.wf(),
            (category as int) < self.category_index.names.len(),
        ensures
            s@ == self.category_index.names_view()[category as int],
    {
        self.category_index.category_name(category)
    }

    /// Id of the category called `name`.
    pub fn category_id_by_name(&self, name: &str) -> (r: Option<CategoryId>)
        requires
            self.wf(),
        ensures
            r is Some <==> self.category_index.names_view().contains(name@),
            r matches Some(i) ==> (i as int) < self.category_index.names.len()
                && self.category_index.names_view()[i as int] == name@,
    {
        self.category_index.category_id(name)
    }

    /// A view of the morpheme index.
    pub fn get_morpheme_index(&self) -> (v: MorphemeIndexView<'_>)
        ensures
            *v.index == self.morpheme_index,
    {
        self.morpheme_index_view()
    }

    /// A view of the morpheme index.
    pub fn morpheme_index_view(&self) -> (v: MorphemeIndexView<'_>)
        ensures
            *v.index == self.morpheme_index,
    {
        MorphemeIndexView { index: &self.morpheme_index }
    }

    /// Whether unknown words of the named category are built even where a dictionary
    /// word matches; `false` for an undefined category.
    pub fn unknown_invoked_always(&self, category: &str) -> (b: bool)
        requires
            self.wf(),
        ensures
            b == match index_of(self.category_index.names_view(), category@) {
                Some(i) => self.category_index.flags@[i].invoke,
                None => false,
            },
    {
        match self.category_index.category_id(category) {
            Some(id) => self.category_index.flags(id).invoke,
            None => false,
        }
    }

    /// Whether unknown words of category `category` are built even where a dictionary
    /// word matches.
    pub fn unknown_invoked_always_by_id(&self, category: CategoryId) -> (b: bool)
        requires
            self.wf(),
            (category as int) < self.category_index.names.len(),
        ensures
            b == self.category_index.flags@[category as int].invoke,
    {
        self.category_index.flags(category).invoke
    }

    /// Whether characters of the named category are grouped into one unknown word;
    /// `false` for an undefined category.
    pub fn unknown_grouping(&self, category: &str) -> (b: bool)
        requires
            self.wf(),
        ensures
            b == match index_of(self.category_index.names_view(), category@) {
                Some(i) => self.category_index.flags@[i].group,
                None => false,
            },
    {
        match self.category_index.category_id(category) {
            Some(id) => self.category_index.flags(id).group,
            None => false,
        }
    }

    /// Whether characters of category `category` are grouped into one unknown word.
    pub fn unknown_grouping_by_id(&self, category: CategoryId) -> (b: bool)
        requires
            self.wf(),
            (category as int) < self.category_index.names.len(),
        ensures
            b == self.category_index.flags@[category as int].group,
    {
        self.category_index.flags(category).group
    }

    /// Longest unknown word of the named category; `-1` for an undefined category.
    pub fn unknown_length(&self, category: &str) -> (n: i32)
        requires
            self.wf(),
        ensures
            n == match index_of(self.category_index.names_view(), category@) {
                Some(i) => self.category_index.flags@[i].length as i32,
                None => -1i32,
            },
    {
        match self.category_index.category_id(category) {
            Some(id) => self.category_index.flags(id).length as i32,
            None => -1,
        }
    }

    /// Longest unknown word of category `category`.
    pub fn unknown_length_by_id(&self, category: CategoryId) -> (n: i32)
        requires
            self.wf(),
            (category as int) < self.category_index.names.len(),
        ensures
            n == self.category_index.flags@[category as int].length as i32,
    {
        self.category_index.flags(category).length as i32
    }
}

} // verus!
