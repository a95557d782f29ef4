use vstd::prelude::*;

use std::collections::HashMap;

use crate::resource::DictionaryResource;
use crate::types::DictEntry;

verus! {

broadcast use vstd::std_specs::hash::group_hash_axioms;

/// The surface of entry `id` is a prefix of `text[pos..]` of one to `max_len`
/// characters.
pub open spec fn surface_matches(
    entries: Seq<DictEntry>,
    text: Seq<char>,
    pos: int,
    max_len: int,
    id: int,
) -> bool {
    let s = entries[id].surface@;
    &&& 0 <= id < entries.len()
    &&& 1 <= s.len() <= max_len
    &&& pos + s.len() <= text.len()
    &&& s == text.subrange(pos, pos + s.len())
}

/// Entry `a` comes before entry `b` in a lookup: shorter surfaces first, then by id.
pub open spec fn lookup_before(entries: Seq<DictEntry>, a: u32, b: u32) -> bool {
    let la = entries[a as int].surface@.len();
    let lb = entries[b as int].surface@.len();
    la < lb || (la == lb && a < b)
}

/// The result of a lookup: exactly the matching entries, shortest first, then by id.
pub open spec fn lookup_result(
    entries: Seq<DictEntry>,
    text: Seq<char>,
    pos: int,
    max_len: int,
    ids: Seq<u32>,
) -> bool {
    &&& forall|id: int|
        0 <= id <= u32::MAX ==> (ids.contains(id as u32) <==> #[trigger] surface_matches(
            entries,
            text,
            pos,
            max_len,
            id,
        ))
    &&& forall|a: int, b: int|
        0 <= a < b < ids.len() ==> lookup_before(entries, #[trigger] ids[a], #[trigger] ids[b])
}

/// Bucket `b` lists, in ascending order, entries whose surface starts with the
/// character of code `c`.
pub open spec fn bucket_ok(entries: Seq<DictEntry>, b: Seq<u32>, c: u32) -> bool {
    &&& forall|i: int, j: int| 0 <= i < j < b.len() ==> #[trigger] b[i] < #[trigger] b[j]
    &&& forall|i: int|
        0 <= i < b.len() ==> {
            &&& (#[trigger] b[i] as int) < entries.len()
            &&& entries[b[i] as int].surface@.len() > 0
            &&& entries[b[i] as int].surface@[0] as u32 == c
        }
}

/// Entries by the first character of their surface.
#[derive(Debug)]
pub struct SurfaceIndex {
    pub buckets: HashMap<u32, Vec<u32>>,
}

impl SurfaceIndex {
    /// Every bucket is ordered and right, and every entry with a surface is in the
    /// bucket of its first character.
    pub open spec fn indexes(&self, entries: Seq<DictEntry>) -> bool {
        &&& forall|c: u32| #[trigger]
            self.buckets@.contains_key(c) ==> bucket_ok(entries, self.buckets@[c]@, c)
        &&& forall|id: int|
            0 <= id < entries.len() && (#[trigger] entries[id]).surface@.len() > 0 ==> {
                let c = entries[id].surface@[0] as u32;
                &&& self.buckets@.contains_key(c)
                &&& self.buckets@[c]@.contains(id as u32)
            }
    }

    /// Indexes `entries` by the first character of their surfaces.
    pub fn build(entries: &[DictEntry]) -> (idx: Self)
        requires
            entries.len() <= u32::MAX,
        ensures
            idx.indexes(entries@),
    {
        let mut buckets: HashMap<u32, Vec<u32>> = HashMap::new();
        let n = entries.len();
        let mut id: usize = 0;
        while id < n
            invariant
                n == entries.len(),
                n <= u32::MAX,
                id <= n,
                forall|c: u32| #[trigger]
                    buckets@.contains_key(c) ==> bucket_ok(entries@, buckets@[c]@, c),
                forall|c: u32, i: int|
                    buckets@.contains_key(c) && 0 <= i < buckets@[c]@.len() ==> (
                    #[trigger] buckets@[c]@[i] as int) < id,
                forall|j: int|
                    0 <= j < id && (#[trigger] entries@[j]).surface@.len() > 0 ==> {
                        let c = entries@[j].surface@[0] as u32;
                        &&& buckets@.contains_key(c)
                        &&& buckets@[c]@.contains(j as u32)
                    },
            decreases n - id,
        {
            let s = entries[id].surface.as_str();
            if !s.is_empty() {
                let c = s.get_char(0) as u32;
                let ghost before = buckets@;
                let bucket = match buckets.remove(&c) {
                    Some(b) => {
                        let mut b = b;
                        b.push(id as u32);
                        b
                    },
                    None => {
                        let mut b: Vec<u32> = Vec::new();
                        b.push(id as u32);
                        b
                    },
                };
                proof {
                    let old_b = if before.contains_key(c) {
                        before[c]@
                    } else {
                        Seq::<u32>::empty()
                    };
                    assert(bucket@ == old_b.push(id as u32));
                    if before.contains_key(c) {
                        assert(bucket_ok(entries@, old_b, c));
                    }
                    assert forall|i: int| 0 <= i < old_b.len() implies (#[trigger] old_b[i] as int) < id by {
                        if before.contains_key(c) {
                            assert(old_b[i] == before[c]@[i]);
                        }
                    }
                    assert(bucket_ok(entries@, bucket@, c)) by {
                        assert forall|i: int, j: int|
                            0 <= i < j < bucket@.len() implies #[trigger] bucket@[i] < #[trigger] bucket@[j] by {
                            if j == old_b.len() {
                                assert(old_b[i] < id);
                            }
                        }
                    }
                }
                buckets.insert(c, bucket);
                proof {
                    assert forall|j: int|
                        0 <= j < id + 1 && (#[trigger] entries@[j]).surface@.len() > 0 implies {
                            let d = entries@[j].surface@[0] as u32;
                            &&& buckets@.contains_key(d)
                            &&& buckets@[d]@.contains(j as u32)
                        } by {
                        let d = entries@[j].surface@[0] as u32;
                        if j == id {
                            assert(buckets@[c]@[buckets@[c]@.len() - 1] == id as u32);
                        } else if d == c {
                            assert(before[c]@.contains(j as u32));
                            let w = choose|w: int| 0 <= w < before[c]@.len() && before[c]@[w] == j as u32;
                            assert(buckets@[c]@[w] == j as u32);
                        }
                    }
                }
            }
            id = id + 1;
        }
        SurfaceIndex { buckets }
    }
}

} // verus!

verus! {

/// Whether `s` equals `text[pos..pos + len]`, where `len` is the length of `s`.
fn prefix_equal(s: &str, len: usize, text: &[char], pos: usize) -> (b: bool)
    requires
        len == s@.len(),
        pos + len <= text.len(),
    ensures
        b == (s@ == text@.subrange(pos as int, pos + len)),
{
    let mut k: usize = 0;
    while k < len
        invariant
            k <= len,
            len == s@.len(),
            pos + len <= text.len(),
            forall|m: int| 0 <= m < k ==> s@[m] == text@[pos + m],
        decreases len - k,
    {
        if s.get_char(k) != text[pos + k] {
            proof {
                assert(s@[k as int] != text@.subrange(pos as int, pos + len)[k as int]);
            }
            return false;
        }
        k = k + 1;
    }
    proof {
        assert(s@ =~= text@.subrange(pos as int, pos + len));
    }
    true
}

/// The entries whose surface is `text[pos..pos + len]` for some `len` from one to
/// `max_len`, shortest first, then by id.
pub fn lookup_in(
    entries: &[DictEntry],
    index: &SurfaceIndex,
    text: &[char],
    pos: usize,
    max_len: usize,
) -> (ids: Vec<u32>)
    requires
        index.indexes(entries@),
        entries.len() <= u32::MAX,
        pos < text.len(),
        pos + max_len <= text.len(),
        max_len < usize::MAX,
    ensures
        lookup_result(entries@, text@, pos as int, max_len as int, ids@),
{
    let mut ids: Vec<u32> = Vec::new();
    let c = text[pos] as u32;
    let bucket = match index.buckets.get(&c) {
        Some(b) => b,
        None => {
            proof {
                assert forall|id: int|
                    0 <= id <= u32::MAX implies (ids@.contains(id as u32) <==> #[trigger] surface_matches(
                        entries@,
                        text@,
                        pos as int,
                        max_len as int,
                        id,
                    )) by {
                    if surface_matches(entries@, text@, pos as int, max_len as int, id) {
                        let s = entries@[id].surface@;
                        assert(s[0] == text@[pos as int]);
                        assert(entries@[id].surface@.len() > 0);
                    }
                }
            }
            return ids;
        },
    };
    proof {
        assert(bucket_ok(entries@, bucket@, c));
    }
    let mut found: Vec<u32> = Vec::new();
    let mut found_len: Vec<usize> = Vec::new();
    let mut i: usize = 0;
    while i < bucket.len()
        invariant
            bucket_ok(entries@, bucket@, c),
            entries.len() <= u32::MAX,
            pos + max_len <= text.len(),
            i <= bucket.len(),
            found.len() == found_len.len(),
            forall|g: int, h: int| 0 <= g < h < found.len() ==> #[trigger] found@[g] < #[trigger] found@[h],
            i == 0 ==> found.len() == 0,
            i > 0 ==> forall|g: int| 0 <= g < found.len() ==> #[trigger] found@[g] <= bucket@[i - 1],
            forall|g: int|
                0 <= g < found.len() ==> {
                    &&& surface_matches(entries@, text@, pos as int, max_len as int, #[trigger] found@[g] as int)
                    &&& found_len@[g] == entries@[found@[g] as int].surface@.len()
                },
            forall|l: int|
                0 <= l < i && surface_matches(entries@, text@, pos as int, max_len as int, #[trigger] bucket@[l] as int)
                    ==> found@.contains(bucket@[l]),
        decreases bucket.len() - i,
    {
        let id = bucket[i];
        let s = entries[id as usize].surface.as_str();
        let len = s.unicode_len();
        let hit = if len >= 1 && len <= max_len {
            prefix_equal(s, len, text, pos)
        } else {
            false
        };
        if hit {
            proof {
                if i > 0 {
                    assert(bucket@[i - 1] < bucket@[i as int]);
                }
            }
            let ghost before_found = found@;
            found.push(id);
            found_len.push(len);
            proof {
                assert forall|l: int|
                    0 <= l < i + 1 && surface_matches(entries@, text@, pos as int, max_len as int, #[trigger] bucket@[l] as int)
                        implies found@.contains(bucket@[l]) by {
                    if l < i {
                        assert(before_found.contains(bucket@[l]));
                        let w = choose|w: int| 0 <= w < before_found.len() && before_found[w] == bucket@[l];
                        assert(found@[w] == bucket@[l]);
                    } else {
                        assert(found@[found.len() - 1] == bucket@[l]);
                    }
                }
            }
        } else {
            proof {
                assert(!surface_matches(entries@, text@, pos as int, max_len as int, id as int));
            }
        }
        proof {
            assert forall|g: int| 0 <= g < found.len() implies #[trigger] found@[g] <= bucket@[i as int] by {
                if i > 0 && g < found.len() - 1 {
                    assert(bucket@[i - 1] < bucket@[i as int]);
                }
            }
        }
        i = i + 1;
    }
    // Every matching entry is in the bucket, hence found.
    proof {
        assert forall|id: int|
            0 <= id <= u32::MAX && surface_matches(entries@, text@, pos as int, max_len as int, id)
                implies found@.contains(id as u32) by {
            let s = entries@[id].surface@;
            assert(s[0] == text@[pos as int]);
            assert(entries@[id].surface@.len() > 0);
            assert(index.buckets@[c]@.contains(id as u32));
            let l = choose|l: int| 0 <= l < bucket@.len() && bucket@[l] == id as u32;
            assert(surface_matches(entries@, text@, pos as int, max_len as int, bucket@[l] as int));
        }
    }
    let mut len: usize = 1;
    while len <= max_len
        invariant
            1 <= len <= max_len + 1,
            max_len < usize::MAX,
            pos + max_len <= text.len(),
            found.len() == found_len.len(),
            forall|g: int, h: int| 0 <= g < h < found.len() ==> #[trigger] found@[g] < #[trigger] found@[h],
            forall|g: int|
                0 <= g < found.len() ==> {
                    &&& surface_matches(entries@, text@, pos as int, max_len as int, #[trigger] found@[g] as int)
                    &&& found_len@[g] == entries@[found@[g] as int].surface@.len()
                },
            forall|id: int|
                0 <= id <= u32::MAX && surface_matches(entries@, text@, pos as int, max_len as int, id)
                    ==> #[trigger] found@.contains(id as u32),
            forall|a: int, b: int|
                0 <= a < b < ids.len() ==> lookup_before(entries@, #[trigger] ids@[a], #[trigger] ids@[b]),
            forall|a: int|
                0 <= a < ids.len() ==> surface_matches(entries@, text@, pos as int, max_len as int, #[trigger] ids@[a] as int)
                    && entries@[ids@[a] as int].surface@.len() < len,
            forall|id: int|
                0 <= id <= u32::MAX && surface_matches(entries@, text@, pos as int, max_len as int, id)
                    && entries@[id].surface@.len() < len ==> #[trigger] ids@.contains(id as u32),
        decreases max_len + 1 - len,
    {
        let mut f: usize = 0;
        while f < found.len()
            invariant
                1 <= len <= max_len,
                pos + max_len <= text.len(),
                f <= found.len(),
                found.len() == found_len.len(),
                forall|g: int, h: int| 0 <= g < h < found.len() ==> #[trigger] found@[g] < #[trigger] found@[h],
                forall|g: int|
                    0 <= g < found.len() ==> {
                        &&& surface_matches(entries@, text@, pos as int, max_len as int, #[trigger] found@[g] as int)
                        &&& found_len@[g] == entries@[found@[g] as int].surface@.len()
                    },
                forall|a: int, b: int|
                    0 <= a < b < ids.len() ==> lookup_before(entries@, #[trigger] ids@[a], #[trigger] ids@[b]),
                forall|a: int|
                    0 <= a < ids.len() ==> surface_matches(entries@, text@, pos as int, max_len as int, #[trigger] ids@[a] as int)
                        && entries@[ids@[a] as int].surface@.len() <= len,
                forall|a: int|
                    0 <= a < ids.len() && entries@[#[trigger] ids@[a] as int].surface@.len() == len ==> f > 0
                        && ids@[a] <= found@[f - 1],
                forall|id: int|
                    0 <= id <= u32::MAX && surface_matches(entries@, text@, pos as int, max_len as int, id)
                        && entries@[id].surface@.len() < len ==> #[trigger] ids@.contains(id as u32),
                forall|g: int|
                    0 <= g < f && found_len@[g] == len ==> ids@.contains(#[trigger] found@[g]),
            decreases found.len() - f,
        {
            if found_len[f] == len {
                let ghost before = ids@;
                ids.push(found[f]);
                proof {
                    assert forall|a: int, b: int|
                        0 <= a < b < ids.len() implies lookup_before(entries@, #[trigger] ids@[a], #[trigger] ids@[b]) by {
                        if b == ids.len() - 1 {
                            assert(ids@[a] == before[a]);
                            if entries@[before[a] as int].surface@.len() == len {
                                assert(f > 0);
                                assert(found@[f - 1] < found@[f as int]);
                            }
                        }
                    }
                    assert forall|g: int|
                        0 <= g < f + 1 && found_len@[g] == len implies ids@.contains(#[trigger] found@[g]) by {
                        if g < f {
                            assert(before.contains(found@[g]));
                            let w = choose|w: int| 0 <= w < before.len() && before[w] == found@[g];
                            assert(ids@[w] == found@[g]);
                        } else {
                            assert(ids@[ids.len() - 1] == found@[g]);
                        }
                    }
                    assert forall|id: int|
                        0 <= id <= u32::MAX && surface_matches(entries@, text@, pos as int, max_len as int, id)
                            && entries@[id].surface@.len() < len implies #[trigger] ids@.contains(id as u32) by {
                        assert(before.contains(id as u32));
                        let w = choose|w: int| 0 <= w < before.len() && before[w] == id as u32;
                        assert(ids@[w] == id as u32);
                    }
                    assert forall|a: int|
                        0 <= a < ids.len() && entries@[#[trigger] ids@[a] as int].surface@.len() == len implies f + 1 > 0
                            && ids@[a] <= found@[f as int] by {
                        if a < ids.len() - 1 {
                            assert(ids@[a] == before[a]);
                            assert(found@[f - 1] < found@[f as int]);
                        }
                    }
                }
            } else {
                proof {
                    assert forall|a: int|
                        0 <= a < ids.len() && entries@[#[trigger] ids@[a] as int].surface@.len() == len implies f + 1 > 0
                            && ids@[a] <= found@[f as int] by {
                        assert(found@[f - 1] < found@[f as int]);
                    }
                }
            }
            f = f + 1;
        }
        proof {
            assert forall|id: int|
                0 <= id <= u32::MAX && surface_matches(entries@, text@, pos as int, max_len as int, id)
                    && entries@[id].surface@.len() < len + 1 implies #[trigger] ids@.contains(id as u32) by {
                if entries@[id].surface@.len() == len {
                    assert(found@.contains(id as u32));
                    let g = choose|g: int| 0 <= g < found.len() && found@[g] == id as u32;
                    assert(found_len@[g] == len);
                    assert(ids@.contains(found@[g]));
                }
            }
        }
        len = len + 1;
    }
    proof {
        assert forall|id: int|
            0 <= id <= u32::MAX implies (ids@.contains(id as u32) <==> #[trigger] surface_matches(
                entries@,
                text@,
                pos as int,
                max_len as int,
                id,
            )) by {
            if ids@.contains(id as u32) {
                let a = choose|a: int| 0 <= a < ids.len() && ids@[a] == id as u32;
                assert(surface_matches(entries@, text@, pos as int, max_len as int, ids@[a] as int));
            }
        }
    }
    ids
}

} // verus!

verus! {

/// The system dictionary: its resource and an index of its entries by surface.
#[derive(Debug)]
pub struct SystemDictionary {
    pub resource: DictionaryResource,
    pub index: SurfaceIndex,
}

impl SystemDictionary {
    /// The resource is well formed and its entries are indexed.
    pub open spec fn wf(&self) -> bool {
        &&& self.resource.wf()
        &&& self.resource.entries.len() <= u32::MAX
        &&& self.index.indexes(self.resource.entries@)
    }

    /// A dictionary over `resource`.
    pub fn new(resource: DictionaryResource) -> (d: Self)
        requires
            resource.wf(),
            resource.entries.len() <= u32::MAX,
        ensures
            d.wf(),
            d.resource == resource,
    {
        let index = SurfaceIndex::build(resource.entries.as_slice());
        SystemDictionary { resource, index }
    }

    /// The resource behind the dictionary.
    pub fn get_resource(&self) -> (r: &DictionaryResource)
        ensures
            *r == self.resource,
    {
        &self.resource
    }

    /// Ids of the entries whose surface is `text[pos..pos + len]` for some `len` from
    /// one to `max_len`, shortest first, then by id.
    pub fn lookup_entries_with_indices(&self, text: &[char], pos: usize, max_len: usize) -> (ids: Vec<u32>)
        requires
            self.wf(),
            pos < text.len(),
            pos + max_len <= text.len(),
            max_len < usize::MAX,
        ensures
            lookup_result(self.resource.entries@, text@, pos as int, max_len as int, ids@),
            ids@ == lookup_seq(self.resource.entries@, text@, pos as int, max_len as int),
    {
        let ids = lookup_in(self.resource.entries.as_slice(), &self.index, text, pos, max_len);
        proof {
            lemma_lookup_result_is_seq(self.resource.entries@, text@, pos as int, max_len as int, ids@);
        }
        ids
    }

    /// Entry `index`, if there is one.
    pub fn get_entry(&self, index: usize) -> (e: Option<&DictEntry>)
        ensures
            index < self.resource.entries.len() ==> e == Some(&self.resource.entries@[index as int]),
            index >= self.resource.entries.len() ==> e is None,
    {
        if index < self.resource.entries.len() {
            Some(&self.resource.entries[index])
        } else {
            None
        }
    }

    /// The categories of `ch` by name, each with its compatible categories. Never fails.
    pub fn get_char_categories_result(&self, ch: char) -> (r: Result<
        Vec<(String, Vec<String>)>,
        crate::error::RunomeError,
    >)
        requires
            self.wf(),
        ensures
            r matches Ok(v) && crate::resource::keys_distinct(crate::resource::pairs_view(v@)) && ({
                let found = self.resource.iter_char_categories_spec(ch);
                if found.len() == 0 {
                    crate::resource::as_map(crate::resource::pairs_view(v@)) == Map::<
                        Seq<char>,
                        Seq<Seq<char>>,
                    >::empty().insert(crate::category::default_name(), seq![])
                } else {
                    crate::resource::as_map(crate::resource::pairs_view(v@)) == crate::resource::insert_all(found)
                }
            }),
    {
        Ok(self.resource.get_char_categories(ch))
    }
}

/// A user dictionary: entries of the user's own, indexed by surface.
#[derive(Debug)]
pub struct UserDictionary {
    pub entries: Vec<DictEntry>,
    pub index: SurfaceIndex,
}

impl UserDictionary {
    /// The entries are indexed.
    pub open spec fn wf(&self) -> bool {
        &&& self.entries.len() <= u32::MAX
        &&& self.index.indexes(self.entries@)
    }

    /// A dictionary of `entries`.
    pub fn new(entries: Vec<DictEntry>) -> (d: Self)
        requires
            entries.len() <= u32::MAX,
        ensures
            d.wf(),
            d.entries == entries,
    {
        let index = SurfaceIndex::build(entries.as_slice());
        UserDictionary { entries, index }
    }

    /// Entry `index`, if there is one.
    pub fn get_entry(&self, index: usize) -> (e: Option<&DictEntry>)
        ensures
            index < self.entries.len() ==> e == Some(&self.entries@[index as int]),
            index >= self.entries.len() ==> e is None,
    {
        if index < self.entries.len() {
            Some(&self.entries[index])
        } else {
            None
        }
    }

    /// Ids of the entries whose surface is `text[pos..pos + len]` for some `len` from
    /// one to `max_len`, shortest first, then by id.
    pub fn lookup_entries_with_indices(&self, text: &[char], pos: usize, max_len: usize) -> (ids: Vec<u32>)
        requires
            self.wf(),
            pos < text.len(),
            pos + max_len <= text.len(),
            max_len < usize::MAX,
        ensures
            lookup_result(self.entries@, text@, pos as int, max_len as int, ids@),
            ids@ == lookup_seq(self.entries@, text@, pos as int, max_len as int),
    {
        let ids = lookup_in(self.entries.as_slice(), &self.index, text, pos, max_len);
        proof {
            lemma_lookup_result_is_seq(self.entries@, text@, pos as int, max_len as int, ids@);
        }
        ids
    }
}

} // verus!

verus! {

/// Two sequences sorted by one strict total order, with the same elements, are equal.
pub proof fn lemma_sorted_unique<A>(s1: Seq<A>, s2: Seq<A>, lt: spec_fn(A, A) -> bool)
    requires
        forall|a: A| !#[trigger] lt(a, a),
        forall|a: A, b: A, c: A| #[trigger] lt(a, b) && #[trigger] lt(b, c) ==> lt(a, c),
        forall|a: A, b: A| s1.contains(a) && s1.contains(b) && a != b ==> lt(a, b) || lt(b, a),
        forall|i: int, j: int| 0 <= i < j < s1.len() ==> lt(#[trigger] s1[i], #[trigger] s1[j]),
        forall|i: int, j: int| 0 <= i < j < s2.len() ==> lt(#[trigger] s2[i], #[trigger] s2[j]),
        forall|x: A| s1.contains(x) <==> s2.contains(x),
    ensures
        s1 == s2,
    decreases s1.len(),
{
    if s1.len() == 0 {
        if s2.len() > 0 {
            assert(s2.contains(s2[0]));
        }
        assert(s1 =~= s2);
    } else {
        assert(s1.contains(s1[0]));
        assert(s2.contains(s1[0]));
        assert(s2.len() > 0);
        assert(s2.contains(s2[0]));
        if s1[0] != s2[0] {
            let j = choose|j: int| 0 <= j < s2.len() && s2[j] == s1[0];
            let i = choose|i: int| 0 <= i < s1.len() && s1[i] == s2[0];
            assert(j > 0);
            assert(i > 0);
            assert(lt(s2[0], s2[j]));
            assert(lt(s1[0], s1[i]));
            assert(lt(s1[0], s1[0]));
        }
        let t1 = s1.skip(1);
        let t2 = s2.skip(1);
        assert forall|x: A| t1.contains(x) <==> t2.contains(x) by {
            if t1.contains(x) {
                let i = choose|i: int| 0 <= i < t1.len() && t1[i] == x;
                assert(s1[i + 1] == x);
                assert(lt(s1[0], s1[i + 1]));
                assert(s2.contains(x));
                let j = choose|j: int| 0 <= j < s2.len() && s2[j] == x;
                if j == 0 {
                    assert(x == s1[0]);
                }
                assert(t2[j - 1] == x);
            }
            if t2.contains(x) {
                let j = choose|j: int| 0 <= j < t2.len() && t2[j] == x;
                assert(s2[j + 1] == x);
                assert(lt(s2[0], s2[j + 1]));
                assert(s1.contains(x));
                let i = choose|i: int| 0 <= i < s1.len() && s1[i] == x;
                if i == 0 {
                    assert(x == s2[0]);
                }
                assert(t1[i - 1] == x);
            }
        }
        assert forall|a: A, b: A| t1.contains(a) && t1.contains(b) && a != b implies lt(a, b) || lt(b, a) by {
            let i = choose|i: int| 0 <= i < t1.len() && t1[i] == a;
            let j = choose|j: int| 0 <= j < t1.len() && t1[j] == b;
            assert(s1[i + 1] == a && s1[j + 1] == b);
            assert(s1.contains(a) && s1.contains(b));
        }
        assert forall|i: int, j: int| 0 <= i < j < t1.len() implies lt(#[trigger] t1[i], #[trigger] t1[j]) by {
            assert(t1[i] == s1[i + 1] && t1[j] == s1[j + 1]);
        }
        assert forall|i: int, j: int| 0 <= i < j < t2.len() implies lt(#[trigger] t2[i], #[trigger] t2[j]) by {
            assert(t2[i] == s2[i + 1] && t2[j] == s2[j + 1]);
        }
        lemma_sorted_unique(t1, t2, lt);
        assert(s1 =~= seq![s1[0]] + t1);
        assert(s2 =~= seq![s2[0]] + t2);
    }
}

/// Ids below `k`, ascending, of entries whose surface is `text[pos..pos + len]`.
pub open spec fn ids_with_len(
    entries: Seq<DictEntry>,
    text: Seq<char>,
    pos: int,
    max_len: int,
    len: int,
    k: int,
) -> Seq<u32>
    decreases k,
{
    if k <= 0 {
        Seq::empty()
    } else {
        let r = ids_with_len(entries, text, pos, max_len, len, k - 1);
        if surface_matches(entries, text, pos, max_len, k - 1) && entries[k - 1].surface@.len() == len {
            r.push((k - 1) as u32)
        } else {
            r
        }
    }
}

/// The matches of surfaces of at most `len` characters, shortest first, then by id.
pub open spec fn lookup_seq_upto(
    entries: Seq<DictEntry>,
    text: Seq<char>,
    pos: int,
    max_len: int,
    len: int,
) -> Seq<u32>
    decreases len,
{
    if len <= 0 {
        Seq::empty()
    } else {
        lookup_seq_upto(entries, text, pos, max_len, len - 1) + ids_with_len(
            entries,
            text,
            pos,
            max_len,
            len,
            entries.len() as int,
        )
    }
}

/// What a lookup gives: the entries whose surface is `text[pos..pos + len]` for some
/// `len` from one to `max_len`, shortest first, then by id.
pub open spec fn lookup_seq(entries: Seq<DictEntry>, text: Seq<char>, pos: int, max_len: int) -> Seq<u32> {
    lookup_seq_upto(entries, text, pos, max_len, max_len)
}

proof fn lemma_ids_with_len(
    entries: Seq<DictEntry>,
    text: Seq<char>,
    pos: int,
    max_len: int,
    len: int,
    k: int,
)
    requires
        0 <= k <= entries.len() <= u32::MAX,
    ensures
        forall|id: int|
            0 <= id <= u32::MAX ==> (ids_with_len(entries, text, pos, max_len, len, k).contains(id as u32)
                <==> (id < k && surface_matches(entries, text, pos, max_len, id) && entries[id].surface@.len()
                == len)),
        forall|i: int, j: int|
            0 <= i < j < ids_with_len(entries, text, pos, max_len, len, k).len() ==> #[trigger] ids_with_len(
                entries,
                text,
                pos,
                max_len,
                len,
                k,
            )[i] < #[trigger] ids_with_len(entries, text, pos, max_len, len, k)[j],
        forall|i: int|
            0 <= i < ids_with_len(entries, text, pos, max_len, len, k).len() ==> {
                let id = #[trigger] ids_with_len(entries, text, pos, max_len, len, k)[i];
                &&& (id as int) < k
                &&& entries[id as int].surface@.len() == len
            },
    decreases k,
{
    if k > 0 {
        lemma_ids_with_len(entries, text, pos, max_len, len, k - 1);
        let r = ids_with_len(entries, text, pos, max_len, len, k - 1);
        let s = ids_with_len(entries, text, pos, max_len, len, k);
        assert forall|id: int|
            0 <= id <= u32::MAX implies (s.contains(id as u32) <==> (id < k && surface_matches(
                entries,
                text,
                pos,
                max_len,
                id,
            ) && entries[id].surface@.len() == len)) by {
            if s.contains(id as u32) && !r.contains(id as u32) {
                let w = choose|w: int| 0 <= w < s.len() && s[w] == id as u32;
                assert(w == r.len());
            }
            if r.contains(id as u32) {
                let w = choose|w: int| 0 <= w < r.len() && r[w] == id as u32;
                assert(s[w] == id as u32);
            }
            if id == k - 1 && surface_matches(entries, text, pos, max_len, id) && entries[id].surface@.len()
                == len {
                assert(s[s.len() - 1] == id as u32);
            }
        }
    }
}

/// `lookup_seq` is a lookup result.
pub proof fn lemma_lookup_seq(entries: Seq<DictEntry>, text: Seq<char>, pos: int, max_len: int, len: int)
    requires
        entries.len() <= u32::MAX,
        0 <= len <= max_len,
    ensures
        forall|id: int|
            0 <= id <= u32::MAX ==> (lookup_seq_upto(entries, text, pos, max_len, len).contains(id as u32)
                <==> (surface_matches(entries, text, pos, max_len, id) && entries[id].surface@.len() <= len)),
        forall|a: int, b: int|
            0 <= a < b < lookup_seq_upto(entries, text, pos, max_len, len).len() ==> lookup_before(
                entries,
                #[trigger] lookup_seq_upto(entries, text, pos, max_len, len)[a],
                #[trigger] lookup_seq_upto(entries, text, pos, max_len, len)[b],
            ),
        forall|a: int|
            0 <= a < lookup_seq_upto(entries, text, pos, max_len, len).len() ==> entries[#[trigger] lookup_seq_upto(
                entries,
                text,
                pos,
                max_len,
                len,
            )[a] as int].surface@.len() <= len,
    decreases len,
{
    if len > 0 {
        lemma_lookup_seq(entries, text, pos, max_len, len - 1);
        lemma_ids_with_len(entries, text, pos, max_len, len, entries.len() as int);
        let p = lookup_seq_upto(entries, text, pos, max_len, len - 1);
        let q = ids_with_len(entries, text, pos, max_len, len, entries.len() as int);
        let s = lookup_seq_upto(entries, text, pos, max_len, len);
        assert(s == p + q);
        assert forall|id: int|
            0 <= id <= u32::MAX implies (s.contains(id as u32) <==> (surface_matches(
                entries,
                text,
                pos,
                max_len,
                id,
            ) && entries[id].surface@.len() <= len)) by {
            if s.contains(id as u32) {
                let w = choose|w: int| 0 <= w < s.len() && s[w] == id as u32;
                if w < p.len() {
                    assert(p[w] == id as u32);
                    assert(p.contains(id as u32));
                } else {
                    assert(q[w - p.len()] == id as u32);
                    assert(q.contains(id as u32));
                }
            }
            if surface_matches(entries, text, pos, max_len, id) && entries[id].surface@.len() <= len {
                if entries[id].surface@.len() < len {
                    assert(p.contains(id as u32));
                    let w = choose|w: int| 0 <= w < p.len() && p[w] == id as u32;
                    assert(s[w] == id as u32);
                } else {
                    assert(q.contains(id as u32));
                    let w = choose|w: int| 0 <= w < q.len() && q[w] == id as u32;
                    assert(s[p.len() + w] == id as u32);
                }
            }
        }
        assert forall|a: int| 0 <= a < s.len() implies entries[#[trigger] s[a] as int].surface@.len() <= len by {
            if a < p.len() {
                assert(s[a] == p[a]);
            } else {
                assert(s[a] == q[a - p.len()]);
            }
        }
        assert forall|a: int, b: int| 0 <= a < b < s.len() implies lookup_before(
            entries,
            #[trigger] s[a],
            #[trigger] s[b],
        ) by {
            if b < p.len() {
                assert(s[a] == p[a] && s[b] == p[b]);
            } else if a >= p.len() {
                assert(s[a] == q[a - p.len()] && s[b] == q[b - p.len()]);
            } else {
                assert(s[a] == p[a] && s[b] == q[b - p.len()]);
                assert(entries[p[a] as int].surface@.len() <= len - 1);
            }
        }
    }
}

/// A lookup gives exactly `lookup_seq`.
pub proof fn lemma_lookup_result_is_seq(
    entries: Seq<DictEntry>,
    text: Seq<char>,
    pos: int,
    max_len: int,
    ids: Seq<u32>,
)
    requires
        entries.len() <= u32::MAX,
        0 <= max_len,
        lookup_result(entries, text, pos, max_len, ids),
    ensures
        ids == lookup_seq(entries, text, pos, max_len),
{
    let s = lookup_seq(entries, text, pos, max_len);
    lemma_lookup_seq(entries, text, pos, max_len, max_len);
    let lt = |a: u32, b: u32| lookup_before(entries, a, b);
    assert forall|x: u32| ids.contains(x) <==> s.contains(x) by {
        assert(0 <= x as int <= u32::MAX);
        if ids.contains(x) {
            assert(surface_matches(entries, text, pos, max_len, x as int));
        }
        if s.contains(x) {
            assert(surface_matches(entries, text, pos, max_len, x as int));
        }
    }
    assert forall|a: u32, b: u32| ids.contains(a) && ids.contains(b) && a != b implies lt(a, b) || lt(b, a) by {}
    assert forall|a: u32, b: u32, c: u32| #[trigger] lt(a, b) && #[trigger] lt(b, c) implies lt(a, c) by {}
    assert forall|i: int, j: int| 0 <= i < j < ids.len() implies lt(#[trigger] ids[i], #[trigger] ids[j]) by {}
    assert forall|i: int, j: int| 0 <= i < j < s.len() implies lt(#[trigger] s[i], #[trigger] s[j]) by {}
    lemma_sorted_unique(ids, s, lt);
}

} // verus!
