//! Tokenizing a text has one outcome: two lattices built for the same chunk agree
//! slot by slot, so their cheapest paths give the same results, and splitting into
//! words gives the surfaces of the tokens.

use vstd::prelude::*;

use crate::chunking::{is_trim_of, lemma_trim_unique};
use crate::dictionary::{SystemDictionary, UserDictionary};
use crate::lattice::{lemma_back_path_cost, Lattice, LatticeNode, LatticeSlot, StartNode};
use crate::token::{result_surface, ResultView};
use crate::tokenizer::{
    best_path_nodes, chunk_lattice, chunk_results, chunk_start, expected_at, lemma_node_result_surface, lemma_wakati_surfaces,
    node_is, node_result, nodes_at_are, path_results, reached, result_surfaces, special_case,
    tokenized, NodeSpec, Tokenizer,
};

verus! {

/// Two nodes that look the same through every view.
pub open spec fn same_node<'a>(a: StartNode<'a>, b: StartNode<'a>) -> bool {
    &&& (a is Bos <==> b is Bos)
    &&& (a is Eos <==> b is Eos)
    &&& a.surface_view() == b.surface_view()
    &&& a.part_of_speech_view() == b.part_of_speech_view()
    &&& a.inflection_type_view() == b.inflection_type_view()
    &&& a.inflection_form_view() == b.inflection_form_view()
    &&& a.base_form_view() == b.base_form_view()
    &&& a.reading_view() == b.reading_view()
    &&& a.phonetic_view() == b.phonetic_view()
    &&& a.left_id_view() == b.left_id_view()
    &&& a.right_id_view() == b.right_id_view()
    &&& a.cost_view() == b.cost_view()
    &&& a.node_type_view() == b.node_type_view()
    &&& a.entry_index_view() == b.entry_index_view()
}

/// Two slots at the same place, with the same best path into them, holding nodes
/// that look the same.
pub open spec fn same_slot<'a>(a: LatticeSlot<'a>, b: LatticeSlot<'a>) -> bool {
    &&& a.pos == b.pos
    &&& a.end == b.end
    &&& a.min_cost == b.min_cost
    &&& a.back == b.back
    &&& same_node(a.node, b.node)
}

/// Two nodes that a description fits look the same.
proof fn lemma_node_is_same<'a>(a: StartNode<'a>, b: StartNode<'a>, s: NodeSpec)
    requires
        node_is(a, s),
        node_is(b, s),
    ensures
        same_node(a, b),
{
}

/// Paths of nodes that look the same give the same results.
proof fn lemma_path_results_same<'b, 'a>(
    n1: Seq<&'b StartNode<'a>>,
    n2: Seq<&'b StartNode<'a>>,
    wakati: bool,
    baseform_unk: bool,
    sys: SystemDictionary,
    user: Option<UserDictionary>,
)
    requires
        n1.len() == n2.len(),
        forall|k: int| 0 <= k < n1.len() ==> same_node(*#[trigger] n1[k], *n2[k]),
    ensures
        path_results(n1, wakati, baseform_unk, sys, user) == path_results(n2, wakati, baseform_unk, sys, user),
    decreases n1.len(),
{
    if n1.len() > 0 {
        assert(same_node(*n1[0], *n2[0]));
        if n1.len() >= 2 {
            assert(same_node(*n1[1], *n2[1]));
        }
        assert(special_case(n1, wakati) == special_case(n2, wakati));
        match special_case(n1, wakati) {
            Some((rs, n)) => {
                if 1 <= n <= n1.len() {
                    assert forall|k: int| 0 <= k < n1.skip(n).len() implies same_node(
                        *#[trigger] n1.skip(n)[k],
                        *n2.skip(n)[k],
                    ) by {
                        assert(same_node(*n1[k + n], *n2[k + n]));
                    }
                    lemma_path_results_same(n1.skip(n), n2.skip(n), wakati, baseform_unk, sys, user);
                }
            },
            None => {
                assert(node_result(*n1[0], wakati, baseform_unk, sys, user) == node_result(
                    *n2[0],
                    wakati,
                    baseform_unk,
                    sys,
                    user,
                ));
                assert forall|k: int| 0 <= k < n1.skip(1).len() implies same_node(
                    *#[trigger] n1.skip(1)[k],
                    *n2.skip(1)[k],
                ) by {
                    assert(same_node(*n1[k + 1], *n2[k + 1]));
                }
                lemma_path_results_same(n1.skip(1), n2.skip(1), wakati, baseform_unk, sys, user);
            },
        }
    }
}

/// A list that grows strictly has no element twice: its set is as large as it is.
proof fn lemma_ascending_set_len(s: Seq<usize>)
    requires
        forall|i: int, l: int| 0 <= i < l < s.len() ==> #[trigger] s[i] < #[trigger] s[l],
    ensures
        s.to_set().len() == s.len(),
        s.to_set().finite(),
{
    assert forall|i: int, j: int| 0 <= i < s.len() && 0 <= j < s.len() && i != j implies s[i] != s[j] by {
        if i < j {
            assert(s[i] < s[j]);
        } else {
            assert(s[j] < s[i]);
        }
    }
    s.unique_seq_to_set();
    vstd::seq_lib::seq_to_set_is_finite(s);
}

/// A strictly growing list whose elements all occur in another strictly growing
/// list that has one more element besides is shorter than it.
proof fn lemma_shorter_list(a: Seq<usize>, b: Seq<usize>, x: usize)
    requires
        forall|i: int, l: int| 0 <= i < l < a.len() ==> #[trigger] a[i] < #[trigger] a[l],
        forall|i: int, l: int| 0 <= i < l < b.len() ==> #[trigger] b[i] < #[trigger] b[l],
        forall|i: int| 0 <= i < a.len() ==> b.contains(#[trigger] a[i]),
        b.contains(x),
        !a.contains(x),
    ensures
        a.len() < b.len(),
{
    lemma_ascending_set_len(a);
    lemma_ascending_set_len(b);
    let sa = a.to_set();
    let sb = b.to_set().remove(x);
    assert(sa.subset_of(sb)) by {
        assert forall|y: usize| sa.contains(y) implies sb.contains(y) by {
            let i = choose|i: int| 0 <= i < a.len() && a[i] == y;
            assert(b.contains(a[i]));
        }
    }
    assert(b.to_set().contains(x));
    vstd::set_lib::lemma_len_subset(sa, sb);
}

/// In a lattice, slot `x` is listed as starting at `q` exactly when it starts there.
proof fn lemma_starts_at<'a>(l: Lattice<'a>, q: int, x: int)
    requires
        l.inv(),
        0 <= q < l.snodes.len(),
        0 <= x < l.slots.len(),
    ensures
        l.snodes@[q]@.contains(x as usize) <==> l.slots@[x].pos == q,
{
    if l.snodes@[q]@.contains(x as usize) {
        let i = choose|i: int| 0 <= i < l.snodes@[q].len() && l.snodes@[q]@[i] == x as usize;
        assert(l.slots@[l.snodes@[q]@[i] as int].pos == q);
    }
    if l.slots@[x].pos == q {
        assert((l.slots@[x].pos as int) < l.snodes.len());
    }
}

/// A position that some slot before `k` reaches in one lattice is reached in any
/// lattice that agrees with it on the slots before `k`.
proof fn lemma_reached_agrees<'a>(la: Lattice<'a>, lb: Lattice<'a>, k: int, q: int)
    requires
        la.inv(),
        lb.inv(),
        la.in_order(),
        1 <= k < la.slots.len(),
        k < lb.slots.len(),
        forall|j: int| 0 <= j < k ==> same_slot(#[trigger] la.slots@[j], lb.slots@[j]),
        q <= la.slots@[k].pos,
        reached(la, q),
    ensures
        reached(lb, q),
{
    if q != 1 {
        let j = choose|j: int| 0 <= j < la.slots.len() && #[trigger] la.slots@[j].end == q;
        if j >= 1 {
            assert(la.slot_ok(j));
        }
        if j >= k {
            assert(la.slot_ok(k));
            if j > k {
                assert(la.slots@[k].pos <= la.slots@[j].pos);
            }
        }
        assert(same_slot(la.slots@[j], lb.slots@[j]));
        assert(lb.slots@[j].end == q);
    }
}

/// Two lattices built for the same chunk that agree on the slots before `k` do not
/// put slot `k` at an earlier position in the second.
proof fn lemma_pos_not_before<'a>(
    la: Lattice<'a>,
    lb: Lattice<'a>,
    tok: Tokenizer,
    baseform_unk: bool,
    text: Seq<char>,
    k: int,
)
    requires
        chunk_lattice(la, tok, baseform_unk, text),
        chunk_lattice(lb, tok, baseform_unk, text),
        1 <= k < la.slots.len(),
        k < lb.slots.len(),
        forall|j: int| 0 <= j < k ==> same_slot(#[trigger] la.slots@[j], lb.slots@[j]),
    ensures
        lb.slots@[k].pos >= la.slots@[k].pos,
{
    let q = la.slots@[k].pos as int;
    let qb = lb.slots@[k].pos as int;
    if qb < q {
        assert(la.slot_ok(k));
        assert(lb.slot_ok(k));
        assert(1 <= qb < la.size);
        lemma_starts_at(lb, qb, k);
        assert(lb.snodes@[qb].len() > 0);
        assert(reached(lb, qb));
        assert forall|j: int| 0 <= j < k implies same_slot(#[trigger] lb.slots@[j], la.slots@[j]) by {
            assert(same_slot(la.slots@[j], lb.slots@[j]));
        }
        lemma_reached_agrees(lb, la, k, qb);
        let e = expected_at(tok, baseform_unk, text, qb - 1);
        assert(la.snodes@[qb].len() >= 0);
        assert(nodes_at_are(la, qb, e));
        assert(nodes_at_are(lb, qb, e));
        let sa = la.snodes@[qb]@;
        let sb = lb.snodes@[qb]@;
        assert forall|i: int| 0 <= i < sa.len() implies sb.contains(#[trigger] sa[i]) by {
            let x = sa[i] as int;
            assert(la.snodes@[qb]@[i] < la.slots.len());
            lemma_starts_at(la, qb, x);
            if x >= k {
                assert(x != k);
                assert(la.slots@[k].pos <= la.slots@[x].pos);
            }
            assert(same_slot(la.slots@[x], lb.slots@[x]));
            lemma_starts_at(lb, qb, x);
        }
        lemma_starts_at(la, qb, k);
        lemma_shorter_list(sa, sb, k as usize);
    }
}

/// Two lattices built for the same chunk that agree on the slots before `k`, and
/// put slot `k` at the same position before the end, hold nodes there that look
/// the same.
proof fn lemma_node_agrees<'a>(
    la: Lattice<'a>,
    lb: Lattice<'a>,
    tok: Tokenizer,
    baseform_unk: bool,
    text: Seq<char>,
    k: int,
)
    requires
        chunk_lattice(la, tok, baseform_unk, text),
        chunk_lattice(lb, tok, baseform_unk, text),
        1 <= k < la.slots.len(),
        k < lb.slots.len(),
        forall|j: int| 0 <= j < k ==> same_slot(#[trigger] la.slots@[j], lb.slots@[j]),
        la.slots@[k].pos == lb.slots@[k].pos,
        la.slots@[k].pos < la.size,
    ensures
        same_node(la.slots@[k].node, lb.slots@[k].node),
{
    let q = la.slots@[k].pos as int;
    assert(la.slot_ok(k));
    lemma_starts_at(la, q, k);
    lemma_starts_at(lb, q, k);
    let sa = la.snodes@[q]@;
    let sb = lb.snodes@[q]@;
    assert(la.snodes@[q].len() > 0 && lb.snodes@[q].len() > 0);
    assert(reached(la, q));
    assert(reached(lb, q));
    let e = expected_at(tok, baseform_unk, text, q - 1);
    assert(nodes_at_are(la, q, e));
    assert(nodes_at_are(lb, q, e));
    let ia = choose|i: int| 0 <= i < sa.len() && sa[i] == k as usize;
    let ib = choose|i: int| 0 <= i < sb.len() && sb[i] == k as usize;
    let ta = sa.take(ia);
    let tb = sb.take(ib);
    assert(ta.to_set() =~= tb.to_set()) by {
        assert forall|x: usize| ta.to_set().contains(x) implies tb.to_set().contains(x) by {
            let i = choose|i: int| 0 <= i < ta.len() && ta[i] == x;
            assert(sa[i] < sa[ia]);
            assert(sa[i] < la.slots.len());
            lemma_starts_at(la, q, x as int);
            assert(same_slot(la.slots@[x as int], lb.slots@[x as int]));
            lemma_starts_at(lb, q, x as int);
            let l = choose|l: int| 0 <= l < sb.len() && sb[l] == x;
            if l >= ib {
                if l > ib {
                    assert(sb[ib] < sb[l]);
                }
            }
            assert(tb[l] == x);
        }
        assert forall|x: usize| tb.to_set().contains(x) implies ta.to_set().contains(x) by {
            let i = choose|i: int| 0 <= i < tb.len() && tb[i] == x;
            assert(sb[i] < sb[ib]);
            assert(sb[i] < lb.slots.len());
            lemma_starts_at(lb, q, x as int);
            assert(same_slot(la.slots@[x as int], lb.slots@[x as int]));
            lemma_starts_at(la, q, x as int);
            let l = choose|l: int| 0 <= l < sa.len() && sa[l] == x;
            if l >= ia {
                if l > ia {
                    assert(sa[ia] < sa[l]);
                }
            }
            assert(ta[l] == x);
        }
    }
    lemma_ascending_set_len(ta);
    lemma_ascending_set_len(tb);
    assert(ia == ib);
    assert(node_is(la.slots@[sa[ia] as int].node, e[ia]));
    assert(node_is(lb.slots@[sb[ib] as int].node, e[ib]));
    lemma_node_is_same(la.slots@[k].node, lb.slots@[k].node, e[ia]);
}

/// Two lattices that agree on the slots before `k`, with the same matrix, that put
/// at slot `k` nodes that look the same at the same position, give slot `k` the same
/// end and the same best path into it.
proof fn lemma_costs_agree<'a>(la: Lattice<'a>, lb: Lattice<'a>, k: int)
    requires
        la.inv(),
        lb.inv(),
        *la.matrix == *lb.matrix,
        1 <= k < la.slots.len(),
        k < lb.slots.len(),
        forall|j: int| 0 <= j < k ==> same_slot(#[trigger] la.slots@[j], lb.slots@[j]),
        la.slots@[k].pos == lb.slots@[k].pos,
        same_node(la.slots@[k].node, lb.slots@[k].node),
    ensures
        same_slot(la.slots@[k], lb.slots@[k]),
{
    assert(la.slot_ok(k));
    assert(lb.slot_ok(k));
    let ba = la.slots@[k].back as int;
    let bb = lb.slots@[k].back as int;
    assert(same_slot(la.slots@[ba], lb.slots@[ba]));
    assert(same_slot(la.slots@[bb], lb.slots@[bb]));
    assert(la.through(ba, k) == lb.through(ba, k));
    assert(la.through(bb, k) == lb.through(bb, k));
    if ba < bb {
        assert(lb.slots@[ba].end == lb.slots@[k].pos);
        assert(lb.through(bb, k) < lb.through(ba, k));
        assert(la.slots@[bb].end == la.slots@[k].pos);
        assert(la.through(ba, k) <= la.through(bb, k));
    }
    if bb < ba {
        assert(la.slots@[bb].end == la.slots@[k].pos);
        assert(la.through(ba, k) < la.through(bb, k));
        assert(lb.slots@[ba].end == lb.slots@[k].pos);
        assert(lb.through(bb, k) <= lb.through(ba, k));
    }
    assert(ba == bb);
    assert(la.slots@[k].node.span() == lb.slots@[k].node.span());
}

/// Two lattices built for the same chunk agree on their first `k` slots.
proof fn lemma_agree_upto<'a>(
    la: Lattice<'a>,
    lb: Lattice<'a>,
    tok: Tokenizer,
    baseform_unk: bool,
    text: Seq<char>,
    k: int,
)
    requires
        chunk_lattice(la, tok, baseform_unk, text),
        chunk_lattice(lb, tok, baseform_unk, text),
        0 <= k <= la.slots.len(),
        k <= lb.slots.len(),
    ensures
        forall|j: int| 0 <= j < k ==> same_slot(#[trigger] la.slots@[j], lb.slots@[j]),
    decreases k,
{
    if k > 0 {
        lemma_agree_upto(la, lb, tok, baseform_unk, text, k - 1);
        let m = k - 1;
        if m >= 1 {
            lemma_pos_not_before(la, lb, tok, baseform_unk, text, m);
            assert forall|j: int| 0 <= j < m implies same_slot(#[trigger] lb.slots@[j], la.slots@[j]) by {
                assert(same_slot(la.slots@[j], lb.slots@[j]));
            }
            lemma_pos_not_before(lb, la, tok, baseform_unk, text, m);
            let q = la.slots@[m].pos;
            assert(la.slot_ok(m));
            assert(lb.slot_ok(m));
            if q < la.size {
                lemma_node_agrees(la, lb, tok, baseform_unk, text, m);
            } else {
                assert(la.slots@[m].node is Eos);
                assert(lb.slots@[m].node is Eos);
            }
            lemma_costs_agree(la, lb, m);
        }
    }
}

/// Two lattices built for the same chunk have the same slots, up to how their nodes
/// are held.
proof fn lemma_lattices_agree<'a>(
    la: Lattice<'a>,
    lb: Lattice<'a>,
    tok: Tokenizer,
    baseform_unk: bool,
    text: Seq<char>,
)
    requires
        chunk_lattice(la, tok, baseform_unk, text),
        chunk_lattice(lb, tok, baseform_unk, text),
    ensures
        la.slots.len() == lb.slots.len(),
        la.eos == lb.eos,
        forall|j: int| 0 <= j < la.slots.len() ==> same_slot(#[trigger] la.slots@[j], lb.slots@[j]),
{
    let n = if la.slots.len() <= lb.slots.len() {
        la.slots.len() as int
    } else {
        lb.slots.len() as int
    };
    lemma_agree_upto(la, lb, tok, baseform_unk, text, n);
    let ea = la.eos->0 as int;
    let eb = lb.eos->0 as int;
    if la.slots.len() < lb.slots.len() {
        assert(same_slot(la.slots@[ea], lb.slots@[ea]));
        assert(lb.slots@[ea].node is Eos);
        assert(ea < eb);
    }
    if lb.slots.len() < la.slots.len() {
        assert(same_slot(la.slots@[eb], lb.slots@[eb]));
        assert(la.slots@[eb].node is Eos);
        assert(eb < ea);
    }
}

/// Lattices that agree on their slots have the same path back from each slot.
proof fn lemma_back_paths_agree<'a>(la: Lattice<'a>, lb: Lattice<'a>, k: usize)
    requires
        la.slots.len() == lb.slots.len(),
        forall|j: int| 0 <= j < la.slots.len() ==> same_slot(#[trigger] la.slots@[j], lb.slots@[j]),
    ensures
        la.back_path(k) == lb.back_path(k),
    decreases k,
{
    if k != 0 && k < la.slots.len() {
        assert(same_slot(la.slots@[k as int], lb.slots@[k as int]));
        if la.slots@[k as int].back < k {
            lemma_back_paths_agree(la, lb, la.slots@[k as int].back);
        }
    }
}

/// The nodes of the cheapest paths of two lattices built for the same chunk look
/// the same.
proof fn lemma_best_nodes_agree<'b, 'a>(
    la: Lattice<'a>,
    lb: Lattice<'a>,
    na: Seq<&'b StartNode<'a>>,
    nb: Seq<&'b StartNode<'a>>,
    tok: Tokenizer,
    baseform_unk: bool,
    text: Seq<char>,
)
    requires
        chunk_lattice(la, tok, baseform_unk, text),
        chunk_lattice(lb, tok, baseform_unk, text),
        best_path_nodes(la, na),
        best_path_nodes(lb, nb),
    ensures
        na.len() == nb.len(),
        forall|k: int| 0 <= k < na.len() ==> same_node(*#[trigger] na[k], *nb[k]),
{
    lemma_lattices_agree(la, lb, tok, baseform_unk, text);
    let e = la.eos->0;
    lemma_back_paths_agree(la, lb, e);
    lemma_back_path_cost(la, e);
    let path = la.back_path(e);
    assert forall|k: int| 0 <= k < na.len() implies same_node(*#[trigger] na[k], *nb[k]) by {
        assert(*na[k] == la.slots@[path[k + 1] as int].node);
        assert(*nb[k] == lb.slots@[path[k + 1] as int].node);
        assert((path[k + 1] as int) < la.slots.len());
        assert(same_slot(la.slots@[path[k + 1] as int], lb.slots@[path[k + 1] as int]));
    }
}

/// The surfaces of two lists of results, one after the other.
proof fn lemma_result_surfaces_add(a: Seq<ResultView>, b: Seq<ResultView>)
    ensures
        result_surfaces(a + b) == result_surfaces(a) + result_surfaces(b),
{
    assert(result_surfaces(a + b) =~= result_surfaces(a) + result_surfaces(b));
}

/// A chunk has one list of results in a mode, and splitting it into words gives the
/// surfaces of its tokens.
proof fn lemma_chunk_results_agree(
    tok: Tokenizer,
    w1: bool,
    w2: bool,
    baseform_unk: bool,
    text: Seq<char>,
    start: int,
    r1: Seq<ResultView>,
    r2: Seq<ResultView>,
)
    requires
        chunk_results(tok, w1, baseform_unk, text, start, r1),
        chunk_results(tok, w2, baseform_unk, text, start, r2),
    ensures
        w1 == w2 ==> r1 == r2,
        result_surfaces(r1) == result_surfaces(r2),
{
    let ctext = text.subrange(start, start + crate::chunking::chunk_len(text.skip(start)));
    let (la, na) = choose|lat: Lattice<'static>, nodes: Seq<&'static StartNode<'static>>|
        #![trigger chunk_lattice(lat, tok, baseform_unk, ctext), best_path_nodes(lat, nodes)]
        {
            &&& chunk_lattice(lat, tok, baseform_unk, ctext)
            &&& best_path_nodes(lat, nodes)
            &&& r1 == path_results(nodes, w1, baseform_unk, tok.sys(), tok.user())
        };
    let (lb, nb) = choose|lat: Lattice<'static>, nodes: Seq<&'static StartNode<'static>>|
        #![trigger chunk_lattice(lat, tok, baseform_unk, ctext), best_path_nodes(lat, nodes)]
        {
            &&& chunk_lattice(lat, tok, baseform_unk, ctext)
            &&& best_path_nodes(lat, nodes)
            &&& r2 == path_results(nodes, w2, baseform_unk, tok.sys(), tok.user())
        };
    lemma_best_nodes_agree(la, lb, na, nb, tok, baseform_unk, ctext);
    lemma_path_results_same(na, nb, w1, baseform_unk, tok.sys(), tok.user());
    lemma_path_results_same(na, nb, w2, baseform_unk, tok.sys(), tok.user());
    lemma_wakati_surfaces(na, baseform_unk, tok.sys(), tok.user());
    lemma_wakati_surfaces(nb, baseform_unk, tok.sys(), tok.user());
    if w1 != w2 {
        lemma_path_results_same(na, nb, true, baseform_unk, tok.sys(), tok.user());
        lemma_path_results_same(na, nb, false, baseform_unk, tok.sys(), tok.user());
    }
}

/// Lists of lists of results with, list by list, the same surfaces give, flattened,
/// the same surfaces.
proof fn lemma_flatten_surfaces(p1: Seq<Seq<ResultView>>, p2: Seq<Seq<ResultView>>)
    requires
        p1.len() == p2.len(),
        forall|i: int| 0 <= i < p1.len() ==> result_surfaces(#[trigger] p1[i]) == result_surfaces(p2[i]),
    ensures
        result_surfaces(p1.flatten()) == result_surfaces(p2.flatten()),
    decreases p1.len(),
{
    if p1.len() > 0 {
        assert forall|i: int| 0 <= i < p1.drop_first().len() implies result_surfaces(
            #[trigger] p1.drop_first()[i],
        ) == result_surfaces(p2.drop_first()[i]) by {
            assert(result_surfaces(p1[i + 1]) == result_surfaces(p2[i + 1]));
        }
        lemma_flatten_surfaces(p1.drop_first(), p2.drop_first());
        assert(result_surfaces(p1[0]) == result_surfaces(p2[0]));
        lemma_result_surfaces_add(p1.first(), p1.drop_first().flatten());
        lemma_result_surfaces_add(p2.first(), p2.drop_first().flatten());
    }
}

/// Two tokenizations of one text agree: in one mode they are the same, and their
/// surfaces are the same whatever the modes.
proof fn lemma_tokenized_agree(
    tok: Tokenizer,
    w1: bool,
    w2: bool,
    baseform_unk: bool,
    text: Seq<char>,
    r1: Seq<ResultView>,
    r2: Seq<ResultView>,
)
    requires
        tokenized(tok, w1, baseform_unk, text, r1),
        tokenized(tok, w2, baseform_unk, text, r2),
    ensures
        w1 == w2 ==> r1 == r2,
        result_surfaces(r1) == result_surfaces(r2),
{
    let p1 = choose|parts: Seq<Seq<ResultView>>|
        {
            &&& r1 == #[trigger] parts.flatten()
            &&& chunk_start(text, parts.len() as int) == text.len()
            &&& forall|i: int| 0 <= i < parts.len() ==> #[trigger] chunk_start(text, i) < text.len()
            &&& forall|i: int|
                0 <= i < parts.len() ==> chunk_results(
                    tok,
                    w1,
                    baseform_unk,
                    text,
                    chunk_start(text, i),
                    #[trigger] parts[i],
                )
        };
    let p2 = choose|parts: Seq<Seq<ResultView>>|
        {
            &&& r2 == #[trigger] parts.flatten()
            &&& chunk_start(text, parts.len() as int) == text.len()
            &&& forall|i: int| 0 <= i < parts.len() ==> #[trigger] chunk_start(text, i) < text.len()
            &&& forall|i: int|
                0 <= i < parts.len() ==> chunk_results(
                    tok,
                    w2,
                    baseform_unk,
                    text,
                    chunk_start(text, i),
                    #[trigger] parts[i],
                )
        };
    if p1.len() < p2.len() {
        assert(chunk_start(text, p1.len() as int) < text.len());
    }
    if p2.len() < p1.len() {
        assert(chunk_start(text, p2.len() as int) < text.len());
    }
    assert(p1.len() == p2.len());
    assert forall|i: int| 0 <= i < p1.len() implies result_surfaces(#[trigger] p1[i]) == result_surfaces(p2[i])
        && (w1 == w2 ==> p1[i] == p2[i]) by {
        lemma_chunk_results_agree(tok, w1, w2, baseform_unk, text, chunk_start(text, i), p1[i], p2[i]);
    }
    lemma_flatten_surfaces(p1, p2);
    if w1 == w2 {
        assert(p1 =~= p2);
    }
}

/// Tokenizing a text in one mode has one outcome.
pub proof fn lemma_tokenized_unique(
    tok: Tokenizer,
    wakati: bool,
    baseform_unk: bool,
    text: Seq<char>,
    r1: Seq<ResultView>,
    r2: Seq<ResultView>,
)
    requires
        tokenized(tok, wakati, baseform_unk, text, r1),
        tokenized(tok, wakati, baseform_unk, text, r2),
    ensures
        r1 == r2,
{
    lemma_tokenized_agree(tok, wakati, wakati, baseform_unk, text, r1, r2);
}

/// Splitting a text into words gives, one for one, the surfaces of the tokens that
/// tokenizing it gives.
pub proof fn lemma_tokenized_wakati_surfaces(
    tok: Tokenizer,
    baseform_unk: bool,
    text: Seq<char>,
    words: Seq<ResultView>,
    tokens: Seq<ResultView>,
)
    requires
        tokenized(tok, true, baseform_unk, text, words),
        tokenized(tok, false, baseform_unk, text, tokens),
    ensures
        result_surfaces(words) == result_surfaces(tokens),
{
    lemma_tokenized_agree(tok, true, false, baseform_unk, text, words, tokens);
}

/// Tokenizing a text at once and handing its results out one by one give the same
/// results: both tokenize the text without its leading and trailing white space.
pub proof fn lemma_same_tokenization(
    tok: Tokenizer,
    wakati: bool,
    baseform_unk: bool,
    text: Seq<char>,
    t1: Seq<char>,
    t2: Seq<char>,
    r1: Seq<ResultView>,
    r2: Seq<ResultView>,
)
    requires
        is_trim_of(text, t1),
        is_trim_of(text, t2),
        tokenized(tok, wakati, baseform_unk, t1, r1),
        tokenized(tok, wakati, baseform_unk, t2, r2),
    ensures
        r1 == r2,
{
    lemma_trim_unique(text, t1, t2);
    lemma_tokenized_unique(tok, wakati, baseform_unk, t1, r1, r2);
}

/// Every node on the cheapest path of a lattice built for a chunk has a surface of
/// at least one character.
proof fn lemma_best_nodes_nonempty<'b, 'a>(
    l: Lattice<'a>,
    nodes: Seq<&'b StartNode<'a>>,
    tok: Tokenizer,
    baseform_unk: bool,
    text: Seq<char>,
)
    requires
        chunk_lattice(l, tok, baseform_unk, text),
        best_path_nodes(l, nodes),
    ensures
        forall|k: int| 0 <= k < nodes.len() ==> (#[trigger] nodes[k]).surface_view().len() >= 1,
{
    let e = l.eos->0;
    lemma_back_path_cost(l, e);
    let path = l.back_path(e);
    assert forall|k: int| 0 <= k < nodes.len() implies (#[trigger] nodes[k]).surface_view().len() >= 1 by {
        let x = path[k + 1] as int;
        let prev = path[k] as int;
        let next = path[k + 2] as int;
        assert(l.linked(path, k));
        assert(l.linked(path, k + 1));
        assert(x < l.slots.len() && prev < l.slots.len() && next < l.slots.len());
        if prev >= 1 {
            assert(l.slot_ok(prev));
        }
        assert(l.slots@[x].pos >= 1);
        assert(x != 0);
        assert(l.slot_ok(x));
        if next >= 1 {
            assert(l.slot_ok(next));
        }
        assert(l.slots@[next].pos <= l.p);
        assert(!(l.slots@[x].node is Eos));
        assert(*nodes[k] == l.slots@[x].node);
    }
}

/// The results of a path whose nodes all have a surface have a surface too.
proof fn lemma_path_results_nonempty<'b, 'a>(
    nodes: Seq<&'b StartNode<'a>>,
    wakati: bool,
    baseform_unk: bool,
    sys: SystemDictionary,
    user: Option<UserDictionary>,
)
    requires
        forall|k: int| 0 <= k < nodes.len() ==> (#[trigger] nodes[k]).surface_view().len() >= 1,
    ensures
        forall|k: int|
            0 <= k < path_results(nodes, wakati, baseform_unk, sys, user).len() ==> result_surface(
                #[trigger] path_results(nodes, wakati, baseform_unk, sys, user)[k],
            ).len() >= 1,
    decreases nodes.len(),
{
    reveal_strlit("　");
    reveal_strlit("――");
    reveal_strlit("ある");
    let all = path_results(nodes, wakati, baseform_unk, sys, user);
    if nodes.len() > 0 {
        assert(nodes[0].surface_view().len() >= 1);
        match special_case(nodes, wakati) {
            Some((rs, n)) => {
                if 1 <= n <= nodes.len() {
                    let rest = nodes.skip(n);
                    assert forall|k: int| 0 <= k < rest.len() implies (#[trigger] rest[k]).surface_view().len() >= 1 by {
                        assert(rest[k] == nodes[k + n]);
                    }
                    lemma_path_results_nonempty(rest, wakati, baseform_unk, sys, user);
                    let rr = path_results(rest, wakati, baseform_unk, sys, user);
                    assert(all == rs + rr);
                    assert forall|k: int| 0 <= k < all.len() implies result_surface(#[trigger] all[k]).len() >= 1 by {
                        if k >= rs.len() {
                            assert(all[k] == rr[k - rs.len()]);
                        } else {
                            assert(all[k] == rs[k]);
                        }
                    }
                }
            },
            None => {
                let rest = nodes.skip(1);
                assert forall|k: int| 0 <= k < rest.len() implies (#[trigger] rest[k]).surface_view().len() >= 1 by {
                    assert(rest[k] == nodes[k + 1]);
                }
                lemma_path_results_nonempty(rest, wakati, baseform_unk, sys, user);
                let r = node_result(*nodes[0], wakati, baseform_unk, sys, user);
                let rr = path_results(rest, wakati, baseform_unk, sys, user);
                assert(all == seq![r] + rr);
                lemma_node_result_surface(*nodes[0], wakati, baseform_unk, sys, user);
                assert forall|k: int| 0 <= k < all.len() implies result_surface(#[trigger] all[k]).len() >= 1 by {
                    if k >= 1 {
                        assert(all[k] == rr[k - 1]);
                    }
                }
            },
        }
    }
}

/// Every result of a chunk has a surface of at least one character.
pub proof fn lemma_chunk_results_nonempty(
    tok: Tokenizer,
    wakati: bool,
    baseform_unk: bool,
    text: Seq<char>,
    start: int,
    rs: Seq<ResultView>,
)
    requires
        chunk_results(tok, wakati, baseform_unk, text, start, rs),
    ensures
        forall|k: int| 0 <= k < rs.len() ==> result_surface(#[trigger] rs[k]).len() >= 1,
{
    let ctext = text.subrange(start, start + crate::chunking::chunk_len(text.skip(start)));
    let (l, nodes) = choose|lat: Lattice<'static>, nodes: Seq<&'static StartNode<'static>>|
        #![trigger chunk_lattice(lat, tok, baseform_unk, ctext), best_path_nodes(lat, nodes)]
        {
            &&& chunk_lattice(lat, tok, baseform_unk, ctext)
            &&& best_path_nodes(lat, nodes)
            &&& rs == path_results(nodes, wakati, baseform_unk, tok.sys(), tok.user())
        };
    lemma_best_nodes_nonempty(l, nodes, tok, baseform_unk, ctext);
    lemma_path_results_nonempty(nodes, wakati, baseform_unk, tok.sys(), tok.user());
}

/// Results drawn from lists whose results all have a surface have a surface.
proof fn lemma_flatten_nonempty(parts: Seq<Seq<ResultView>>)
    requires
        forall|i: int, k: int|
            0 <= i < parts.len() && 0 <= k < parts[i].len() ==> result_surface(#[trigger] parts[i][k]).len() >= 1,
    ensures
        forall|k: int| 0 <= k < parts.flatten().len() ==> result_surface(#[trigger] parts.flatten()[k]).len() >= 1,
    decreases parts.len(),
{
    if parts.len() > 0 {
        let rest = parts.drop_first();
        assert forall|i: int, k: int| 0 <= i < rest.len() && 0 <= k < rest[i].len() implies result_surface(
            #[trigger] rest[i][k],
        ).len() >= 1 by {
            assert(rest[i] == parts[i + 1]);
        }
        lemma_flatten_nonempty(rest);
        let f = parts.flatten();
        assert(f == parts[0] + rest.flatten());
        assert forall|k: int| 0 <= k < f.len() implies result_surface(#[trigger] f[k]).len() >= 1 by {
            if k < parts[0].len() {
                assert(f[k] == parts[0][k]);
            } else {
                assert(f[k] == rest.flatten()[k - parts[0].len()]);
            }
        }
    }
}

/// Every result of tokenizing a text has a surface of at least one character.
pub proof fn lemma_tokenized_nonempty(
    tok: Tokenizer,
    wakati: bool,
    baseform_unk: bool,
    text: Seq<char>,
    rs: Seq<ResultView>,
)
    requires
        tokenized(tok, wakati, baseform_unk, text, rs),
    ensures
        forall|k: int| 0 <= k < rs.len() ==> result_surface(#[trigger] rs[k]).len() >= 1,
{
    let parts = choose|parts: Seq<Seq<ResultView>>|
        {
            &&& rs == #[trigger] parts.flatten()
            &&& chunk_start(text, parts.len() as int) == text.len()
            &&& forall|i: int| 0 <= i < parts.len() ==> #[trigger] chunk_start(text, i) < text.len()
            &&& forall|i: int|
                0 <= i < parts.len() ==> chunk_results(
                    tok,
                    wakati,
                    baseform_unk,
                    text,
                    chunk_start(text, i),
                    #[trigger] parts[i],
                )
        };
    assert forall|i: int, k: int| 0 <= i < parts.len() && 0 <= k < parts[i].len() implies result_surface(
        #[trigger] parts[i][k],
    ).len() >= 1 by {
        lemma_chunk_results_nonempty(tok, wakati, baseform_unk, text, chunk_start(text, i), parts[i]);
    }
    lemma_flatten_nonempty(parts);
}

} // verus!
