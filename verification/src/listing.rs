//! One directory listing: the hidden-name filter and the listing order.
//!
//! A raw listing (the children of one directory, in whatever order the
//! filesystem handed them out) is *prepared* by dropping the filtered
//! entries and sorting the rest: directories first, then files, each group
//! in ascending name order.

use vstd::prelude::*;
use vstd::multiset::Multiset;
use crate::node::{
    Node, kept, is_kept, node_le, node_le_exec, lemma_node_le_total, lemma_node_le_trans,
    node_is_dir, node_size, seq_size, lemma_seq_size_first, hidden_name,
};
use crate::order::lex_le;

verus! {

/// The entries of `s` that pass the hidden-name filter, in their original
/// order.
pub open spec fn keep_nodes(s: Seq<Node>, ignore_hidden: bool) -> Seq<Node>
    decreases s.len(),
{
    if s.len() == 0 {
        Seq::empty()
    } else {
        let rest = keep_nodes(s.subrange(1, s.len() as int), ignore_hidden);
        if kept(s[0], ignore_hidden) {
            seq![s[0]] + rest
        } else {
            rest
        }
    }
}

/// `n` inserted in front of the first entry of `s` that it precedes or
/// equals in the listing order.
pub open spec fn insert_le(n: Node, s: Seq<Node>) -> Seq<Node>
    decreases s.len(),
{
    if s.len() == 0 {
        seq![n]
    } else if node_le(n, s[0]) {
        seq![n] + s
    } else {
        seq![s[0]] + insert_le(n, s.subrange(1, s.len() as int))
    }
}

/// Insertion sort of a listing under the listing order.
pub open spec fn sort_nodes(s: Seq<Node>) -> Seq<Node>
    decreases s.len(),
{
    if s.len() == 0 {
        Seq::empty()
    } else {
        insert_le(s[0], sort_nodes(s.subrange(1, s.len() as int)))
    }
}

/// A raw listing after the hidden-name filter and the sort: exactly what is
/// rendered, in the order it is rendered.
pub open spec fn prepared(s: Seq<Node>, ignore_hidden: bool) -> Seq<Node> {
    sort_nodes(keep_nodes(s, ignore_hidden))
}

/// Every pair of entries stands in the listing order.
pub open spec fn sorted_nodes(s: Seq<Node>) -> bool {
    forall|i: int, j: int| 0 <= i < j < s.len() ==> #[trigger] node_le(s[i], s[j])
}

/// Consing one entry onto a listing inserts it into the listing's multiset.
proof fn lemma_cons_to_multiset(x: Node, s: Seq<Node>)
    ensures
        (seq![x] + s).to_multiset() == s.to_multiset().insert(x),
{
    vstd::seq_lib::to_multiset_insert(s, 0, x);
    assert(s.insert(0, x) =~= seq![x] + s);
}

/// An empty listing has an empty multiset.
proof fn lemma_empty_to_multiset(s: Seq<Node>)
    requires
        s.len() == 0,
    ensures
        s.to_multiset() == Multiset::<Node>::empty(),
{
    broadcast use vstd::multiset::group_multiset_axioms;
    broadcast use vstd::seq_lib::group_to_multiset_ensures;

    assert(s.to_multiset() =~= Multiset::<Node>::empty());
}

/// Inserting in order adds exactly one occurrence of the inserted entry.
pub proof fn lemma_insert_le_multiset(n: Node, s: Seq<Node>)
    ensures
        insert_le(n, s).to_multiset() == s.to_multiset().insert(n),
    decreases s.len(),
{
    broadcast use vstd::multiset::group_multiset_axioms;

    if s.len() == 0 {
        lemma_empty_to_multiset(s);
        lemma_cons_to_multiset(n, s);
        assert(seq![n] + s =~= seq![n]);
        assert(insert_le(n, s) == seq![n]);
    } else if node_le(n, s[0]) {
        lemma_cons_to_multiset(n, s);
    } else {
        let tail = s.subrange(1, s.len() as int);
        lemma_insert_le_multiset(n, tail);
        lemma_cons_to_multiset(s[0], insert_le(n, tail));
        lemma_cons_to_multiset(s[0], tail);
        assert(seq![s[0]] + tail =~= s);
        assert(insert_le(n, s).to_multiset() =~= s.to_multiset().insert(n));
    }
}

/// Everything in an in-order insertion came from the insertion: the new
/// entry or the listing it went into.
proof fn lemma_insert_le_contains(n: Node, s: Seq<Node>, x: Node)
    requires
        insert_le(n, s).contains(x),
    ensures
        x == n || s.contains(x),
    decreases s.len(),
{
    if s.len() == 0 {
    } else if node_le(n, s[0]) {
        let r = seq![n] + s;
        let i = choose|i: int| 0 <= i < r.len() && r[i] == x;
        if i > 0 {
            assert(s[i - 1] == x);
        }
    } else {
        let tail = s.subrange(1, s.len() as int);
        let r = seq![s[0]] + insert_le(n, tail);
        let i = choose|i: int| 0 <= i < r.len() && r[i] == x;
        if i == 0 {
            assert(s[0] == x);
        } else {
            assert(insert_le(n, tail)[i - 1] == x);
            assert(insert_le(n, tail).contains(x));
            lemma_insert_le_contains(n, tail, x);
            if tail.contains(x) {
                let j = choose|j: int| 0 <= j < tail.len() && tail[j] == x;
                assert(s[j + 1] == x);
            }
        }
    }
}

/// In-order insertion keeps a listing sorted.
pub proof fn lemma_insert_le_sorted(n: Node, s: Seq<Node>)
    requires
        sorted_nodes(s),
    ensures
        sorted_nodes(insert_le(n, s)),
    decreases s.len(),
{
    if s.len() == 0 {
    } else if node_le(n, s[0]) {
        let r = seq![n] + s;
        assert forall|i: int, j: int| 0 <= i < j < r.len() implies #[trigger] node_le(r[i], r[j]) by {
            if i == 0 {
                if j > 1 {
                    assert(node_le(s[0], s[j - 1]));
                    lemma_node_le_trans(n, s[0], s[j - 1]);
                }
            } else {
                assert(node_le(s[i - 1], s[j - 1]));
            }
        }
    } else {
        let tail = s.subrange(1, s.len() as int);
        assert(sorted_nodes(tail)) by {
            assert forall|i: int, j: int| 0 <= i < j < tail.len() implies #[trigger] node_le(
                tail[i],
                tail[j],
            ) by {
                assert(node_le(s[i + 1], s[j + 1]));
            }
        }
        lemma_insert_le_sorted(n, tail);
        let ins = insert_le(n, tail);
        let r = seq![s[0]] + ins;
        assert forall|i: int, j: int| 0 <= i < j < r.len() implies #[trigger] node_le(r[i], r[j]) by {
            if i == 0 {
                assert(ins[j - 1] == r[j]);
                assert(ins.contains(ins[j - 1]));
                lemma_insert_le_contains(n, tail, ins[j - 1]);
                if r[j] == n {
                    lemma_node_le_total(n, s[0]);
                } else {
                    let k = choose|k: int| 0 <= k < tail.len() && tail[k] == r[j];
                    assert(node_le(s[0], s[k + 1]));
                }
            } else {
                assert(node_le(ins[i - 1], ins[j - 1]));
            }
        }
    }
}

/// Sorting keeps exactly the entries of the listing, multiplicities
/// included: a sorted listing is a permutation of the raw one.
pub proof fn lemma_sort_nodes_multiset(s: Seq<Node>)
    ensures
        sort_nodes(s).to_multiset() == s.to_multiset(),
    decreases s.len(),
{
    if s.len() == 0 {
        lemma_empty_to_multiset(s);
        lemma_empty_to_multiset(sort_nodes(s));
    } else {
        let tail = s.subrange(1, s.len() as int);
        lemma_sort_nodes_multiset(tail);
        lemma_insert_le_multiset(s[0], sort_nodes(tail));
        lemma_cons_to_multiset(s[0], tail);
        assert(seq![s[0]] + tail =~= s);
    }
}

/// Sorting sorts.
pub proof fn lemma_sort_nodes_sorted(s: Seq<Node>)
    ensures
        sorted_nodes(sort_nodes(s)),
    decreases s.len(),
{
    if s.len() == 0 {
    } else {
        let tail = s.subrange(1, s.len() as int);
        lemma_sort_nodes_sorted(tail);
        lemma_insert_le_sorted(s[0], sort_nodes(tail));
    }
}

/// The hidden-name filter drops all the filtered entries and only them:
/// a kept entry keeps its multiplicity, a filtered one is gone.
pub proof fn lemma_keep_nodes_counts(s: Seq<Node>, ignore_hidden: bool)
    ensures
        forall|x: Node|
            #[trigger] keep_nodes(s, ignore_hidden).to_multiset().count(x) == (if kept(
                x,
                ignore_hidden,
            ) {
                s.to_multiset().count(x)
            } else {
                0
            }),
    decreases s.len(),
{
    broadcast use vstd::multiset::group_multiset_axioms;

    if s.len() == 0 {
        lemma_empty_to_multiset(s);
        lemma_empty_to_multiset(keep_nodes(s, ignore_hidden));
    } else {
        let tail = s.subrange(1, s.len() as int);
        lemma_keep_nodes_counts(tail, ignore_hidden);
        lemma_cons_to_multiset(s[0], tail);
        assert(seq![s[0]] + tail =~= s);
        if kept(s[0], ignore_hidden) {
            lemma_cons_to_multiset(s[0], keep_nodes(tail, ignore_hidden));
        }
    }
}

/// What a prepared listing holds: exactly the raw entries that pass the
/// hidden-name filter — none lost, none added, none duplicated — whatever
/// the raw order was.
pub proof fn lemma_prepared_exact(s: Seq<Node>, ignore_hidden: bool)
    ensures
        forall|x: Node|
            #[trigger] prepared(s, ignore_hidden).to_multiset().count(x) == (if kept(
                x,
                ignore_hidden,
            ) {
                s.to_multiset().count(x)
            } else {
                0
            }),
{
    lemma_sort_nodes_multiset(keep_nodes(s, ignore_hidden));
    lemma_keep_nodes_counts(s, ignore_hidden);
}

/// How a prepared listing is ordered: every directory precedes every file,
/// and within each of the two groups names ascend in codepoint order.
pub proof fn lemma_prepared_sorted(s: Seq<Node>, ignore_hidden: bool)
    ensures
        sorted_nodes(prepared(s, ignore_hidden)),
        forall|i: int, j: int|
            #![trigger prepared(s, ignore_hidden)[i], prepared(s, ignore_hidden)[j]]
            0 <= i < j < prepared(s, ignore_hidden).len() ==> ((node_is_dir(
                prepared(s, ignore_hidden)[j],
            ) ==> node_is_dir(prepared(s, ignore_hidden)[i])) && (node_is_dir(
                prepared(s, ignore_hidden)[i],
            ) == node_is_dir(prepared(s, ignore_hidden)[j]) ==> lex_le(
                prepared(s, ignore_hidden)[i].name@,
                prepared(s, ignore_hidden)[j].name@,
            ))),
{
    lemma_sort_nodes_sorted(keep_nodes(s, ignore_hidden));
    let p = prepared(s, ignore_hidden);
    assert forall|i: int, j: int|
        #![trigger p[i], p[j]]
        0 <= i < j < p.len() implies ((node_is_dir(p[j]) ==> node_is_dir(p[i])) && (node_is_dir(
        p[i],
    ) == node_is_dir(p[j]) ==> lex_le(p[i].name@, p[j].name@))) by {
        assert(node_le(p[i], p[j]));
    }
}

/// With the filter on, a prepared listing never holds a hidden entry.
/// Rendering prepares every listing it descends into, so this holds at
/// every depth, not only at the root.
pub proof fn lemma_prepared_no_hidden(s: Seq<Node>)
    ensures
        forall|i: int|
            0 <= i < prepared(s, true).len() ==> !hidden_name(
                (#[trigger] prepared(s, true)[i]).name@,
            ),
{
    broadcast use vstd::seq_lib::group_to_multiset_ensures;

    lemma_prepared_exact(s, true);
    let p = prepared(s, true);
    assert forall|i: int| 0 <= i < p.len() implies !hidden_name((#[trigger] p[i]).name@) by {
        let x = p[i];
        assert(p.contains(x));
        assert(p.to_multiset().count(x) > 0);
        assert(kept(x, true));
    }
}

/// With the filter on, hidden entries are invisible: inserting one
/// anywhere in a raw listing leaves the prepared listing unchanged — it
/// affects neither the ordering nor which entry counts as last.
pub proof fn lemma_hidden_invisible(s: Seq<Node>, k: int, h: Node)
    requires
        0 <= k <= s.len(),
        hidden_name(h.name@),
    ensures
        prepared(s.insert(k, h), true) == prepared(s, true),
{
    lemma_keep_insert_hidden(s, k, h);
}

/// Inserting a filtered-out entry leaves the kept entries unchanged.
proof fn lemma_keep_insert_hidden(s: Seq<Node>, k: int, h: Node)
    requires
        0 <= k <= s.len(),
        !kept(h, true),
    ensures
        keep_nodes(s.insert(k, h), true) == keep_nodes(s, true),
    decreases s.len(),
{
    let t = s.insert(k, h);
    if k == 0 {
        assert(t[0] == h);
        assert(t.subrange(1, t.len() as int) =~= s);
    } else {
        assert(t[0] == s[0]);
        let s_tail = s.subrange(1, s.len() as int);
        assert(t.subrange(1, t.len() as int) =~= s_tail.insert(k - 1, h));
        lemma_keep_insert_hidden(s_tail, k - 1, h);
    }
}

/// Filtering never grows the total node count.
pub proof fn lemma_keep_nodes_size(s: Seq<Node>, ignore_hidden: bool)
    ensures
        seq_size(keep_nodes(s, ignore_hidden)) <= seq_size(s),
    decreases s.len(),
{
    if s.len() == 0 {
    } else {
        let tail = s.subrange(1, s.len() as int);
        lemma_keep_nodes_size(tail, ignore_hidden);
        lemma_seq_size_first(s);
        if kept(s[0], ignore_hidden) {
            lemma_seq_size_cons(s[0], keep_nodes(tail, ignore_hidden));
        }
    }
}

/// Unfolds [`seq_size`] over a cons.
proof fn lemma_seq_size_cons(x: Node, s: Seq<Node>)
    ensures
        seq_size(seq![x] + s) == node_size(x) + seq_size(s),
{
    let r = seq![x] + s;
    lemma_seq_size_first(r);
    assert(r.subrange(1, r.len() as int) =~= s);
}

/// In-order insertion adds exactly the inserted subtree's node count.
proof fn lemma_insert_le_size(n: Node, s: Seq<Node>)
    ensures
        seq_size(insert_le(n, s)) == node_size(n) + seq_size(s),
    decreases s.len(),
{
    if s.len() == 0 {
        lemma_seq_size_cons(n, Seq::empty());
        assert(seq![n] + Seq::<Node>::empty() =~= seq![n]);
    } else if node_le(n, s[0]) {
        lemma_seq_size_cons(n, s);
    } else {
        let tail = s.subrange(1, s.len() as int);
        lemma_insert_le_size(n, tail);
        lemma_seq_size_cons(s[0], insert_le(n, tail));
        lemma_seq_size_first(s);
    }
}

/// Sorting does not change the total node count.
pub proof fn lemma_sort_nodes_size(s: Seq<Node>)
    ensures
        seq_size(sort_nodes(s)) == seq_size(s),
    decreases s.len(),
{
    if s.len() == 0 {
    } else {
        let tail = s.subrange(1, s.len() as int);
        lemma_sort_nodes_size(tail);
        lemma_insert_le_size(s[0], sort_nodes(tail));
        lemma_seq_size_first(s);
    }
}

/// A prepared listing never holds more nodes than the raw one.
pub proof fn lemma_prepared_size(s: Seq<Node>, ignore_hidden: bool)
    ensures
        seq_size(prepared(s, ignore_hidden)) <= seq_size(s),
{
    lemma_keep_nodes_size(s, ignore_hidden);
    lemma_sort_nodes_size(keep_nodes(s, ignore_hidden));
}

/// Drops the entries that the hidden-name filter excludes, keeping the rest
/// in their original order.
pub fn keep_visible(entries: Vec<Node>, ignore_hidden: bool) -> (r: Vec<Node>)
    ensures
        r@ == keep_nodes(entries@, ignore_hidden),
    decreases entries@.len(),
{
    let ghost input = entries@;
    let mut entries = entries;
    if entries.len() == 0 {
        let r = Vec::new();
        proof {
            assert(r@ =~= keep_nodes(input, ignore_hidden));
        }
        r
    } else {
        let first = entries.remove(0);
        proof {
            assert(entries@ =~= input.subrange(1, input.len() as int));
        }
        let keep_first = is_kept(&first, ignore_hidden);
        let rest = keep_visible(entries, ignore_hidden);
        if keep_first {
            let mut out = Vec::new();
            out.push(first);
            let mut rest = rest;
            out.append(&mut rest);
            proof {
                assert(out@ =~= keep_nodes(input, ignore_hidden));
            }
            out
        } else {
            rest
        }
    }
}

/// Inserts one entry into a listing, in front of the first entry that it
/// precedes or equals in the listing order.
pub fn insert_sorted(n: Node, sorted: Vec<Node>) -> (r: Vec<Node>)
    ensures
        r@ == insert_le(n, sorted@),
    decreases sorted@.len(),
{
    let ghost input = sorted@;
    let mut sorted = sorted;
    if sorted.len() == 0 {
        let mut out = Vec::new();
        out.push(n);
        proof {
            assert(out@ =~= seq![n]);
        }
        out
    } else {
        let first = sorted.remove(0);
        proof {
            assert(sorted@ =~= input.subrange(1, input.len() as int));
        }
        if node_le_exec(&n, &first) {
            let mut out = Vec::new();
            out.push(n);
            out.push(first);
            out.append(&mut sorted);
            proof {
                assert(out@ =~= seq![n] + input);
            }
            out
        } else {
            let mut rest = insert_sorted(n, sorted);
            let mut out = Vec::new();
            out.push(first);
            out.append(&mut rest);
            proof {
                assert(out@ =~= seq![input[0]] + insert_le(n, input.subrange(1, input.len() as int)));
            }
            out
        }
    }
}

/// Insertion sort under the listing order.
pub fn sort_entries(entries: Vec<Node>) -> (r: Vec<Node>)
    ensures
        r@ == sort_nodes(entries@),
    decreases entries@.len(),
{
    let ghost input = entries@;
    let mut entries = entries;
    if entries.len() == 0 {
        proof {
            assert(entries@ =~= sort_nodes(input));
        }
        entries
    } else {
        let first = entries.remove(0);
        proof {
            assert(entries@ =~= input.subrange(1, input.len() as int));
        }
        let rest = sort_entries(entries);
        insert_sorted(first, rest)
    }
}

/// Prepares one raw directory listing for rendering: applies the hidden-name
/// filter, then sorts what is left — directories first, then files, each
/// group in ascending codepoint order of names.
pub fn prepare_listing(entries: Vec<Node>, ignore_hidden: bool) -> (r: Vec<Node>)
    ensures
        r@ == prepared(entries@, ignore_hidden),
{
    sort_entries(keep_visible(entries, ignore_hidden))
}

} // verus!
